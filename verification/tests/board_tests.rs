use engine_core::board::{phys, pos_of_phys, Board, HEAD_POS, N_CHECKERS, N_POINTS, START_PIP};
use engine_core::player::Player;

const BOTH: [Player; 2] = [Player::White, Player::Black];

#[test]
fn heads_are_diagonally_opposite() {
    assert_eq!(phys(Player::White, HEAD_POS), 0);
    assert_eq!(phys(Player::Black, HEAD_POS), 12);
}

#[test]
fn phys_round_trips_for_both_players() {
    for &p in &BOTH {
        for pos in 1..=HEAD_POS {
            assert_eq!(pos_of_phys(p, phys(p, pos)), pos, "player {p:?} pos {pos}");
        }
        for cell in 0..N_POINTS {
            let pos = pos_of_phys(p, cell);
            assert_eq!(phys(p, pos), cell);
        }
    }
}

#[test]
fn white_pos12_is_black_head_cell() {
    assert_eq!(phys(Player::White, 12), phys(Player::Black, HEAD_POS));
}

#[test]
fn starting_position_is_balanced() {
    let b = Board::starting();
    assert_eq!(b.pip(Player::White), START_PIP);
    assert_eq!(b.pip(Player::Black), START_PIP);
    assert_eq!(b.own_at(Player::White, HEAD_POS), N_CHECKERS);
    assert_eq!(b.own_at(Player::Black, HEAD_POS), N_CHECKERS);
    assert_eq!(b.off, [0, 0]);
    assert_eq!(b.checkers_on_board(Player::White), N_CHECKERS);
}

#[test]
fn starting_boards_are_valid_and_hachapuri_has_its_preset() {
    assert!(Board::starting().is_valid());
    let h = Board::starting_hachapuri();
    assert!(h.is_valid());
    for &p in &BOTH {
        assert_eq!(h.own_at(p, HEAD_POS), 4);
        assert_eq!(h.own_at(p, 6), 11);
        assert_eq!(h.pip(p), 4 * 24 + 11 * 6);
        assert!(!h.all_home(p));
        assert_eq!(h.highest_occupied(p), 24);
    }
    assert!(!Board::empty().is_valid());
}

#[test]
fn owner_count_and_open_points() {
    let mut b = Board::empty();
    b.place(Player::Black, 5, 3);
    let cell = phys(Player::Black, 5);
    assert_eq!(b.owner(cell), Some(Player::Black));
    assert_eq!(b.count(cell), 3);
    assert_eq!(b.owner(phys(Player::Black, 6)), None);
    // White's path position on that cell is blocked, Black's is not.
    let wpos = pos_of_phys(Player::White, cell);
    assert_eq!(b.opp_at(Player::White, wpos), 3);
    assert!(!b.is_open_for(Player::White, wpos));
    assert!(b.is_open_for(Player::Black, 5));
    assert_eq!(b.highest_occupied(Player::Black), 5);
    assert!(b.all_home(Player::Black));
    assert_eq!(b.pip(Player::Black), 15);
    b.place_phys(Player::White, 7, 2);
    assert_eq!(b.owner(7), Some(Player::White));
    assert_eq!(b.count(7), 2);
}
