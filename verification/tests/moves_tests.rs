use engine_core::board::{phys, Board, HEAD_POS, N_CHECKERS};
use engine_core::moves::{creates_illegal_prime, generate_turns, generate_turns_cfg, Turn};
use engine_core::player::Player;

fn turns(board: &Board, p: Player, dice: [u8; 2], first: bool) -> Vec<Turn> {
    generate_turns(board, p, dice, first)
}

#[test]
fn head_rule_limits_to_one_checker_off_head() {
    let b = Board::starting();
    let ts = turns(&b, Player::White, [3, 1], false);
    assert_eq!(ts.len(), 1, "exactly one distinct legal play");
    let t = &ts[0];
    assert_eq!(t.board.own_at(Player::White, HEAD_POS), N_CHECKERS - 1);
    assert_eq!(t.board.own_at(Player::White, 20), 1);
    assert_eq!(t.moves.len(), 2);
    assert_eq!(t.moves[0].from, HEAD_POS);
    assert_ne!(t.moves[1].from, HEAD_POS);
}

#[test]
fn first_turn_double_six_takes_two_off_head() {
    let b = Board::starting();
    let ts = turns(&b, Player::White, [6, 6], true);
    assert_eq!(ts.len(), 1);
    let t = &ts[0];
    assert_eq!(t.board.own_at(Player::White, 18), 2);
    assert_eq!(t.board.own_at(Player::White, HEAD_POS), N_CHECKERS - 2);
    assert_eq!(t.moves.len(), 2);
}

#[test]
fn first_turn_double_three_forces_two_off_head_all_four_played() {
    let b = Board::starting();
    let ts = turns(&b, Player::White, [3, 3], true);
    assert_eq!(ts.len(), 2);
    for t in &ts {
        assert_eq!(t.moves.len(), 4, "all four threes must be used");
        assert_eq!(
            t.board.own_at(Player::White, HEAD_POS),
            N_CHECKERS - 2,
            "exactly two checkers leave the head"
        );
    }
    assert!(ts.iter().any(|t| t.board.own_at(Player::White, 18) == 2));
}

#[test]
fn first_turn_double_four_lands_two_on_16() {
    let b = Board::starting();
    let ts = turns(&b, Player::White, [4, 4], true);
    assert_eq!(ts.len(), 1);
    assert_eq!(ts[0].board.own_at(Player::White, 16), 2);
    assert_eq!(ts[0].moves.len(), 4);
}

#[test]
fn non_first_turn_double_six_keeps_head_rule() {
    let b = Board::starting();
    let ts = turns(&b, Player::White, [6, 6], false);
    assert_eq!(ts.len(), 1);
    let t = &ts[0];
    assert_eq!(t.board.own_at(Player::White, 18), 1);
    assert_eq!(t.board.own_at(Player::White, HEAD_POS), N_CHECKERS - 1);
    assert_eq!(t.moves.len(), 1);
}

#[test]
fn no_hitting_blocks_landing_and_can_force_a_pass() {
    let mut b = Board::empty();
    b.place(Player::White, HEAD_POS, 1);
    b.place_phys(Player::Black, phys(Player::White, 21), 1);
    let ts = turns(&b, Player::White, [3, 3], false);
    assert_eq!(ts.len(), 1);
    assert!(ts[0].is_pass());
    assert_eq!(ts[0].board.own_at(Player::White, HEAD_POS), 1);
}

#[test]
fn larger_die_must_be_played_when_only_one_fits() {
    let mut b = Board::empty();
    b.place(Player::White, 13, 1);
    b.place_phys(Player::Black, phys(Player::White, 6), 1);
    let ts = turns(&b, Player::White, [6, 1], false);
    assert_eq!(ts.len(), 1);
    let t = &ts[0];
    assert_eq!(t.moves.len(), 1);
    assert_eq!(t.moves[0].die, 6);
    assert_eq!(t.board.own_at(Player::White, 7), 1);
    assert_eq!(t.board.own_at(Player::White, 13), 0);
}

#[test]
fn bear_off_exact_and_move_within() {
    let mut b = Board::empty();
    b.place(Player::White, 6, 15);
    let ts = turns(&b, Player::White, [6, 5], false);
    assert_eq!(ts.len(), 1);
    let t = &ts[0];
    assert_eq!(t.board.off[Player::White.index()], 1);
    assert_eq!(t.board.own_at(Player::White, 6), 13);
    assert_eq!(t.board.own_at(Player::White, 1), 1);
}

#[test]
fn bear_off_overshoot_from_highest_only() {
    let mut b = Board::empty();
    b.place(Player::White, 3, 2);
    let ts = turns(&b, Player::White, [5, 5], false);
    assert_eq!(ts.len(), 1);
    assert_eq!(ts[0].board.off[Player::White.index()], 2);
    assert_eq!(ts[0].board.checkers_on_board(Player::White), 0);
}

#[test]
fn double_forces_move_within_then_bears_off() {
    let mut b = Board::empty();
    b.place(Player::White, 6, 2);
    let ts = turns(&b, Player::White, [3, 3], false);
    assert_eq!(ts.len(), 1);
    assert_eq!(ts[0].board.off[Player::White.index()], 2);
    assert_eq!(ts[0].board.checkers_on_board(Player::White), 0);
    assert_eq!(ts[0].moves.len(), 4);
}

#[test]
fn cannot_bear_off_while_a_checker_is_stuck_outside_home() {
    let mut b = Board::empty();
    b.place(Player::White, 6, 14);
    b.place(Player::White, 20, 1);
    let ts = turns(&b, Player::White, [3, 1], false);
    assert!(!ts.is_empty());
    for t in &ts {
        assert_eq!(t.board.off[Player::White.index()], 0);
    }
}

#[test]
fn bringing_last_checker_home_enables_bear_off_same_turn() {
    let mut b = Board::empty();
    b.place(Player::White, 6, 14);
    b.place(Player::White, 8, 1);
    let ts = turns(&b, Player::White, [6, 2], false);
    assert!(ts.iter().any(|t| t.board.off[Player::White.index()] == 1));
}

#[test]
fn full_prime_is_illegal_unless_opponent_is_ahead() {
    let mut b = Board::empty();
    for q in 7..=12u8 {
        b.place_phys(Player::White, phys(Player::Black, q), 1);
    }
    b.place(Player::Black, HEAD_POS, 15);
    assert!(creates_illegal_prime(&b, Player::White));

    b.place(Player::Black, HEAD_POS, 14);
    b.place(Player::Black, 5, 1);
    assert!(!creates_illegal_prime(&b, Player::White));
}

#[test]
fn checkers_are_conserved_across_a_turn() {
    let b = Board::starting();
    for t in turns(&b, Player::White, [5, 2], false) {
        let total = t.board.checkers_on_board(Player::White) + t.board.off[Player::White.index()];
        assert_eq!(total, N_CHECKERS);
    }
}

#[test]
fn first_turn_exception_does_not_force_second_head_checker_when_unneeded() {
    let mut b = Board::empty();
    b.place(Player::White, HEAD_POS, 2);
    let ts = turns(&b, Player::White, [3, 3], true);
    assert_eq!(ts.len(), 1, "only the single-head-checker line is legal");
    let t = &ts[0];
    assert_eq!(t.board.own_at(Player::White, HEAD_POS), 1, "one checker stays on head");
    assert_eq!(t.board.own_at(Player::White, 12), 1, "the other chained to pos 12");
    assert_eq!(t.moves.len(), 4);
}

#[test]
fn first_turn_exception_skipped_for_black_4_4_when_unneeded() {
    let mut b = Board::empty();
    b.place(Player::Black, HEAD_POS, 2);
    let ts = turns(&b, Player::Black, [4, 4], true);
    assert_eq!(ts.len(), 1);
    assert_eq!(ts[0].board.own_at(Player::Black, HEAD_POS), 1);
    assert_eq!(ts[0].board.own_at(Player::Black, 8), 1);
}

#[test]
fn unlimited_head_lets_many_checkers_leave_the_head() {
    let b = Board::starting();
    let ts = generate_turns_cfg(&b, Player::White, [1, 1], false, None);
    assert!(ts.iter().any(|t| t.board.own_at(Player::White, 23) == 4));
    let std = generate_turns_cfg(&b, Player::White, [1, 1], false, Some(1));
    assert!(std.iter().all(|t| t.board.own_at(Player::White, HEAD_POS) >= N_CHECKERS - 1));
}

#[test]
fn every_turn_lowers_pips_by_the_distance_travelled() {
    let b = Board::starting();
    for dice in [[6u8, 5u8], [2, 2], [4, 1]] {
        for t in turns(&b, Player::White, dice, false) {
            let travelled: u16 = t.moves.iter().map(|m| (m.from - m.to) as u16).sum();
            assert_eq!(t.board.pip(Player::White), b.pip(Player::White) - travelled);
            assert_eq!(t.board.pip(Player::Black), b.pip(Player::Black));
        }
    }
}

#[test]
fn distinct_turns_have_distinct_positions() {
    let mut b = Board::empty();
    b.place(Player::White, 24, 10);
    b.place(Player::White, 13, 3);
    b.place(Player::White, 8, 2);
    b.place(Player::Black, 24, 15);
    let ts = turns(&b, Player::White, [5, 3], false);
    assert!(ts.len() > 3);
    for i in 0..ts.len() {
        for j in (i + 1)..ts.len() {
            assert_ne!(ts[i].board, ts[j].board);
        }
    }
}
