use engine_core::board::{Board, N_CHECKERS};
use engine_core::cube::{Cube, CubeError, MAX_CUBE};
use engine_core::game::{outcome, GameState, Outcome, Rules, Variant};
use engine_core::matchplay::{MatchState, MoneyGame, STANDARD_MATCH_LENGTHS};
use engine_core::phase::has_contact;
use engine_core::player::Player;

#[test]
fn centered_cube_either_side_may_double() {
    let c = Cube::centered();
    assert!(c.may_double(Player::White));
    assert!(c.may_double(Player::Black));
}

#[test]
fn doubling_transfers_ownership_to_opponent() {
    let mut c = Cube::centered();
    c.double(Player::White).unwrap();
    assert_eq!(c.value, 2);
    assert_eq!(c.owner, Some(Player::Black));
    assert!(c.turned);
    assert!(!c.may_double(Player::White));
    assert!(c.may_double(Player::Black));
}

#[test]
fn beaver_keeps_ownership_with_the_taker() {
    let mut c = Cube::centered();
    c.double(Player::White).unwrap();
    c.beaver(Player::Black).unwrap();
    assert_eq!(c.value, 4);
    assert_eq!(c.owner, Some(Player::Black));
}

#[test]
fn cube_caps_at_maximum() {
    let mut c = Cube {
        value: MAX_CUBE,
        owner: None,
        turned: true,
    };
    assert!(!c.may_double(Player::White));
    assert_eq!(c.double(Player::White), Err(CubeError::AtMaximum));
}

#[test]
fn doubling_an_opponents_cube_is_refused() {
    let mut c = Cube::centered();
    c.double(Player::White).unwrap();
    assert_eq!(c.double(Player::White), Err(CubeError::NotAvailable));
    assert_eq!(c.value, 2);
    let mut c = Cube::default();
    for _ in 0..6 {
        c.double(Player::White).unwrap();
        c.owner = None;
    }
    assert_eq!(c.value, 64);
    assert_eq!(c.beaver(Player::Black), Err(CubeError::AtMaximum));
}

#[test]
fn ongoing_at_start() {
    let g = GameState::new(Rules::default());
    assert_eq!(g.outcome(), Outcome::Ongoing);
    assert!(g.is_first_turn());
}

#[test]
fn single_win_scores_one() {
    let mut b = Board::empty();
    b.off[Player::White.index()] = N_CHECKERS;
    b.off[Player::Black.index()] = 5;
    assert_eq!(
        outcome(&b),
        Outcome::Win {
            winner: Player::White,
            mars: false,
            points: 1
        }
    );
}

#[test]
fn mars_scores_two() {
    let mut b = Board::empty();
    b.off[Player::White.index()] = N_CHECKERS;
    b.off[Player::Black.index()] = 0;
    assert_eq!(
        outcome(&b),
        Outcome::Win {
            winner: Player::White,
            mars: true,
            points: 2
        }
    );
}

#[test]
fn black_win_is_read_off_the_board() {
    let mut b = Board::empty();
    b.off = [3, N_CHECKERS];
    assert_eq!(
        outcome(&b),
        Outcome::Win {
            winner: Player::Black,
            mars: false,
            points: 1
        }
    );
}

#[test]
fn applying_a_turn_flips_side_and_marks_first_turn() {
    let mut g = GameState::new(Rules::default());
    g.set_dice(3, 1);
    let turns = g.legal_turns();
    assert!(!turns.is_empty());
    g.apply_turn(&turns[0]);
    assert_eq!(g.turn, Player::Black);
    assert!(g.first_turn_done[Player::White.index()]);
    assert_eq!(g.dice, None);
    assert_eq!(g.turn_number, 1);
}

#[test]
fn hachapuri_game_starts_valid_with_unlimited_head() {
    let g = GameState::new(Rules::for_variant(Variant::Hachapuri));
    assert!(g.board.is_valid());
    assert_eq!(g.board.own_at(Player::White, N_CHECKERS - 11), 0);
    assert_eq!(g.board.own_at(Player::White, 24), 4);
    assert_eq!(g.board.own_at(Player::White, 6), 11);
    assert_eq!(g.rules.head_limit, None);
}

#[test]
fn cube_is_gated_by_rules_and_crawford() {
    let mut t = GameState::new(Rules::default());
    assert!(!t.can_double(Player::White));
    assert!(t.double(Player::White).is_err());

    let mut m = GameState::new(Rules::money_game());
    assert!(m.can_double(Player::White));
    m.double(Player::White).unwrap();
    assert_eq!(m.cube.value, 2);
    assert_eq!(m.cube.owner, Some(Player::Black));
    assert!(!m.can_double(Player::White));

    let mut c = GameState::new(Rules::money_game());
    c.crawford = true;
    assert!(!c.can_double(Player::White));
    assert_eq!(c.beaver(Player::Black), Err(CubeError::NotAvailable));
}

#[test]
fn variant_rules_and_no_dice_means_no_turns() {
    let r = Rules::for_variant(Variant::Classic);
    assert!(r.allow_final_draw && !r.cube_enabled);
    let n = Rules::for_variant(Variant::Nardegammon);
    assert!(n.cube_enabled && !n.jacoby);
    let m = Rules::money_game();
    assert!(m.cube_enabled && m.jacoby && m.beaver && m.variant == Variant::Traditional);
    let g = GameState::new(Rules::default());
    assert!(g.legal_turns().is_empty());
    assert!(!g.is_over());
}

#[test]
fn away_and_over() {
    let mut m = MatchState::new(7);
    assert_eq!(m.away(Player::White), 7);
    m.score[Player::White.index()] = 7;
    assert!(m.is_over());
}

#[test]
fn crawford_game_disables_the_cube_then_post_crawford_re_enables_it() {
    let mut m = MatchState::new(7);
    m.record(Player::White, 6);
    assert_eq!(m.away(Player::White), 1);
    assert!(m.is_crawford_game());
    assert!(!m.cube_allowed());

    m.record(Player::Black, 2);
    assert!(m.crawford_played);
    assert!(!m.is_crawford_game());
    assert!(m.cube_allowed());
}

#[test]
fn no_crawford_until_someone_is_one_away() {
    let mut m = MatchState::new(11);
    m.record(Player::White, 2);
    assert!(!m.is_crawford_game());
    assert!(m.cube_allowed());
}

#[test]
fn away_saturates_and_money_defaults() {
    let mut m = MatchState::new(5);
    m.record(Player::Black, 9);
    assert_eq!(m.away(Player::Black), 0);
    assert!(m.is_over());
    assert!(!m.someone_is_one_away());
    let mg = MoneyGame::default();
    assert!(mg.jacoby && mg.beaver);
    assert_eq!(STANDARD_MATCH_LENGTHS, [7, 9, 11, 13, 15, 17]);
}

#[test]
fn start_has_contact_and_disengaged_race_does_not() {
    assert!(has_contact(&Board::starting()));

    let mut race = Board::empty();
    race.place(Player::White, 8, 15);
    race.place(Player::Black, 8, 15);
    assert!(!has_contact(&race));
}
