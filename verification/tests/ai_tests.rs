use engine_core::ai::{best_turn, best_turn_for, evaluate_halves};
use engine_core::board::{Board, HEAD_POS, N_CHECKERS};
use engine_core::game::{GameState, Outcome, Rules};
use engine_core::moves::{generate_turns, generate_turns_cfg};
use engine_core::player::Player;

#[test]
fn picks_a_legal_turn_from_the_start() {
    let b = Board::starting();
    let t = best_turn_for(&b, Player::White, [6, 5], true).unwrap();
    let total = t.board.checkers_on_board(Player::White) + t.board.off[Player::White.index()];
    assert_eq!(total, N_CHECKERS);
}

#[test]
fn prefers_bearing_off_when_possible() {
    let mut b = Board::empty();
    b.place(Player::White, 6, 15);
    let t = best_turn_for(&b, Player::White, [6, 6], false).unwrap();
    assert_eq!(t.board.off[Player::White.index()], 4);
}

#[test]
fn winning_position_dominates() {
    let mut b = Board::empty();
    b.off[Player::White.index()] = 15;
    // Black bore off nothing: a mars, worth 1_000_002 points = 2_000_004 half points
    assert_eq!(evaluate_halves(&b, Player::White), 2_000_004);
    assert_eq!(evaluate_halves(&b, Player::Black), -2_000_004);
}

#[test]
fn being_ahead_in_the_race_scores_higher() {
    let mut b = Board::starting();
    b.place(Player::White, HEAD_POS, 14);
    b.place(Player::White, 2, 1);
    assert!(evaluate_halves(&b, Player::White) > 0);
    // race lead of 22 pips = 44 half points; White's two cells sit in front of
    // Black's rear (Black positions 12 and 14: 2 + 3 for a run of one), Black's
    // head sits in front of White's rear (White position 12: 1 + 3)
    assert_eq!(evaluate_halves(&b, Player::White), 44 + (2 + 3) - (1 + 3));
}

struct Rng(u64);
impl Rng {
    fn next_u64(&mut self) -> u64 {
        let mut x = self.0;
        x ^= x << 13;
        x ^= x >> 7;
        x ^= x << 17;
        self.0 = x;
        x
    }
    fn die(&mut self) -> u8 {
        (self.next_u64() % 6) as u8 + 1
    }
}

fn play_one(seed: u64) -> (Outcome, u32) {
    let mut rng = Rng(seed);
    let mut game = GameState::new(Rules::default());

    for _ in 0..2000 {
        if game.is_over() {
            break;
        }
        game.set_dice(rng.die(), rng.die());
        let turn = best_turn(&game).expect("generation always yields at least a pass");

        let mover = game.turn;
        let before = game.board.checkers_on_board(mover) + game.board.off[mover.index()];
        assert_eq!(before, N_CHECKERS);

        game.apply_turn(&turn);

        let after = turn.board.checkers_on_board(mover) + turn.board.off[mover.index()];
        assert_eq!(after, N_CHECKERS, "checkers conserved for {mover:?}");
    }

    (game.outcome(), game.turn_number)
}

#[test]
fn self_play_games_terminate_with_a_winner() {
    let mut total_turns = 0u32;
    let mut whites = 0;
    let mut blacks = 0;
    let mut marses = 0;
    let games: u64 = 50;

    for seed in 1..=games {
        let (outcome, turns) = play_one(seed.wrapping_mul(0x9E3779B97F4A7C15));
        match outcome {
            Outcome::Win { winner, mars, points } => {
                assert!(points == 1 || points == 2);
                match winner {
                    Player::White => whites += 1,
                    Player::Black => blacks += 1,
                }
                if mars {
                    marses += 1;
                }
                total_turns += turns;
            }
            Outcome::Draw => total_turns += turns,
            Outcome::Ongoing => panic!("game {seed} did not finish"),
        }
    }

    assert!(whites > 0 && blacks > 0, "one side never won (W:{whites} B:{blacks})");
    let avg = total_turns as f32 / games as f32;
    assert!(
        (10.0..200.0).contains(&avg),
        "implausible average game length: {avg}"
    );
    println!("self-play: {games} games, avg {avg:.1} turns, W:{whites} B:{blacks}, mars:{marses}");
}

/// The first of the generated turns whose board scores highest.
fn first_best_index(turns: &[engine_core::moves::Turn], p: Player) -> usize {
    let mut best = 0;
    for i in 1..turns.len() {
        if evaluate_halves(&turns[i].board, p) > evaluate_halves(&turns[best].board, p) {
            best = i;
        }
    }
    best
}

#[test]
fn ties_go_to_the_first_generated_turn() {
    let mut b = Board::empty();
    b.place(Player::White, 6, 5);
    b.place(Player::White, 5, 5);
    b.place(Player::White, 4, 5);
    b.place(Player::Black, 24, 15);
    for dice in [[6, 5], [2, 1], [4, 4], [3, 1]] {
        let turns = generate_turns(&b, Player::White, dice, false);
        let i = first_best_index(&turns, Player::White);
        assert_eq!(best_turn_for(&b, Player::White, dice, false), Some(turns[i].clone()));
    }
    let start = Board::starting();
    let turns = generate_turns(&start, Player::White, [6, 5], true);
    let i = first_best_index(&turns, Player::White);
    assert_eq!(best_turn_for(&start, Player::White, [6, 5], true), Some(turns[i].clone()));
}

#[test]
fn legal_turns_are_the_generated_list() {
    let mut g = GameState::new(Rules::money_game());
    assert!(g.legal_turns().is_empty());
    g.set_dice(6, 6);
    assert_eq!(g.legal_turns(), generate_turns_cfg(&g.board, Player::White, [6, 6], true, Some(1)));
    let t = best_turn(&g).unwrap();
    let turns = g.legal_turns();
    assert_eq!(t, turns[first_best_index(&turns, Player::White)]);
}

#[test]
fn well_formed_boards_hold_at_most_127_per_side() {
    assert!(Board::starting().is_wf());
    assert!(Board::empty().is_wf());
    let mut b = Board::empty();
    for pos in 1..=9u8 {
        b.place(Player::White, pos, 15);
    }
    assert!(!b.is_wf());
    let mut b = Board::empty();
    b.points[5] = i8::MIN;
    assert!(!b.is_wf());
    let mut b = Board::starting();
    b.off = [113, 0];
    assert!(!b.is_wf());
    b.off = [112, 0];
    assert!(b.is_wf());
}
