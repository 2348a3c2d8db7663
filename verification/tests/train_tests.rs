use engine_core::bearoff::{board_of, enumerate, pip, state_of, State};
use engine_core::board::Board;
use engine_core::features::max_block;
use engine_core::game::Outcome;
use engine_core::phase::has_contact;
use engine_core::player::Player;
use engine_core::moves::Turn;
use engine_core::train::{benchmark, phase_of, play_game, Phase, Policy, RandomPolicy, Rng};
use std::cell::RefCell;

#[test]
fn phase_classification() {
    // The starting position: full head stacks, paths interleaved → the
    // mover is in the head-unload phase and contact exists.
    let start = Board::starting();
    assert!(has_contact(&start));
    assert_eq!(phase_of(&start, Player::White), Phase::Head);

    // A disengaged running game: each side still outside its home but with
    // no opponent checker ahead on its remaining path → pure race.
    let mut race = Board::empty();
    race.place(Player::White, 8, 15);
    race.place(Player::Black, 8, 15);
    assert!(!has_contact(&race));
    assert!(!race.all_home(Player::White));
    assert_eq!(phase_of(&race, Player::White), Phase::Race);
    assert_eq!(phase_of(&race, Player::Black), Phase::Race);

    // Everything home on both sides → bear-off, whoever is on roll.
    let mut bo = Board::empty();
    bo.place(Player::White, 3, 15);
    bo.place(Player::Black, 3, 15);
    assert_eq!(phase_of(&bo, Player::White), Phase::Bearoff);
    assert_eq!(phase_of(&bo, Player::Black), Phase::Bearoff);
}

#[test]
fn phase_contact_when_head_is_unloaded() {
    let mut b = Board::starting();
    b.place(Player::White, 24, 7);
    b.place(Player::White, 13, 8);
    assert_eq!(phase_of(&b, Player::White), Phase::Contact);
    assert_eq!(phase_of(&b, Player::Black), Phase::Head);
}

#[test]
fn phase_names() {
    assert_eq!(Phase::Head.name(), "head");
    assert_eq!(Phase::Contact.name(), "contact");
    assert_eq!(Phase::Race.name(), "race");
    assert_eq!(Phase::Bearoff.name(), "bearoff");
}

#[test]
fn rng_is_xorshift_from_an_odd_seed() {
    let mut a = Rng::new(10);
    let mut b = Rng::new(11);
    // 10 | 1 == 11: the same state, the same stream.
    for _ in 0..20 {
        assert_eq!(a.next_u64(), b.next_u64());
    }
    // One xorshift64 step of the state 1.
    let mut r = Rng::new(0);
    let x: u64 = 1;
    let x = x ^ (x << 13);
    let x = x ^ (x >> 7);
    let x = x ^ (x << 17);
    assert_eq!(r.next_u64(), x);
}

#[test]
fn dice_are_in_range_and_follow_the_stream() {
    let mut r = Rng::new(12345);
    let mut twin = Rng::new(12345);
    for _ in 0..200 {
        let d = r.dice();
        assert!((1..=6).contains(&d[0]) && (1..=6).contains(&d[1]));
        let a = (twin.next_u64() % 6) as u8 + 1;
        let b = (twin.next_u64() % 6) as u8 + 1;
        assert_eq!(d, [a, b]);
    }
}

#[test]
fn random_games_end_with_a_scored_winner() {
    for seed in 0..5u64 {
        let mut rng = Rng::new(seed);
        let o = play_game(&RandomPolicy, &RandomPolicy, &mut rng);
        match o {
            Outcome::Win { mars, points, .. } => assert_eq!(points, if mars { 2 } else { 1 }),
            other => panic!("game {seed} did not finish: {other:?}"),
        }
    }
}

#[test]
fn benchmark_tallies_every_game() {
    let r = benchmark(&RandomPolicy, &RandomPolicy, 6, 3);
    assert_eq!(r.games, 6);
    assert!(r.wins <= 6);
    assert!(r.points.abs() <= 12);
    // Every game finishes, so the points have the parity of the decided games.
    let again = benchmark(&RandomPolicy, &RandomPolicy, 6, 3);
    assert_eq!((again.wins, again.points), (r.wins, r.points));
}

#[test]
fn head_run_is_not_one_cyclic_block() {
    // White on own 1, 2 and 24 (head): in Black's frame those are 13, 14
    // and 12 — positions 12..14 ARE consecutive integers, so they DO form
    // one linear run of 3 in the enemy frame. Sanity-check the mapping.
    let mut b = Board::empty();
    b.place(Player::White, 1, 1);
    b.place(Player::White, 2, 1);
    b.place(Player::White, 24, 1);
    let (len, hi) = max_block(&b, Player::White);
    assert_eq!((len, hi), (3, 14));

    // But a run "around the end" of Black's path cannot exist: White on
    // own 13 and 14 sits at Black-frame 1 and 2; White on own 11, 12 at
    // Black-frame 23, 24. Together: runs of 2 and 2, never 4.
    let mut b2 = Board::empty();
    for pos in [11u8, 12, 13, 14] {
        b2.place(Player::White, pos, 1);
    }
    let (len2, _) = max_block(&b2, Player::White);
    assert_eq!(len2, 2);
}

#[test]
fn six_prime_block_geometry() {
    let mut b = Board::empty();
    for pos in 1..=6u8 {
        b.place(Player::White, pos, 2);
    }
    b.place(Player::White, 10, 3);
    b.place(Player::Black, 24, 10);
    b.place(Player::Black, 20, 5);
    assert_eq!(max_block(&b, Player::White), (6, 18));
    assert_eq!(max_block(&b, Player::Black).0, 1);
    assert_eq!(max_block(&Board::empty(), Player::White), (0, 0));
}

#[test]
fn home_states_round_trip_through_boards() {
    let s: State = [1, 0, 3, 0, 2, 4];
    let b = board_of(&s);
    assert_eq!(state_of(&b, Player::White), s);
    assert_eq!(b.own_at(Player::White, 3), 3);
    assert_eq!(pip(&s), 1 + 9 + 10 + 24);
    assert_eq!(state_of(&Board::starting(), Player::Black), [0; 6]);
}

#[test]
fn enumeration_lists_every_state_once_in_order() {
    let mut out = Vec::new();
    let mut cur = [0u8; 6];
    enumerate(0, 3, &mut cur, &mut out);
    // States with at most 3 checkers over 6 points: C(9, 6) = 84.
    assert_eq!(out.len(), 84);
    assert_eq!(cur, [0; 6]);
    assert_eq!(out[0], [0; 6]);
    assert_eq!(out[1], [0, 0, 0, 0, 0, 1]);
    assert_eq!(*out.last().unwrap(), [3, 0, 0, 0, 0, 0]);
    assert!(out.iter().all(|s| s.iter().map(|&c| c as u32).sum::<u32>() <= 3));
    for i in 1..out.len() {
        assert!(out[i - 1] < out[i], "lexicographic and distinct");
    }
}

/// Plays like `RandomPolicy` and records every roll it is handed, with the
/// side it was asked to move.
struct Recorder {
    rolls: RefCell<Vec<[u8; 2]>>,
    sides: RefCell<Vec<Player>>,
}

fn recorder() -> Recorder {
    Recorder { rolls: RefCell::new(Vec::new()), sides: RefCell::new(Vec::new()) }
}

impl Policy for Recorder {
    fn choose_turn(&self, board: &Board, mover: Player, dice: [u8; 2], first: bool, rng: &mut Rng) -> Turn {
        self.rolls.borrow_mut().push(dice);
        self.sides.borrow_mut().push(mover);
        RandomPolicy.choose_turn(board, mover, dice, first, rng)
    }
}

#[test]
fn the_opening_roll_is_the_generators_next_roll() {
    for seed in [1u64, 7, 42, 2024, 0xDEAD_BEEF] {
        let white = recorder();
        let black = recorder();
        let mut rng = Rng::new(seed);
        let expected = Rng::new(seed).dice();
        play_game(&white, &black, &mut rng);
        assert_eq!(white.rolls.borrow()[0], expected);
    }
}

#[test]
fn benchmark_games_open_with_their_own_seed() {
    // Game `g` runs on the seed `(seed + g) * 0x2545F4914F6CDD1D` (wrapping):
    // with `a` as White in even games, its first roll is that seed's.
    let a = recorder();
    let b = RandomPolicy;
    let seed = 99u64;
    benchmark(&a, &b, 1, seed);
    let s = seed.wrapping_add(0).wrapping_mul(0x2545F491_4F6CDD1D);
    assert_eq!(a.rolls.borrow()[0], Rng::new(s).dice());
}

#[test]
fn every_ply_rolls_from_the_generator_and_asks_the_side_to_move() {
    let white = recorder();
    let black = recorder();
    let mut rng = Rng::new(31337);
    play_game(&white, &black, &mut rng);
    let w = white.rolls.borrow();
    let b = black.rolls.borrow();
    assert!(white.sides.borrow().iter().all(|&p| p == Player::White));
    assert!(black.sides.borrow().iter().all(|&p| p == Player::Black));
    // White moves on even plies, Black on odd ones; each ply rolls two dice
    // and the random policy then draws once more.
    let mut replay = Rng::new(31337);
    for ply in 0..(w.len() + b.len()) {
        let expected = replay.dice();
        replay.next_u64();
        let got = if ply % 2 == 0 { w[ply / 2] } else { b[ply / 2] };
        assert_eq!(got, expected);
    }
}

#[test]
fn benchmark_alternates_colours() {
    let a = recorder();
    let b = recorder();
    let seed = 5u64;
    benchmark(&a, &b, 2, seed);
    // Game 1 has `b` as White: its first White roll is game 1's opening roll.
    let sides = b.sides.borrow();
    let i = sides.iter().position(|&p| p == Player::White).unwrap();
    let s1 = seed.wrapping_add(1).wrapping_mul(0x2545F491_4F6CDD1D);
    assert_eq!(b.rolls.borrow()[i], Rng::new(s1).dice());
    assert_eq!(a.sides.borrow()[0], Player::White);
}
