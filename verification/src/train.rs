//! Self-play plumbing for training and benchmarking: a small deterministic
//! xorshift generator for the dice, the phase classification used to
//! stratify positions, move-choosing policies, and the game/benchmark loops.
use vstd::prelude::*;
use crate::board::{Board, BoardView};
use crate::game::{outcome, outcome_spec, Outcome};
use crate::moves::{generate_turns_cfg, generated, turn_view, turns_view, head_budget_spec, lemma_turn_conserves, turn_spec, turns_spec,
    CheckerMove, Turn};
use crate::phase::{contact_spec, has_contact};
use crate::player::Player;

verus! {

/// Safety cap on the length of one game in plies.
pub const MAX_PLIES: usize = 1000;

// ---------------------------------------------------------------------------
// Random numbers
// ---------------------------------------------------------------------------

/// One xorshift64 step (shifts 13, 7, 17).
pub open spec fn xorshift(x: u64) -> u64 {
    let a = x ^ (x << 13u64);
    let b = a ^ (a >> 7u64);
    b ^ (b << 17u64)
}

/// A die read off a generator output: `1..=6`.
pub open spec fn die_of(x: u64) -> u8 {
    ((x % 6) + 1) as u8
}

/// Small, fast deterministic PRNG (xorshift64).
pub struct Rng(u64);

impl View for Rng {
    type V = u64;

    /// The generator's internal state.
    closed spec fn view(&self) -> u64 {
        self.0
    }
}

impl Rng {
    /// A generator seeded with `seed`, forced odd so the state is never zero.
    pub fn new(seed: u64) -> (r: Self)
        ensures
            r@ == seed | 1u64,
    {
        Rng(seed | 1)
    }

    /// Advance the state by one xorshift step and return the new state.
    pub fn next_u64(&mut self) -> (r: u64)
        ensures
            r == xorshift(old(self)@),
            final(self)@ == r,
    {
        let mut x = self.0;
        x ^= x << 13u64;
        x ^= x >> 7u64;
        x ^= x << 17u64;
        self.0 = x;
        x
    }

    /// A die roll `1..=6` from the next output.
    pub fn die(&mut self) -> (d: u8)
        ensures
            d == die_of(xorshift(old(self)@)),
            1 <= d <= 6,
            final(self)@ == xorshift(old(self)@),
    {
        let x = self.next_u64();
        let m = x % 6;
        (m as u8) + 1
    }

    /// Two dice from the next two outputs.
    pub fn dice(&mut self) -> (d: [u8; 2])
        ensures
            d[0] == die_of(xorshift(old(self)@)),
            d[1] == die_of(xorshift(xorshift(old(self)@))),
            1 <= d[0] <= 6,
            1 <= d[1] <= 6,
            final(self)@ == xorshift(xorshift(old(self)@)),
    {
        let a = self.die();
        let b = self.die();
        [a, b]
    }
}

/// An xorshift step never maps a non-zero state to zero, so a generator
/// started from an odd seed can never get stuck at the all-zero state.
pub proof fn lemma_xorshift_nonzero(x: u64)
    requires
        x != 0,
    ensures
        xorshift(x) != 0,
{
    let a = x ^ (x << 13u64);
    assert(x != 0 ==> x ^ (x << 13u64) != 0) by (bit_vector);
    let b = a ^ (a >> 7u64);
    assert(a != 0 ==> a ^ (a >> 7u64) != 0) by (bit_vector);
    assert(b != 0 ==> b ^ (b << 17u64) != 0) by (bit_vector);
}

// ---------------------------------------------------------------------------
// Phase classification
// ---------------------------------------------------------------------------

/// Game phase of a decision, for stratifying datasets and error reports.
#[derive(Clone, Copy, Debug, PartialEq, Eq, Hash, Structural)]
pub enum Phase {
    /// Early game: the mover still has a big head stack to unload.
    Head,
    /// The sides still interact; blocking play is possible.
    Contact,
    /// Paths fully disengaged but not all checkers home yet (running game).
    Race,
    /// Both sides have every checker in the home board (bear-off race).
    Bearoff,
}

/// Lower-case name of each phase.
pub open spec fn phase_name(p: Phase) -> Seq<char> {
    match p {
        Phase::Head => "head"@,
        Phase::Contact => "contact"@,
        Phase::Race => "race"@,
        Phase::Bearoff => "bearoff"@,
    }
}

impl Phase {
    pub fn name(self) -> (r: &'static str)
        ensures
            r@ == phase_name(self),
    {
        match self {
            Phase::Head => "head",
            Phase::Contact => "contact",
            Phase::Race => "race",
            Phase::Bearoff => "bearoff",
        }
    }
}

/// Classification with priority bear-off > race > head > contact; `Head`
/// means the mover still has 8 or more checkers on the head (own 24).
pub open spec fn phase_spec(b: BoardView, mover: Player) -> Phase {
    if b.all_home_spec(Player::White) && b.all_home_spec(Player::Black) {
        Phase::Bearoff
    } else if !(contact_spec(b, Player::White) || contact_spec(b, Player::Black)) {
        Phase::Race
    } else if b.own(mover, 24) >= 8 {
        Phase::Head
    } else {
        Phase::Contact
    }
}

/// Classify a decision position.
pub fn phase_of(board: &Board, mover: Player) -> (r: Phase)
    requires
        board@.readable_for(Player::Black),
    ensures
        r == phase_spec(board@, mover),
{
    if board.all_home(Player::White) && board.all_home(Player::Black) {
        Phase::Bearoff
    } else if !has_contact(board) {
        Phase::Race
    } else if board.own_at(mover, 24) >= 8 {
        Phase::Head
    } else {
        Phase::Contact
    }
}

// ---------------------------------------------------------------------------
// Policies and games
// ---------------------------------------------------------------------------

/// A move-choosing policy for benchmark games: given a well-formed board and
/// a roll, it answers with one of the legal turns under the standard head
/// rule. Each policy says in [`Policy::chooses`] which answers it gives and
/// what it does to the generator it is handed.
pub trait Policy {
    /// The policy may answer `t` (the sub-moves and the resulting board) to
    /// `board`, `mover`, `dice` and `first`, taking the generator from state
    /// `x` to state `y`. A policy that says nothing more may give any legal
    /// answer and leave the generator in any state.
    open spec fn chooses(&self, board: BoardView, mover: Player, dice: [u8; 2], first: bool, x: u64,
        t: (Seq<CheckerMove>, BoardView), y: u64) -> bool {
        true
    }

    fn choose_turn(&self, board: &Board, mover: Player, dice: [u8; 2], first: bool, rng: &mut Rng) -> (t: Turn)
        requires
            board@.wf(),
            1 <= dice[0] <= 6,
            1 <= dice[1] <= 6,
        ensures
            turn_spec(board@, mover, dice, head_budget_spec(board@, mover, dice, first, Some(1u8)),
                t.moves@, t.board@),
            self.chooses(board@, mover, dice, first, old(rng)@, turn_view(t), final(rng)@),
    ;
}

/// Picks a uniformly random legal turn.
pub struct RandomPolicy;

impl Policy for RandomPolicy {
    /// The generated turn at the generator's next output modulo the number of
    /// turns; the generator advances by one step.
    open spec fn chooses(&self, board: BoardView, mover: Player, dice: [u8; 2], first: bool, x: u64,
        t: (Seq<CheckerMove>, BoardView), y: u64) -> bool
    {
        let ts = generated(board, mover, dice, first, Some(1u8));
        &&& y == xorshift(x)
        &&& t == ts[(xorshift(x) as usize) as int % ts.len() as int]
    }

    fn choose_turn(&self, board: &Board, mover: Player, dice: [u8; 2], first: bool, rng: &mut Rng) -> (t: Turn) {
        let mut turns = generate_turns_cfg(board, mover, dice, first, Some(1u8));
        proof { reveal(turns_spec); }
        let n = turns.len();
        let x = rng.next_u64();
        let i = (x as usize) % n;
        let ghost before = turns@;
        let t = turns.remove(i);
        assert(t == before[i as int]);
        assert(turns_view(before)[i as int] == turn_view(t));
        t
    }
}

/// Whose turn ply `k` of a game is: White opens.
pub open spec fn mover_at(k: int) -> Player {
    if k % 2 == 0 { Player::White } else { Player::Black }
}

/// `next` arises from `prev` by a legal turn of `mover` for some roll.
pub open spec fn legal_step(prev: BoardView, mover: Player, first: bool, next: BoardView) -> bool {
    exists|dice: [u8; 2], s: Seq<CheckerMove>|
        1 <= dice[0] <= 6 && 1 <= dice[1] <= 6
        && #[trigger] turn_spec(prev, mover, dice, head_budget_spec(prev, mover, dice, first, Some(1u8)), s, next)
}

/// Ply `k` of the recorded game was a legal turn (plies 0 and 1 are each
/// side's first turn).
pub open spec fn step_ok(boards: Seq<BoardView>, k: int) -> bool {
    legal_step(boards[k], mover_at(k), k < 2, boards[k + 1])
}

/// `boards` records a game from the standard start: each board follows from
/// the previous one by a legal turn of the side on roll, and no board but
/// possibly the last one is decided.
pub open spec fn played_from_start(boards: Seq<BoardView>) -> bool {
    &&& boards.len() >= 1
    &&& boards[0] == BoardView::starting_spec()
    &&& forall|k: int| 0 <= k < boards.len() - 1 ==> #[trigger] step_ok(boards, k)
    &&& forall|k: int| 0 <= k < boards.len() - 1 ==> #[trigger] outcome_spec(boards[k]) == Outcome::Ongoing
}

/// The result of a game as [`play_game`] reports it: a game from the start
/// in which the two policies took turns, either decided at its last board
/// (and then scored from it) or still running after the ply cap.
pub open spec fn game_of(boards: Seq<BoardView>, r: Outcome) -> bool {
    &&& played_from_start(boards)
    &&& boards.len() <= MAX_PLIES + 1
    &&& r == Outcome::Ongoing ==> boards.len() == MAX_PLIES + 1
        && outcome_spec(boards[boards.len() - 1]) == Outcome::Ongoing
    &&& r != Outcome::Ongoing ==> r == outcome_spec(boards[boards.len() - 1])
}

/// The roll a generator in state `x` makes next: two dice from its next two
/// outputs.
pub open spec fn roll_of(x: u64) -> [u8; 2] {
    [die_of(xorshift(x)), die_of(xorshift(xorshift(x)))]
}

/// Ply `k` of a recorded game: the side to move (White on even plies) rolls
/// from generator state `xs[k]`, its policy answers with the sub-moves
/// `ms[k]` and the next board, and leaves the generator in state `xs[k + 1]`.
pub open spec fn ply_played<W: Policy + ?Sized, B: Policy + ?Sized>(white: &W, black: &B,
    boards: Seq<BoardView>, ms: Seq<Seq<CheckerMove>>, xs: Seq<u64>, k: int) -> bool
{
    let dice = roll_of(xs[k]);
    let x = xorshift(xorshift(xs[k]));
    let t = (ms[k], boards[k + 1]);
    if k % 2 == 0 {
        white.chooses(boards[k], Player::White, dice, k < 2, x, t, xs[k + 1])
    } else {
        black.chooses(boards[k], Player::Black, dice, k < 2, x, t, xs[k + 1])
    }
}

/// The game `white` and `black` play from the start with a generator in
/// state `x0`: every ply as above, ending in `r` (see [`game_of`]).
pub open spec fn game_by<W: Policy + ?Sized, B: Policy + ?Sized>(white: &W, black: &B, x0: u64,
    boards: Seq<BoardView>, ms: Seq<Seq<CheckerMove>>, xs: Seq<u64>, r: Outcome) -> bool
{
    &&& game_of(boards, r)
    &&& xs.len() == boards.len()
    &&& ms.len() + 1 == boards.len()
    &&& xs[0] == x0
    &&& forall|k: int| 0 <= k < boards.len() - 1 ==> #[trigger] ply_played(white, black, boards, ms, xs, k)
}

/// `o` is the result of the game `white` and `black` play from the start
/// with a generator in state `x`.
pub open spec fn played_by<W: Policy + ?Sized, B: Policy + ?Sized>(white: &W, black: &B, x: u64, o: Outcome) -> bool {
    exists|boards: Seq<BoardView>, ms: Seq<Seq<CheckerMove>>, xs: Seq<u64>|
        #[trigger] game_by(white, black, x, boards, ms, xs, o)
}

/// One ply's bookkeeping after the side to move answered with `turn`: its
/// board becomes the position, the mover has taken its first turn, the other
/// side moves next, and the outcome is read off the new board.
pub fn play_ply(mover: Player, first: [bool; 2], turn: &Turn) -> (next: (Board, Player, [bool; 2], Outcome))
    ensures
        next.0@ == turn.board@,
        next.1 == mover.spec_opponent(),
        next.2@ == first@.update(mover.spec_index() as int, false),
        next.3 == outcome_spec(turn.board@),
{
    let mut f = first;
    f[mover.index()] = false;
    let board = turn.board;
    let o = outcome(&board);
    (board, mover.opponent(), f, o)
}

/// A single game between two policies from the standard start, White first;
/// returns the outcome, or `Ongoing` if the ply cap is reached. Each ply rolls
/// from the generator, asks the side to move's policy, and plays its answer.
pub fn play_game<W: Policy + ?Sized, B: Policy + ?Sized>(white: &W, black: &B, rng: &mut Rng) -> (r: Outcome)
    ensures
        exists|boards: Seq<BoardView>, ms: Seq<Seq<CheckerMove>>, xs: Seq<u64>|
            #[trigger] game_by(white, black, old(rng)@, boards, ms, xs, r) && final(rng)@ == xs[xs.len() - 1],
{
    let ghost x0 = rng@;
    let mut board = Board::starting();
    let mut mover = Player::White;
    let mut first: [bool; 2] = [true, true];
    let ghost mut boards: Seq<BoardView> = seq![board@];
    let ghost mut ms: Seq<Seq<CheckerMove>> = Seq::empty();
    let ghost mut xs: Seq<u64> = seq![x0];
    let mut ply: usize = 0;
    proof { BoardView::lemma_starting_wf(); }
    while ply < MAX_PLIES
        invariant
            ply <= MAX_PLIES,
            boards.len() == ply + 1,
            ms.len() == ply,
            xs.len() == ply + 1,
            xs[0] == x0,
            x0 == old(rng)@,
            xs[ply as int] == rng@,
            played_from_start(boards),
            forall|k: int| 0 <= k < ply ==> #[trigger] ply_played(white, black, boards, ms, xs, k),
            boards[ply as int] == board@,
            board@.wf(),
            outcome_spec(board@) == Outcome::Ongoing,
            mover == mover_at(ply as int),
            first[0] == (ply < 1),
            first[1] == (ply < 2),
        decreases MAX_PLIES - ply,
    {
        let ghost x = rng@;
        let dice = rng.dice();
        let fst = first[mover.index()];
        assert(fst == (ply < 2));
        let turn = if mover == Player::White {
            white.choose_turn(&board, mover, dice, fst, rng)
        } else {
            black.choose_turn(&board, mover, dice, fst, rng)
        };
        let ghost bu = head_budget_spec(board@, mover, dice, fst, Some(1u8));
        proof {
            lemma_turn_conserves(board@, mover, dice, bu, turn.moves@, turn.board@);
            let nb = boards.push(turn.board@);
            let nms = ms.push(turn.moves@);
            let nxs = xs.push(rng@);
            assert(turn_spec(nb[ply as int], mover_at(ply as int), dice, bu, turn.moves@, nb[ply + 1]));
            assert(step_ok(nb, ply as int));
            assert(dice == roll_of(nxs[ply as int]));
            assert(ply_played(white, black, nb, nms, nxs, ply as int));
            assert forall|k: int| 0 <= k < ply + 1 implies #[trigger] ply_played(white, black, nb, nms, nxs, k) by {
                if k < ply {
                    assert(ply_played(white, black, boards, ms, xs, k));
                    assert(nb[k] == boards[k] && nb[k + 1] == boards[k + 1]);
                    assert(nms[k] == ms[k] && nxs[k] == xs[k] && nxs[k + 1] == xs[k + 1]);
                }
            }
            assert forall|k: int| 0 <= k < nb.len() - 1 implies #[trigger] step_ok(nb, k) by {
                if k < ply {
                    assert(step_ok(boards, k));
                    assert(nb[k] == boards[k] && nb[k + 1] == boards[k + 1]);
                }
            }
            assert forall|k: int| 0 <= k < nb.len() - 1 implies #[trigger] outcome_spec(nb[k]) == Outcome::Ongoing by {
                if k < ply {
                    assert(outcome_spec(boards[k]) == Outcome::Ongoing);
                }
            }
            boards = nb;
            ms = nms;
            xs = nxs;
        }
        let (nboard, nmover, nfirst, o) = play_ply(mover, first, &turn);
        board = nboard;
        first = nfirst;
        match o {
            Outcome::Ongoing => {},
            _ => {
                assert(game_by(white, black, x0, boards, ms, xs, o));
                return o;
            },
        }
        mover = nmover;
        ply += 1;
    }
    assert(game_by(white, black, x0, boards, ms, xs, Outcome::Ongoing));
    Outcome::Ongoing
}

// ---------------------------------------------------------------------------
// Benchmarking
// ---------------------------------------------------------------------------

/// Result of a benchmark match for the player under test (`a`): games
/// played, games won and net points.
#[derive(Clone, Copy, Debug)]
pub struct BenchResult {
    pub games: usize,
    pub wins: usize,
    pub points: i32,
}

/// `a` won game `o`, playing White iff `a_is_white`.
pub open spec fn a_won(o: Outcome, a_is_white: bool) -> bool {
    o matches Outcome::Win { winner, .. } && ((winner == Player::White) == a_is_white)
}

/// Points `a` gained (negative: lost) in game `o`.
pub open spec fn a_points(o: Outcome, a_is_white: bool) -> int {
    match o {
        Outcome::Win { winner, points, .. } => if (winner == Player::White) == a_is_white {
            points as int
        } else {
            -(points as int)
        },
        _ => 0,
    }
}

/// Wins of `a` over a series in which `a` plays White in the even games.
pub open spec fn tally_wins(outs: Seq<Outcome>) -> int
    decreases outs.len(),
{
    if outs.len() == 0 {
        0
    } else {
        tally_wins(outs.drop_last())
            + if a_won(outs.last(), (outs.len() - 1) % 2 == 0) { 1int } else { 0int }
    }
}

/// Net points of `a` over the same series.
pub open spec fn tally_points(outs: Seq<Outcome>) -> int
    decreases outs.len(),
{
    if outs.len() == 0 {
        0
    } else {
        tally_points(outs.drop_last()) + a_points(outs.last(), (outs.len() - 1) % 2 == 0)
    }
}

/// A possible game result: still running, or a win scored 1 (оин) or 2
/// (марс) points.
pub open spec fn game_result(o: Outcome) -> bool {
    o == Outcome::Ongoing || (o matches Outcome::Win { mars, points, .. } && points == (if mars { 2u8 } else { 1u8 }))
}

/// The seed game `g` of a benchmark run from `seed` is played with.
pub open spec fn game_seed(seed: u64, g: int) -> u64 {
    vstd::wrapping::u64_specs::wrapping_mul(vstd::wrapping::u64_specs::wrapping_add(seed, g as u64),
        0x2545F491_4F6CDD1Du64)
}

/// Game `g` of a benchmark between `a` and `b`: `a` is White in the
/// even-numbered games, and the game runs on the generator seeded for `g`.
pub open spec fn bench_game<A: Policy + ?Sized, B: Policy + ?Sized>(a: &A, b: &B, seed: u64, g: int, o: Outcome) -> bool {
    if g % 2 == 0 {
        played_by(a, b, game_seed(seed, g) | 1u64, o)
    } else {
        played_by(b, a, game_seed(seed, g) | 1u64, o)
    }
}

proof fn lemma_game_result(boards: Seq<BoardView>, r: Outcome)
    requires
        game_of(boards, r),
    ensures
        game_result(r),
{
}

/// Benchmark policy `a` against policy `b` over `games` games, alternating
/// colours (`a` is White in the even-numbered games); game `g` is played
/// with a generator seeded from `seed` and `g`.
pub fn benchmark<A: Policy + ?Sized, B: Policy + ?Sized>(a: &A, b: &B, games: usize, seed: u64) -> (r: BenchResult)
    requires
        2 * games <= i32::MAX,
    ensures
        r.games == games,
        exists|outs: Seq<Outcome>| outs.len() == games
            && (forall|g: int| 0 <= g < games ==> #[trigger] game_result(outs[g]))
            && (forall|g: int| 0 <= g < games ==> #[trigger] bench_game(a, b, seed, g, outs[g]))
            && r.wins == tally_wins(outs) && r.points == tally_points(outs),
        r.wins <= games,
        -2 * games <= r.points <= 2 * games,
{
    let mut wins: usize = 0;
    let mut points: i32 = 0;
    let ghost mut outs: Seq<Outcome> = Seq::empty();
    let mut g: usize = 0;
    while g < games
        invariant
            g <= games,
            2 * games <= i32::MAX,
            outs.len() == g,
            forall|k: int| 0 <= k < g ==> #[trigger] game_result(outs[k]),
            forall|k: int| 0 <= k < g ==> #[trigger] bench_game(a, b, seed, k, outs[k]),
            wins == tally_wins(outs),
            points == tally_points(outs),
            wins <= g,
            -2 * g <= points <= 2 * g,
        decreases games - g,
    {
        let s = seed.wrapping_add(g as u64).wrapping_mul(0x2545F491_4F6CDD1Du64);
        let mut rng = Rng::new(s);
        let a_is_white = g % 2 == 0;
        let o = if a_is_white {
            play_game(a, b, &mut rng)
        } else {
            play_game(b, a, &mut rng)
        };
        proof {
            assert(s == game_seed(seed, g as int));
            if a_is_white {
                let (bs, ms, xs) = choose|boards: Seq<BoardView>, ms: Seq<Seq<CheckerMove>>, xs: Seq<u64>|
                    #[trigger] game_by(a, b, s | 1u64, boards, ms, xs, o);
                lemma_game_result(bs, o);
            } else {
                let (bs, ms, xs) = choose|boards: Seq<BoardView>, ms: Seq<Seq<CheckerMove>>, xs: Seq<u64>|
                    #[trigger] game_by(b, a, s | 1u64, boards, ms, xs, o);
                lemma_game_result(bs, o);
            }
            assert(bench_game(a, b, seed, g as int, o));
        }
        let ghost no = outs.push(o);
        proof {
            assert(no.drop_last() == outs);
        }
        match o {
            Outcome::Win { winner, points: p, .. } => {
                let a_won_it = (winner == Player::White) == a_is_white;
                if a_won_it {
                    wins += 1;
                    points += p as i32;
                } else {
                    points -= p as i32;
                }
            },
            _ => {},
        }
        proof {
            assert forall|k: int| 0 <= k < g + 1 implies #[trigger] game_result(no[k]) by {
                if k < g {
                    assert(game_result(outs[k]));
                }
            }
            assert forall|k: int| 0 <= k < g + 1 implies #[trigger] bench_game(a, b, seed, k, no[k]) by {
                if k < g {
                    assert(bench_game(a, b, seed, k, outs[k]));
                }
            }
            outs = no;
        }
        g += 1;
    }
    BenchResult { games, wins, points }
}

} // verus!
