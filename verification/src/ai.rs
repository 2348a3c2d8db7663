//! Baseline AI: greedy 1-ply move selection over the heuristic evaluator.
//!
//! The heuristic scores a board from one side's perspective by the pip race,
//! bear-off progress and a blocking term (points in front of the opponent's
//! rearmost checker, plus the longest run of them). Its weights are whole or
//! half units, so the score is kept exactly in *half points*; the engine's
//! floating-point `evaluate` is this value divided by two.
use vstd::prelude::*;
use crate::board::{Board, BoardView, phys, phys_spec, lemma_phys_round_trip};
use crate::game::{outcome, outcome_spec, Outcome, GameState};
use crate::moves::{generate_turns, generated, head_budget_spec, turn_spec, turn_view, turns_spec, turns_view, owns_cell,
    CheckerMove, Turn};
use crate::player::Player;

verus! {

/// The hand-crafted heuristic as a position evaluator (the baseline and
/// fallback of the search); its score is [`evaluate_halves`].
pub struct Heuristic;

/// Magnitude of a decided game, in half points (twice `WIN_SCORE`).
pub const WIN_HALVES: i32 = 2_000_000;

/// Length of the run of `mover`'s cells on the opponent's path positions
/// `q, q+1, …` up to `top`.
pub open spec fn run_from(b: BoardView, mover: Player, q: int, top: int) -> int
    decreases top + 1 - q,
{
    if q > top || q < 1 {
        0
    } else if owns_cell(b, mover, phys_spec(mover.spec_opponent(), q)) {
        1 + run_from(b, mover, q + 1, top)
    } else {
        0
    }
}

/// Longest run of `mover`'s cells within the opponent's positions `q..=top`.
pub open spec fn best_run(b: BoardView, mover: Player, q: int, top: int) -> int
    decreases top + 1 - q,
{
    if q > top || q < 1 {
        0
    } else {
        let here = run_from(b, mover, q, top);
        let rest = best_run(b, mover, q + 1, top);
        if here > rest { here } else { rest }
    }
}

/// Number of `mover`'s cells among the opponent's positions `q..=top`.
pub open spec fn impede_count(b: BoardView, mover: Player, q: int, top: int) -> int
    decreases top + 1 - q,
{
    if q > top || q < 1 {
        0
    } else {
        (if owns_cell(b, mover, phys_spec(mover.spec_opponent(), q)) { 1int } else { 0int })
            + impede_count(b, mover, q + 1, top)
    }
}

/// The blocking term in half points: one per `mover` point in front of the
/// opponent's rearmost checker, three per point of the longest run of them.
pub open spec fn block_halves(b: BoardView, mover: Player) -> int {
    let rear = b.highest_spec(mover.spec_opponent());
    if rear <= 1 {
        0
    } else {
        impede_count(b, mover, 1, rear - 1) + 3 * best_run(b, mover, 1, rear - 1)
    }
}

/// The heuristic evaluation of `b` for `p`, in half points: a decided game is
/// worth ±(2 000 000 + 2·points); otherwise two per pip of race lead, ten per
/// borne-off checker of lead, plus the blocking balance.
pub open spec fn score_halves(b: BoardView, p: Player) -> int {
    match outcome_spec(b) {
        Outcome::Win { winner, points, .. } => if winner == p {
            2_000_000 + 2 * points
        } else {
            -(2_000_000 + 2 * points)
        },
        Outcome::Draw => 0,
        Outcome::Ongoing => {
            let o = p.spec_opponent();
            2 * (b.pip_spec(o) - b.pip_spec(p)) + 10 * (b.off_of(p) - b.off_of(o))
                + block_halves(b, p) - block_halves(b, o)
        },
    }
}

/// Bear-off progress is rewarded: of two undecided boards on which both
/// sides' pips, both sides' blocking and the opponent's borne-off count are
/// the same, the one where `p` has borne off one checker more scores exactly
/// ten half points (five points) more for `p`, and the opponent sees the
/// same difference against it.
pub proof fn lemma_bear_off_reward(b1: BoardView, b2: BoardView, p: Player)
    requires
        outcome_spec(b1) == Outcome::Ongoing,
        outcome_spec(b2) == Outcome::Ongoing,
        b2.off_of(p) == b1.off_of(p) + 1,
        b2.off_of(p.spec_opponent()) == b1.off_of(p.spec_opponent()),
        b2.pip_spec(p) == b1.pip_spec(p),
        b2.pip_spec(p.spec_opponent()) == b1.pip_spec(p.spec_opponent()),
        block_halves(b2, p) == block_halves(b1, p),
        block_halves(b2, p.spec_opponent()) == block_halves(b1, p.spec_opponent()),
    ensures
        score_halves(b2, p) == score_halves(b1, p) + 10,
        score_halves(b2, p.spec_opponent()) == score_halves(b1, p.spec_opponent()) - 10,
{
}

/// The race is rewarded: of two undecided boards that differ only in `p`'s
/// pip count (borne-off counts, the opponent's pips and both sides' blocking
/// the same), each pip fewer for `p` is worth two half points (one point).
pub proof fn lemma_race_reward(b1: BoardView, b2: BoardView, p: Player)
    requires
        outcome_spec(b1) == Outcome::Ongoing,
        outcome_spec(b2) == Outcome::Ongoing,
        b2.off_of(p) == b1.off_of(p),
        b2.off_of(p.spec_opponent()) == b1.off_of(p.spec_opponent()),
        b2.pip_spec(p.spec_opponent()) == b1.pip_spec(p.spec_opponent()),
        block_halves(b2, p) == block_halves(b1, p),
        block_halves(b2, p.spec_opponent()) == block_halves(b1, p.spec_opponent()),
    ensures
        score_halves(b2, p) - score_halves(b1, p) == 2 * (b1.pip_spec(p) - b2.pip_spec(p)),
{
}

/// The evaluation is zero-sum: what a board is worth to one side it costs
/// the other.
pub proof fn lemma_score_zero_sum(b: BoardView, p: Player)
    ensures
        score_halves(b, p.spec_opponent()) == -score_halves(b, p),
{
}

/// A decided game outweighs every heuristic term: the winner's score is
/// exactly 2 000 000 plus twice the points won, the loser's its negation.
pub proof fn lemma_decided_score(b: BoardView, p: Player)
    requires
        outcome_spec(b) matches Outcome::Win { winner, .. } && winner == p,
    ensures
        score_halves(b, p) == 2_000_000 + 2 * (outcome_spec(b)->points as int),
        score_halves(b, p.spec_opponent()) == -(2_000_000 + 2 * (outcome_spec(b)->points as int)),
{
}

proof fn lemma_run_bounds(b: BoardView, mover: Player, q: int, top: int)
    ensures
        0 <= run_from(b, mover, q, top) <= (if top >= q { top - q + 1 } else { 0 }),
        0 <= best_run(b, mover, q, top) <= (if top >= q { top - q + 1 } else { 0 }),
        0 <= impede_count(b, mover, q, top) <= (if top >= q { top - q + 1 } else { 0 }),
    decreases top + 1 - q,
{
    if q <= top && q >= 1 {
        lemma_run_bounds(b, mover, q + 1, top);
    }
}

/// The blocking term, in half points.
fn block_halves_exec(board: &Board, mover: Player) -> (r: i32)
    requires
        board@.readable_for(mover.spec_opponent()),
    ensures
        r as int == block_halves(board@, mover),
        0 <= r <= 100,
{
    let opp = mover.opponent();
    let rear = board.highest_occupied(opp);
    proof { board@.lemma_highest_range(opp, 24); }
    if rear <= 1 {
        return 0;
    }
    let top = rear - 1;
    let mut impede: i32 = 0;
    let mut run: i32 = 0;
    let mut best: i32 = 0;
    let mut q: u8 = top;
    while q >= 1
        invariant
            0 <= q <= top,
            1 <= top <= 23,
            opp == mover.spec_opponent(),
            run as int == run_from(board@, mover, q + 1, top as int),
            best as int == best_run(board@, mover, q + 1, top as int),
            impede as int == impede_count(board@, mover, q + 1, top as int),
        decreases q,
    {
        proof {
            lemma_run_bounds(board@, mover, q as int + 1, top as int);
            lemma_phys_round_trip(opp, q as int, 0);
        }
        if board.owner(phys(opp, q)) == Some(mover) {
            impede += 1;
            run += 1;
            if run > best {
                best = run;
            }
        } else {
            run = 0;
        }
        q -= 1;
    }
    proof { lemma_run_bounds(board@, mover, 1, top as int); }
    impede + 3 * best
}

/// The heuristic evaluation of `board` from `player`'s perspective, in half
/// points (twice the engine's floating-point `evaluate`). Higher is better.
pub fn evaluate_halves(board: &Board, player: Player) -> (r: i32)
    requires
        board@.readable_for(Player::White),
        board@.readable_for(Player::Black),
    ensures
        r as int == score_halves(board@, player),
{
    match outcome(board) {
        Outcome::Win { winner, points, .. } => {
            let v: i32 = 2_000_000 + 2 * points as i32;
            return if winner == player { v } else { -v };
        },
        Outcome::Draw => return 0,
        Outcome::Ongoing => {},
    }
    let opp = player.opponent();
    let my_pip = board.pip(player) as i32;
    let op_pip = board.pip(opp) as i32;
    let race = 2 * (op_pip - my_pip);
    let off = 10 * (board.off[player.index()] as i32 - board.off[opp.index()] as i32);
    let block = block_halves_exec(board, player) - block_halves_exec(board, opp);
    race + off + block
}

/// Every turn's board can be scored.
pub open spec fn scorable(turns: Seq<Turn>) -> bool {
    forall|i: int| 0 <= i < turns.len() ==> (#[trigger] turns[i]).board@.wf()
}

/// The first turn whose resulting board scores highest for `player`.
fn pick_best(turns: Vec<Turn>, player: Player) -> (r: Option<Turn>)
    requires
        scorable(turns@),
    ensures
        turns@.len() == 0 <==> r is None,
        r matches Some(t) ==> exists|i: int| 0 <= i < turns@.len() && #[trigger] turns@[i] == t
            && (forall|j: int| 0 <= j < turns@.len() ==> score_halves(#[trigger] turns@[j].board@, player)
                <= score_halves(t.board@, player))
            && (forall|j: int| 0 <= j < i ==> score_halves(#[trigger] turns@[j].board@, player)
                < score_halves(t.board@, player)),
{
    if turns.len() == 0 {
        return None;
    }
    let ghost orig = turns@;
    proof { turns@[0].board@.lemma_wf_cells(); }
    let mut best: usize = 0;
    let mut best_score = evaluate_halves(&turns[0].board, player);
    let mut i: usize = 1;
    while i < turns.len()
        invariant
            turns@ == orig,
            scorable(orig),
            1 <= i <= orig.len(),
            best < i,
            best_score as int == score_halves(orig[best as int].board@, player),
            forall|j: int| 0 <= j < i ==> score_halves(#[trigger] orig[j].board@, player) <= best_score,
            forall|j: int| 0 <= j < best ==> score_halves(#[trigger] orig[j].board@, player) < best_score,
        decreases orig.len() - i,
    {
        proof { orig[i as int].board@.lemma_wf_cells(); }
        let s = evaluate_halves(&turns[i].board, player);
        if s > best_score {
            best = i;
            best_score = s;
        }
        i += 1;
    }
    let mut turns = turns;
    let t = turns.remove(best);
    Some(t)
}

/// Entry `i` of `ts` is the first whose board scores highest for `p`: ties
/// go to the earlier entry.
pub open spec fn first_best(ts: Seq<(Seq<CheckerMove>, BoardView)>, p: Player, i: int) -> bool {
    &&& 0 <= i < ts.len()
    &&& forall|j: int| 0 <= j < ts.len() ==> score_halves(#[trigger] ts[j].1, p) <= score_halves(ts[i].1, p)
    &&& forall|j: int| 0 <= j < i ==> score_halves(#[trigger] ts[j].1, p) < score_halves(ts[i].1, p)
}

/// `v` is the first entry of `ts` whose board scores highest for `p`.
pub open spec fn picked_first(ts: Seq<(Seq<CheckerMove>, BoardView)>, p: Player, v: (Seq<CheckerMove>, BoardView)) -> bool {
    exists|i: int| #[trigger] first_best(ts, p, i) && ts[i] == v
}

proof fn lemma_first_best(turns: Seq<Turn>, p: Player, t: Turn)
    requires
        exists|i: int| 0 <= i < turns.len() && #[trigger] turns[i] == t
            && (forall|j: int| 0 <= j < turns.len() ==> score_halves(#[trigger] turns[j].board@, p)
                <= score_halves(t.board@, p))
            && (forall|j: int| 0 <= j < i ==> score_halves(#[trigger] turns[j].board@, p)
                < score_halves(t.board@, p)),
    ensures
        picked_first(turns_view(turns), p, turn_view(t)),
{
    let i = choose|i: int| 0 <= i < turns.len() && #[trigger] turns[i] == t
        && (forall|j: int| 0 <= j < turns.len() ==> score_halves(#[trigger] turns[j].board@, p)
            <= score_halves(t.board@, p))
        && (forall|j: int| 0 <= j < i ==> score_halves(#[trigger] turns[j].board@, p)
            < score_halves(t.board@, p));
    let tv = turns_view(turns);
    assert(tv[i] == turn_view(turns[i]));
    assert forall|j: int| 0 <= j < tv.len() implies score_halves(#[trigger] tv[j].1, p) <= score_halves(tv[i].1, p) by {
        assert(tv[j] == turn_view(turns[j]));
    }
    assert forall|j: int| 0 <= j < i implies score_halves(#[trigger] tv[j].1, p) < score_halves(tv[i].1, p) by {
        assert(tv[j] == turn_view(turns[j]));
    }
    assert(first_best(tv, p, i));
}

/// Choose the best turn for `player` given a roll: a legal turn whose
/// resulting position scores at least as well as every other legal turn's.
/// Generation always yields at least a pass, so the result is always `Some`.
pub fn best_turn_for(board: &Board, player: Player, dice: [u8; 2], first_turn: bool) -> (r: Option<Turn>)
    requires
        board@.wf(),
        dice[0] <= 6,
        dice[1] <= 6,
    ensures
        r matches Some(t) && best_among(board@, player, dice,
            head_budget_spec(board@, player, dice, first_turn, Some(1u8)), t),
        r matches Some(t) ==> picked_first(generated(board@, player, dice, first_turn, Some(1u8)), player, turn_view(t)),
{
    let turns = generate_turns(board, player, dice, first_turn);
    let ghost tv = turns@;
    let ghost bu = head_budget_spec(board@, player, dice, first_turn, Some(1u8));
    proof { lemma_turns_scorable(board@, player, dice, bu, tv); }
    let r = pick_best(turns, player);
    proof {
        lemma_pick_is_best(board@, player, dice, bu, tv, r);
        lemma_first_best(tv, player, r->0);
    }
    r
}

/// `t` is a legal turn and no legal turn's position scores higher.
pub open spec fn best_among(b: BoardView, p: Player, dice: [u8; 2], bu: int, t: Turn) -> bool {
    &&& turn_spec(b, p, dice, bu, t.moves@, t.board@)
    &&& forall|s: Seq<crate::moves::CheckerMove>, end: BoardView| #[trigger] turn_spec(b, p, dice, bu, s, end)
        ==> score_halves(end, p) <= score_halves(t.board@, p)
}

proof fn lemma_turns_scorable(b: BoardView, p: Player, dice: [u8; 2], bu: int, turns: Seq<Turn>)
    requires
        turns_spec(b, p, dice, bu, turns),
    ensures
        scorable(turns),
        turns.len() >= 1,
{
    reveal(turns_spec);
    assert forall|i: int| 0 <= i < turns.len() implies (#[trigger] turns[i]).board@.wf() by {}
}

proof fn lemma_pick_is_best(b: BoardView, p: Player, dice: [u8; 2], bu: int, turns: Seq<Turn>, r: Option<Turn>)
    requires
        turns_spec(b, p, dice, bu, turns),
        turns.len() == 0 <==> r is None,
        r matches Some(t) ==> exists|i: int| 0 <= i < turns.len() && #[trigger] turns[i] == t
            && (forall|j: int| 0 <= j < turns.len() ==> score_halves(#[trigger] turns[j].board@, p)
                <= score_halves(t.board@, p)),
    ensures
        r matches Some(t) && best_among(b, p, dice, bu, t),
{
    reveal(turns_spec);
    let t = r->0;
    let i = choose|i: int| 0 <= i < turns.len() && #[trigger] turns[i] == t
        && (forall|j: int| 0 <= j < turns.len() ==> score_halves(#[trigger] turns[j].board@, p)
            <= score_halves(t.board@, p));
    assert(turn_spec(b, p, dice, bu, turns[i].moves@, turns[i].board@));
    assert forall|s: Seq<crate::moves::CheckerMove>, end: BoardView| #[trigger] turn_spec(b, p, dice, bu, s, end)
        implies score_halves(end, p) <= score_halves(t.board@, p) by {
        let j = choose|j: int| 0 <= j < turns.len() && (#[trigger] turns[j]).board@ == end;
        assert(score_halves(turns[j].board@, p) <= score_halves(t.board@, p));
    }
}

/// Best turn for the side to move in `state` (uses `state.dice`); `None`
/// only when no dice are set.
pub fn best_turn(state: &GameState) -> (r: Option<Turn>)
    requires
        state.board@.wf(),
        state.dice matches Some(d) ==> d[0] <= 6 && d[1] <= 6,
    ensures
        state.dice is None ==> r is None,
        state.dice matches Some(d) ==> (r matches Some(t) && best_among(state.board@, state.turn, d,
            head_budget_spec(state.board@, state.turn, d,
                state.is_first_turn_spec() && state.rules.head_doubles_exception, state.rules.head_limit), t)),
        state.dice matches Some(d) ==> (r matches Some(t) ==> picked_first(generated(state.board@, state.turn, d,
            state.is_first_turn_spec() && state.rules.head_doubles_exception, state.rules.head_limit), state.turn,
            turn_view(t))),
{
    let turns = state.legal_turns();
    match state.dice {
        None => None,
        Some(d) => {
            let ghost bu = head_budget_spec(state.board@, state.turn, d,
                state.is_first_turn_spec() && state.rules.head_doubles_exception, state.rules.head_limit);
            let ghost tv = turns@;
            proof { lemma_turns_scorable(state.board@, state.turn, d, bu, tv); }
            let r = pick_best(turns, state.turn);
            proof {
                lemma_pick_is_best(state.board@, state.turn, d, bu, tv, r);
                lemma_first_best(tv, state.turn, r->0);
            }
            r
        },
    }
}

} // verus!
