//! Legal move generation.
//!
//! A *turn* is the full play for one dice roll: two sub-moves for a normal
//! roll, four for a double. Generation enforces every federation rule:
//!
//! * **Head rule** — at most one checker leaves the head (pos 24) per turn,
//!   except a player's *first* turn rolling 6-6 / 4-4 / 3-3, which may allow two.
//! * **No hitting** — a checker may only land on an empty point or one of its
//!   own; a single opposing checker blocks a point.
//! * **No full prime** — no move may create a wall of six consecutive points
//!   that traps *all* of the opponent's checkers, not even between two dice.
//! * **Bearing off** — only once all checkers are home; an exact roll bears a
//!   checker off, an over-roll only from the highest occupied point.
//! * **Maximal use** — as many dice as possible must be used; when only one of
//!   two distinct dice can be played, it must be the higher one.
//!
//! Generation returns the distinct *resulting positions*, merging sub-move
//! orderings that transpose to the same position.
use vstd::prelude::*;
use crate::board::{Board, BoardView, HEAD_POS, owner_spec, phys, phys_spec, lemma_phys_round_trip};
use crate::player::Player;

verus! {

/// A single checker move within a turn.
#[derive(Clone, Copy, PartialEq, Eq, Debug, Structural)]
pub struct CheckerMove {
    /// Source path position (`1..=24`).
    pub from: u8,
    /// Die value used (`1..=6`).
    pub die: u8,
    /// Destination path position (`1..=24`), or `0` when the checker bears off.
    pub to: u8,
    /// Whether this sub-move bears the checker off the board.
    pub bear_off: bool,
}

/// One complete, legal turn: the ordered sub-moves and the resulting board.
#[derive(Clone, PartialEq, Eq, Debug)]
pub struct Turn {
    /// Sub-moves in the order they are applied (empty = forced pass).
    pub moves: Vec<CheckerMove>,
    /// Board after the whole turn has been applied.
    pub board: Board,
}

impl Turn {
    /// A turn that plays no checkers (no legal move was available).
    pub fn is_pass(&self) -> (r: bool)
        ensures
            r == (self.moves@.len() == 0),
    {
        self.moves.len() == 0
    }
}

// ---------------------------------------------------------------------------
// The rules as mathematics
// ---------------------------------------------------------------------------

/// `mover` occupies physical cell `cell`.
pub open spec fn owns_cell(b: BoardView, mover: Player, cell: int) -> bool {
    owner_spec(b.points[cell]) == Some(mover)
}

/// `mover` owns the six consecutive points `q..=q+5` of the opponent's path.
pub open spec fn wall_at(b: BoardView, mover: Player, q: int) -> bool {
    forall|x: int| q <= x < q + 6 ==> #[trigger] owns_cell(b, mover, phys_spec(mover.spec_opponent(), x))
}

/// Some opponent checker is ahead of a wall starting at `q` (closer to home
/// than `q`), or already borne off.
pub open spec fn opp_ahead(b: BoardView, mover: Player, q: int) -> bool {
    b.off_of(mover.spec_opponent()) > 0
        || exists|x: int| 1 <= x < q && #[trigger] b.own(mover.spec_opponent(), x) > 0
}

/// `mover` holds an illegal full prime: a six-point wall with no opponent
/// checker ahead of it.
pub open spec fn illegal_prime_spec(b: BoardView, mover: Player) -> bool {
    exists|q: int| 1 <= q <= 19 && #[trigger] wall_at(b, mover, q) && !opp_ahead(b, mover, q)
}

/// The outcome of one sub-move of `die` from path position `from`: the board
/// after it and the move record, or `None` when the rules forbid it.
/// `head_ok` says whether another checker may still leave the head.
pub open spec fn submove_spec(b: BoardView, p: Player, from: int, die: int, head_ok: bool)
    -> Option<(BoardView, CheckerMove)>
{
    if b.own(p, from) == 0 || (from == 24 && !head_ok) {
        None
    } else if from - die >= 1 {
        let to = from - die;
        if b.opp(p, to) != 0 || illegal_prime_spec(b.moved(p, from, to), p) {
            None
        } else {
            Some((b.moved(p, from, to), CheckerMove { from: from as u8, die: die as u8, to: to as u8, bear_off: false }))
        }
    } else if !b.all_home_spec(p) || (from - die < 0 && b.highest_spec(p) != from) {
        None
    } else {
        Some((b.borne(p, from), CheckerMove { from: from as u8, die: die as u8, to: 0, bear_off: true }))
    }
}

/// The board after a legal sub-move (the board itself if illegal).
pub open spec fn sub_board(b: BoardView, p: Player, from: int, die: int, head_ok: bool) -> BoardView {
    match submove_spec(b, p, from, die, head_ok) {
        Some(x) => x.0,
        None => b,
    }
}

/// The record of a legal sub-move.
pub open spec fn sub_move_of(b: BoardView, p: Player, from: int, die: int, head_ok: bool) -> CheckerMove {
    match submove_spec(b, p, from, die, head_ok) {
        Some(x) => x.1,
        None => CheckerMove { from: 0, die: 0, to: 0, bear_off: false },
    }
}

/// Dice still to play, summed over the faces `1..=6` (index = face).
pub open spec fn counts_sum(c: Seq<u8>) -> int {
    c[1] as int + c[2] as int + c[3] as int + c[4] as int + c[5] as int + c[6] as int
}

/// Some sub-move is still legal with the dice left in `counts`.
pub open spec fn can_move(b: BoardView, p: Player, counts: Seq<u8>, head_ok: bool) -> bool {
    exists|die: int, from: int|
        1 <= die <= 6 && counts[die] > 0 && 1 <= from <= 24
            && (#[trigger] submove_spec(b, p, from, die, head_ok)) is Some
}

/// One head checker more, if the move starts on the head.
pub open spec fn head_step(m: CheckerMove) -> int {
    if m.from == 24 { 1 } else { 0 }
}

/// `moves` is a *maximal* play for `p` from board `b` with the dice left in
/// `counts` and `hu` checkers already off the head: every sub-move is legal in
/// turn and consumes a die, the board ends as `end`, and at the end no further
/// sub-move is legal.
pub open spec fn full_play_from(
    b: BoardView,
    p: Player,
    counts: Seq<u8>,
    hu: int,
    budget: int,
    moves: Seq<CheckerMove>,
    end: BoardView,
) -> bool
    decreases moves.len(),
{
    if moves.len() == 0 {
        end == b && !can_move(b, p, counts, hu < budget)
    } else {
        let m = moves[0];
        &&& 1 <= m.die <= 6
        &&& counts[m.die as int] > 0
        &&& 1 <= m.from <= 24
        &&& submove_spec(b, p, m.from as int, m.die as int, hu < budget) is Some
        &&& sub_move_of(b, p, m.from as int, m.die as int, hu < budget) == m
        &&& full_play_from(
            sub_board(b, p, m.from as int, m.die as int, hu < budget),
            p,
            counts.update(m.die as int, (counts[m.die as int] - 1) as u8),
            hu + head_step(m),
            budget,
            moves.drop_first(),
            end,
        )
    }
}

// ---------------------------------------------------------------------------
// Executable rules
// ---------------------------------------------------------------------------

/// Whether `mover` currently has an illegal "full prime": six consecutive
/// points (in the opponent's path order) all owned by `mover`, with no
/// opponent checker ahead of the wall (and none borne off).
pub fn creates_illegal_prime(board: &Board, mover: Player) -> (r: bool)
    requires
        board@.readable_for(mover.spec_opponent()),
    ensures
        r == illegal_prime_spec(board@, mover),
{
    let opp = mover.opponent();
    let mut owned = [false; 25];
    let mut q: u8 = 1;
    while q <= HEAD_POS
        invariant
            1 <= q <= 25,
            owned@.len() == 25,
            forall|x: int| 1 <= x < q ==> owned@[x] == owns_cell(board@, mover, phys_spec(opp, x)),
        decreases 25 - q,
    {
        owned[q as usize] = board.owner(phys(opp, q)) == Some(mover);
        q += 1;
    }
    let mut q: u8 = 1;
    while q <= HEAD_POS - 5
        invariant
            1 <= q <= 20,
            opp == mover.spec_opponent(),
            board@.readable_for(opp),
            owned@.len() == 25,
            forall|x: int| 1 <= x <= 24 ==> owned@[x] == owns_cell(board@, mover, phys_spec(opp, x)),
            forall|w: int| 1 <= w < q ==> !(#[trigger] wall_at(board@, mover, w) && !opp_ahead(board@, mover, w)),
        decreases 20 - q,
    {
        let mut full = true;
        let mut x: u8 = q;
        while x < q + 6
            invariant
                1 <= q <= 19,
                q <= x <= q + 6,
                owned@.len() == 25,
                forall|y: int| 1 <= y <= 24 ==> owned@[y] == owns_cell(board@, mover, phys_spec(opp, y)),
                full == (forall|y: int| q <= y < x ==> owns_cell(board@, mover, phys_spec(opp, y))),
            decreases q + 6 - x,
        {
            if !owned[x as usize] {
                full = false;
            }
            x += 1;
        }
        assert(full == wall_at(board@, mover, q as int));
        if full {
            let mut ahead = board.off[opp.index()] > 0;
            let mut pp: u8 = 1;
            while pp < q
                invariant
                    1 <= pp <= q <= 19,
                    opp == mover.spec_opponent(),
                    board@.readable_for(opp),
                    ahead == (board@.off_of(opp) > 0 || exists|y: int| 1 <= y < pp && #[trigger] board@.own(opp, y) > 0),
                decreases q - pp,
            {
                proof { lemma_phys_round_trip(opp, pp as int, 0); }
                if board.own_at(opp, pp) > 0 {
                    ahead = true;
                }
                pp += 1;
            }
            assert(ahead == opp_ahead(board@, mover, q as int));
            if !ahead {
                return true;
            }
        }
        q += 1;
    }
    false
}

/// Attempt one sub-move of `die` from path position `from` for `player`.
///
/// Returns the resulting board and the move on success, or `None` if the
/// move is illegal (no checker there, head budget exhausted, blocked landing,
/// illegal bear-off, or it would create a full prime).
fn try_submove(
    board: &Board,
    player: Player,
    from: u8,
    die: u8,
    head_used: u8,
    head_budget: u8,
) -> (r: Option<(Board, CheckerMove)>)
    requires
        board@.wf(),
        1 <= from <= 24,
        1 <= die <= 6,
    ensures
        (r is Some) == (submove_spec(board@, player, from as int, die as int, head_used < head_budget) is Some),
        r matches Some(x) ==> submove_spec(board@, player, from as int, die as int, head_used < head_budget)
            == Some((x.0@, x.1)),
{
    proof {
        board@.lemma_wf_cells();
        lemma_phys_round_trip(player, from as int, 0);
    }
    if board.own_at(player, from) == 0 {
        return None;
    }
    if from == HEAD_POS && head_used >= head_budget {
        return None;
    }
    if from > die {
        let to = from - die;
        proof {
            lemma_phys_round_trip(player, to as int, 0);
            board@.lemma_two_le_total(player, from as int, to as int, 24);
        }
        if !board.is_open_for(player, to) {
            return None;
        }
        let mut nb = *board;
        nb.remove(player, from);
        nb.add(player, to);
        proof {
            board@.lemma_moved(player, from as int, to as int);
            assert(nb@ =~= board@.moved(player, from as int, to as int));
            nb@.lemma_wf_cells();
        }
        if creates_illegal_prime(&nb, player) {
            return None;
        }
        Some((nb, CheckerMove { from, die, to, bear_off: false }))
    } else {
        if !board.all_home(player) {
            return None;
        }
        let exact = from == die;
        if !exact {
            if board.highest_occupied(player) != from {
                return None;
            }
        }
        let mut nb = *board;
        nb.remove(player, from);
        proof {
            board@.lemma_borne(player, from as int);
        }
        nb.off[player.index()] += 1;
        proof {
            assert(nb@ =~= board@.borne(player, from as int));
        }
        Some((nb, CheckerMove { from, die, to: 0, bear_off: true }))
    }
}

/// Cell value `v` holds checkers of `p` (White positive, Black negative).
pub open spec fn holds(v: i8, p: Player) -> bool {
    if p == Player::White { v > 0 } else { v < 0 }
}

/// The prime rule cell by cell: `mover` holds an illegal full prime exactly
/// when, for some start `q` in `1..=19` (the opponent's own first point
/// included), `mover` has checkers on every one of the opponent's path
/// positions `q..=q+5`, while the opponent has borne off nothing and has no
/// checker on a position below `q`.
pub proof fn lemma_prime_rule(b: BoardView, mover: Player)
    ensures
        illegal_prime_spec(b, mover) <==> exists|q: int| #![trigger b.points[phys_spec(mover.spec_opponent(), q)]] 1 <= q <= 19
            && holds(b.points[phys_spec(mover.spec_opponent(), q)], mover)
            && (forall|x: int| q <= x <= q + 5 ==> holds(
                #[trigger] b.points[phys_spec(mover.spec_opponent(), x)], mover))
            && b.off[mover.spec_opponent().spec_index() as int] == 0
            && (forall|x: int| 1 <= x < q ==> !holds(
                #[trigger] b.points[phys_spec(mover.spec_opponent(), x)], mover.spec_opponent())),
{
    let o = mover.spec_opponent();
    assert forall|q: int| 1 <= q <= 19 implies (wall_at(b, mover, q) && !opp_ahead(b, mover, q)) == (
        (forall|x: int| q <= x <= q + 5 ==> holds(#[trigger] b.points[phys_spec(o, x)], mover))
        && b.off[o.spec_index() as int] == 0
        && (forall|x: int| 1 <= x < q ==> !holds(#[trigger] b.points[phys_spec(o, x)], o))) by {
        assert forall|x: int| #![trigger phys_spec(o, x)]
            owns_cell(b, mover, phys_spec(o, x)) == holds(b.points[phys_spec(o, x)], mover) by {}
        assert forall|x: int| #![trigger phys_spec(o, x)]
            (b.own(o, x) > 0) == holds(b.points[phys_spec(o, x)], o) by {}
        if wall_at(b, mover, q) {
            assert forall|x: int| q <= x <= q + 5 implies holds(#[trigger] b.points[phys_spec(o, x)], mover) by {
                assert(owns_cell(b, mover, phys_spec(o, x)));
            }
        }
        if forall|x: int| q <= x <= q + 5 ==> holds(#[trigger] b.points[phys_spec(o, x)], mover) {
            assert forall|x: int| q <= x < q + 6 implies #[trigger] owns_cell(b, mover, phys_spec(o, x)) by {
                assert(holds(b.points[phys_spec(o, x)], mover));
            }
        }
        if opp_ahead(b, mover, q) && b.off_of(o) == 0 {
            let x = choose|x: int| 1 <= x < q && #[trigger] b.own(o, x) > 0;
            assert(holds(b.points[phys_spec(o, x)], o));
        }
        if exists|x: int| 1 <= x < q && holds(#[trigger] b.points[phys_spec(o, x)], o) {
            let x = choose|x: int| 1 <= x < q && holds(#[trigger] b.points[phys_spec(o, x)], o);
            assert(b.own(o, x) > 0);
        }
    }
    if illegal_prime_spec(b, mover) {
        let q = choose|q: int| 1 <= q <= 19 && #[trigger] wall_at(b, mover, q) && !opp_ahead(b, mover, q);
        assert(wall_at(b, mover, q) && !opp_ahead(b, mover, q));
        assert(owns_cell(b, mover, phys_spec(o, q)));
    }
    if exists|q: int| #![trigger b.points[phys_spec(o, q)]] 1 <= q <= 19
        && holds(b.points[phys_spec(o, q)], mover)
        && (forall|x: int| q <= x <= q + 5 ==> holds(#[trigger] b.points[phys_spec(o, x)], mover))
        && b.off[o.spec_index() as int] == 0
        && (forall|x: int| 1 <= x < q ==> !holds(#[trigger] b.points[phys_spec(o, x)], o))
    {
        let q = choose|q: int| #![trigger b.points[phys_spec(o, q)]] 1 <= q <= 19
            && holds(b.points[phys_spec(o, q)], mover)
            && (forall|x: int| q <= x <= q + 5 ==> holds(#[trigger] b.points[phys_spec(o, x)], mover))
            && b.off[o.spec_index() as int] == 0
            && (forall|x: int| 1 <= x < q ==> !holds(#[trigger] b.points[phys_spec(o, x)], o));
        assert(wall_at(b, mover, q) && !opp_ahead(b, mover, q));
    }
}

/// A sub-move that lands on the board never leaves a full prime: after it
/// there is no start `q` in `1..=19` with the mover on all of the opponent's
/// positions `q..=q+5`, the opponent having borne off nothing and having no
/// checker below `q`.
pub proof fn lemma_move_leaves_no_prime(b: BoardView, p: Player, from: int, die: int, head_ok: bool)
    requires
        submove_spec(b, p, from, die, head_ok) matches Some((nb, m)) && !m.bear_off,
    ensures
        ({
            let nb = sub_board(b, p, from, die, head_ok);
            !exists|q: int| #![trigger nb.points[phys_spec(p.spec_opponent(), q)]] 1 <= q <= 19
                && holds(nb.points[phys_spec(p.spec_opponent(), q)], p)
                && (forall|x: int| q <= x <= q + 5 ==> holds(
                    #[trigger] nb.points[phys_spec(p.spec_opponent(), x)], p))
                && nb.off[p.spec_opponent().spec_index() as int] == 0
                && (forall|x: int| 1 <= x < q ==> !holds(
                    #[trigger] nb.points[phys_spec(p.spec_opponent(), x)], p.spec_opponent()))
        }),
{
    lemma_prime_rule(sub_board(b, p, from, die, head_ok), p);
}

/// A legal sub-move keeps the board well formed; a normal move keeps every
/// checker on the board, a bear-off moves exactly one checker off.
pub proof fn lemma_submove_wf(b: BoardView, p: Player, from: int, die: int, head_ok: bool)
    requires
        b.wf(),
        1 <= from <= 24,
        1 <= die <= 6,
        submove_spec(b, p, from, die, head_ok) is Some,
    ensures
        sub_board(b, p, from, die, head_ok).wf(),
{
    if from - die >= 1 {
        b.lemma_moved(p, from, from - die);
    } else {
        b.lemma_borne(p, from);
    }
}

/// A copy of a move list.
fn copy_moves(v: &Vec<CheckerMove>) -> (r: Vec<CheckerMove>)
    ensures
        r@ == v@,
{
    let mut r: Vec<CheckerMove> = Vec::new();
    let mut i: usize = 0;
    while i < v.len()
        invariant
            i <= v@.len(),
            r@ == v@.subrange(0, i as int),
        decreases v@.len() - i,
    {
        r.push(v[i]);
        i += 1;
        assert(r@ =~= v@.subrange(0, i as int));
    }
    assert(r@ =~= v@);
    r
}

/// A recorded leaf holds exactly the move list `moves` and the board `end`.
pub open spec fn same_leaf(leaf: (Vec<CheckerMove>, Board), moves: Seq<CheckerMove>, end: BoardView) -> bool {
    leaf.0@ == moves && leaf.1@ == end
}

/// A recorded leaf extends the current prefix by a maximal play.
pub open spec fn leaf_ok(
    b: BoardView,
    p: Player,
    counts: Seq<u8>,
    hu: int,
    budget: int,
    prefix: Seq<CheckerMove>,
    leaf: (Vec<CheckerMove>, Board),
) -> bool {
    &&& leaf.0@.len() >= prefix.len()
    &&& leaf.0@.subrange(0, prefix.len() as int) == prefix
    &&& full_play_from(b, p, counts, hu, budget, leaf.0@.skip(prefix.len() as int), leaf.1@)
}

/// A recorded leaf as plain values: its sub-moves and its board.
pub open spec fn leaf_view(l: (Vec<CheckerMove>, Board)) -> (Seq<CheckerMove>, BoardView) {
    (l.0@, l.1@)
}

/// Recorded leaves as plain values, in order.
pub open spec fn leaves_view(ls: Seq<(Vec<CheckerMove>, Board)>) -> Seq<(Seq<CheckerMove>, BoardView)> {
    ls.map_values(|l: (Vec<CheckerMove>, Board)| leaf_view(l))
}

/// The leaves the depth-first search lists from a state, in the order it
/// lists them: below every legal sub-move, dice face `1..=6` outermost and
/// starting position `1..=24` innermost; the state itself when no sub-move
/// is legal.
pub open spec fn leaves_of(b: BoardView, p: Player, counts: Seq<u8>, hu: int, bu: int, moves: Seq<CheckerMove>)
    -> Seq<(Seq<CheckerMove>, BoardView)>
    decreases counts_sum(counts), 2int, 0int, 0int,
{
    if can_move(b, p, counts, hu < bu) {
        branch_leaves(b, p, counts, hu, bu, moves, 1, 1)
    } else {
        seq![(moves, b)]
    }
}

/// The leaves below the sub-moves from face `die`, position `from` onward.
pub open spec fn branch_leaves(b: BoardView, p: Player, counts: Seq<u8>, hu: int, bu: int, moves: Seq<CheckerMove>,
    die: int, from: int) -> Seq<(Seq<CheckerMove>, BoardView)>
    decreases counts_sum(counts), 1int, 7 - die, 25 - from,
{
    if die < 1 || die > 6 {
        Seq::empty()
    } else if counts[die] == 0 || from < 1 || from > 24 {
        branch_leaves(b, p, counts, hu, bu, moves, die + 1, 1)
    } else {
        step_leaves(b, p, counts, hu, bu, moves, die, from) + branch_leaves(b, p, counts, hu, bu, moves, die, from + 1)
    }
}

/// The leaves below the sub-move of face `die` from `from`, if it is legal.
pub open spec fn step_leaves(b: BoardView, p: Player, counts: Seq<u8>, hu: int, bu: int, moves: Seq<CheckerMove>,
    die: int, from: int) -> Seq<(Seq<CheckerMove>, BoardView)>
    decreases counts_sum(counts), 0int, 0int, 0int,
{
    match submove_spec(b, p, from, die, hu < bu) {
        Some(x) => if counts.len() == 7 && 1 <= die <= 6 && counts[die] > 0 {
            leaves_of(x.0, p, counts.update(die, (counts[die] - 1) as u8), hu + (if from == 24 { 1int } else { 0int }),
                bu, moves.push(x.1))
        } else {
            Seq::empty()
        },
        None => Seq::empty(),
    }
}

/// A leaf recorded below a legal first sub-move is a leaf of the parent.
proof fn lemma_extend_sound(
    b: BoardView,
    p: Player,
    c: Seq<u8>,
    hu: int,
    bu: int,
    prefix: Seq<CheckerMove>,
    from: int,
    die: int,
    leaf: (Vec<CheckerMove>, Board),
)
    requires
        c.len() == 7,
        1 <= from <= 24,
        1 <= die <= 6,
        c[die] > 0,
        submove_spec(b, p, from, die, hu < bu) is Some,
        leaf_ok(sub_board(b, p, from, die, hu < bu), p, c.update(die, (c[die] - 1) as u8),
            hu + head_step(sub_move_of(b, p, from, die, hu < bu)), bu,
            prefix.push(sub_move_of(b, p, from, die, hu < bu)), leaf),
    ensures
        leaf_ok(b, p, c, hu, bu, prefix, leaf),
{
    let mv = sub_move_of(b, p, from, die, hu < bu);
    let pre = prefix.push(mv);
    let tail = leaf.0@.skip(pre.len() as int);
    let s = leaf.0@.skip(prefix.len() as int);
    assert(leaf.0@.subrange(0, prefix.len() as int) =~= pre.subrange(0, prefix.len() as int));
    assert(pre.subrange(0, prefix.len() as int) =~= prefix);
    assert(s[0] == leaf.0@[prefix.len() as int]);
    assert(leaf.0@.subrange(0, pre.len() as int)[prefix.len() as int] == mv);
    assert(s.drop_first() =~= tail);
    assert(mv.from == from && mv.die == die);
    assert(s.len() > 0);
    assert(s[0] == mv);
    assert(full_play_from(sub_board(b, p, from, die, hu < bu), p, c.update(die, (c[die] - 1) as u8),
            hu + head_step(mv), bu, tail, leaf.1@));
    assert(full_play_from(b, p, c, hu, bu, s, leaf.1@));
}

/// A maximal play starting with a given legal sub-move continues as a
/// maximal play from the board after it.
proof fn lemma_extend_complete(
    b: BoardView,
    p: Player,
    c: Seq<u8>,
    hu: int,
    bu: int,
    prefix: Seq<CheckerMove>,
    s: Seq<CheckerMove>,
    end: BoardView,
)
    requires
        full_play_from(b, p, c, hu, bu, s, end),
        s.len() > 0,
    ensures
        submove_spec(b, p, s[0].from as int, s[0].die as int, hu < bu) is Some,
        sub_move_of(b, p, s[0].from as int, s[0].die as int, hu < bu) == s[0],
        full_play_from(sub_board(b, p, s[0].from as int, s[0].die as int, hu < bu), p,
            c.update(s[0].die as int, (c[s[0].die as int] - 1) as u8), hu + head_step(s[0]), bu, s.drop_first(), end),
        prefix.push(s[0]) + s.drop_first() == prefix + s,
{
    assert(prefix.push(s[0]) + s.drop_first() =~= prefix + s);
}

/// The leaves below one candidate first sub-move (`die` from `from`):
/// plays it if legal, explores from the resulting board, and undoes it.
/// Returns whether the sub-move was legal.
#[verifier::rlimit(30)]
fn explore_one(
    board: &Board,
    player: Player,
    counts: &mut [u8; 7],
    head_used: u8,
    head_budget: u8,
    moves: &mut Vec<CheckerMove>,
    out: &mut Vec<(Vec<CheckerMove>, Board)>,
    die: u8,
    from: u8,
) -> (ext: bool)
    requires
        board@.wf(),
        head_used as int + counts_sum(old(counts)@) <= 4,
        1 <= die <= 6,
        1 <= from <= 24,
        old(counts)@[die as int] > 0,
    ensures
        final(counts)@ == old(counts)@,
        final(moves)@ == old(moves)@,
        final(out)@.len() >= old(out)@.len(),
        forall|k: int| 0 <= k < old(out)@.len() ==> final(out)@[k] == old(out)@[k],
        forall|k: int| old(out)@.len() <= k < final(out)@.len() ==> #[trigger] leaf_ok(board@, player,
            old(counts)@, head_used as int, head_budget as int, old(moves)@, final(out)@[k]),
        ext == (submove_spec(board@, player, from as int, die as int, head_used < head_budget) is Some),
        leaves_view(final(out)@) == leaves_view(old(out)@) + step_leaves(board@, player, old(counts)@,
            head_used as int, head_budget as int, old(moves)@, die as int, from as int),
        !ext ==> final(out)@ == old(out)@,
        forall|s: Seq<CheckerMove>, end: BoardView| #[trigger] full_play_from(board@, player, old(counts)@,
            head_used as int, head_budget as int, s, end) && s.len() > 0 && s[0].die == die && s[0].from == from
            ==> exists|k: int| old(out)@.len() <= k < final(out)@.len()
                && (#[trigger] final(out)@[k]).0@ == old(moves)@ + s && final(out)@[k].1@ == end,
    decreases counts_sum(old(counts)@), 0int,
{
    let ghost c0 = counts@;
    let ghost m0 = moves@;
    let ghost o0 = out@;
    let ghost b0 = board@;
    let ghost hu = head_used as int;
    let ghost bu = head_budget as int;
    let r = try_submove(board, player, from, die, head_used, head_budget);
    match r {
        Some((nb, mv)) => {
            let nhead = head_used + if from == HEAD_POS { 1u8 } else { 0u8 };
            counts[die as usize] -= 1;
            moves.push(mv);
            proof {
                assert(counts@ == c0.update(die as int, (c0[die as int] - 1) as u8));
                assert(counts_sum(counts@) == counts_sum(c0) - 1);
                lemma_submove_wf(b0, player, from as int, die as int, hu < bu);
            }
            explore(&nb, player, counts, nhead, head_budget, moves, out);
            moves.pop();
            counts[die as usize] += 1;
            proof {
                assert(counts@ =~= c0);
                assert(moves@ =~= m0);
                assert forall|k: int| o0.len() <= k < out@.len() implies #[trigger] leaf_ok(b0, player, c0, hu, bu, m0, out@[k]) by {
                    lemma_extend_sound(b0, player, c0, hu, bu, m0, from as int, die as int, out@[k]);
                }
                assert forall|s: Seq<CheckerMove>, end: BoardView| #[trigger] full_play_from(b0, player, c0, hu, bu, s, end)
                    && s.len() > 0 && s[0].die == die && s[0].from == from
                    implies exists|k: int| o0.len() <= k < out@.len()
                        && same_leaf(#[trigger] out@[k], m0 + s, end) by {
                    lemma_extend_complete(b0, player, c0, hu, bu, m0, s, end);
                    let k = choose|k: int| o0.len() <= k < out@.len()
                        && same_leaf(#[trigger] out@[k], m0.push(mv) + s.drop_first(), end);
                }
            }
            true
        }
        None => {
            proof {
                assert forall|s: Seq<CheckerMove>, end: BoardView| #[trigger] full_play_from(b0, player, c0, hu, bu, s, end)
                    && s.len() > 0 && s[0].die == die && s[0].from == from
                    implies false by {
                    lemma_extend_complete(b0, player, c0, hu, bu, m0, s, end);
                }
            }
            false
        }
    }
}

/// Depth-first enumeration of every maximal sub-move sequence. A result is
/// recorded only at leaves (positions from which no further sub-move is
/// legal), so "use as many dice as possible" reduces to keeping the deepest
/// leaves.
#[verifier::rlimit(30)]
fn explore(
    board: &Board,
    player: Player,
    counts: &mut [u8; 7],
    head_used: u8,
    head_budget: u8,
    moves: &mut Vec<CheckerMove>,
    out: &mut Vec<(Vec<CheckerMove>, Board)>,
)
    requires
        board@.wf(),
        head_used as int + counts_sum(old(counts)@) <= 4,
    ensures
        final(counts)@ == old(counts)@,
        final(moves)@ == old(moves)@,
        final(out)@.len() >= old(out)@.len(),
        forall|k: int| 0 <= k < old(out)@.len() ==> final(out)@[k] == old(out)@[k],
        forall|k: int| old(out)@.len() <= k < final(out)@.len() ==> #[trigger] leaf_ok(board@, player,
            old(counts)@, head_used as int, head_budget as int, old(moves)@, final(out)@[k]),
        forall|s: Seq<CheckerMove>, end: BoardView| #[trigger] full_play_from(board@, player, old(counts)@,
            head_used as int, head_budget as int, s, end) ==> exists|k: int| old(out)@.len() <= k < final(out)@.len()
                && (#[trigger] final(out)@[k]).0@ == old(moves)@ + s && final(out)@[k].1@ == end,
        leaves_view(final(out)@) == leaves_view(old(out)@) + leaves_of(board@, player, old(counts)@,
            head_used as int, head_budget as int, old(moves)@),
    decreases counts_sum(old(counts)@), 1int,
{
    let ghost c0 = counts@;
    let ghost m0 = moves@;
    let ghost o0 = out@;
    let ghost b0 = board@;
    let ghost hu = head_used as int;
    let ghost bu = head_budget as int;
    let ghost ok = hu < bu;
    let mut extended = false;
    let mut die: u8 = 1;
    while die <= 6
        invariant
            1 <= die <= 7,
            counts@ == c0,
            c0 == old(counts)@,
            moves@ == m0,
            board@ == b0,
            b0.wf(),
            hu == head_used as int,
            bu == head_budget as int,
            ok == (hu < bu),
            head_used as int + counts_sum(c0) <= 4,
            out@.len() >= o0.len(),
            forall|k: int| 0 <= k < o0.len() ==> out@[k] == o0[k],
            forall|k: int| o0.len() <= k < out@.len() ==> #[trigger] leaf_ok(b0, player, c0, hu, bu, m0, out@[k]),
            extended == exists|d: int, f: int| 1 <= d < die && c0[d] > 0 && 1 <= f <= 24
                && (#[trigger] submove_spec(b0, player, f, d, ok)) is Some,
            leaves_view(out@) + branch_leaves(b0, player, c0, hu, bu, m0, die as int, 1)
                == leaves_view(o0) + branch_leaves(b0, player, c0, hu, bu, m0, 1, 1),
            !extended ==> out@ == o0,
            c0.len() == 7,
            forall|s: Seq<CheckerMove>, end: BoardView| #[trigger] full_play_from(b0, player, c0, hu, bu, s, end)
                && s.len() > 0 && s[0].die < die ==> exists|k: int| o0.len() <= k < out@.len()
                    && same_leaf(#[trigger] out@[k], m0 + s, end),
        decreases 7 - die,
    {
        if counts[die as usize] == 0 {
            proof {
                            assert forall|s: Seq<CheckerMove>, end: BoardView| #[trigger] full_play_from(b0, player, c0, hu, bu, s, end)
                    && s.len() > 0 && s[0].die < die + 1 implies exists|k: int| o0.len() <= k < out@.len()
                        && same_leaf(#[trigger] out@[k], m0 + s, end) by {
                    if s[0].die == die {
                        assert(c0[s[0].die as int] > 0);
                    }
                }
            }
            assert(branch_leaves(b0, player, c0, hu, bu, m0, die as int, 1)
                == branch_leaves(b0, player, c0, hu, bu, m0, die as int + 1, 1));
            die += 1;
            continue;
        }
        let mut from: u8 = 1;
        while from <= HEAD_POS
            invariant
                1 <= die <= 6,
                1 <= from <= 25,
                c0[die as int] > 0,
                counts@ == c0,
                c0 == old(counts)@,
                moves@ == m0,
                board@ == b0,
                b0.wf(),
                hu == head_used as int,
                bu == head_budget as int,
                ok == (hu < bu),
                head_used as int + counts_sum(c0) <= 4,
                out@.len() >= o0.len(),
                forall|k: int| 0 <= k < o0.len() ==> out@[k] == o0[k],
                forall|k: int| o0.len() <= k < out@.len() ==> #[trigger] leaf_ok(b0, player, c0, hu, bu, m0, out@[k]),
                extended == exists|d: int, f: int| 1 <= d <= die && c0[d] > 0 && 1 <= f <= 24
                    && (d < die || f < from) && (#[trigger] submove_spec(b0, player, f, d, ok)) is Some,
                leaves_view(out@) + branch_leaves(b0, player, c0, hu, bu, m0, die as int, from as int)
                    == leaves_view(o0) + branch_leaves(b0, player, c0, hu, bu, m0, 1, 1),
                !extended ==> out@ == o0,
                c0.len() == 7,
                forall|s: Seq<CheckerMove>, end: BoardView| #[trigger] full_play_from(b0, player, c0, hu, bu, s, end)
                    && s.len() > 0 && (s[0].die < die || (s[0].die == die && s[0].from < from))
                    ==> exists|k: int| o0.len() <= k < out@.len()
                        && same_leaf(#[trigger] out@[k], m0 + s, end),
            decreases 25 - from,
        {
            let ghost before = out@;
            let ext = explore_one(board, player, counts, head_used, head_budget, moves, out, die, from);
            proof {
                let st = step_leaves(b0, player, c0, hu, bu, m0, die as int, from as int);
                let rest = branch_leaves(b0, player, c0, hu, bu, m0, die as int, from as int + 1);
                assert(branch_leaves(b0, player, c0, hu, bu, m0, die as int, from as int) == st + rest);
                assert(leaves_view(before) + (st + rest) =~= (leaves_view(before) + st) + rest);
                assert forall|s: Seq<CheckerMove>, end: BoardView| #[trigger] full_play_from(b0, player, c0, hu, bu, s, end)
                    && s.len() > 0 && (s[0].die < die || (s[0].die == die && s[0].from < from + 1))
                    implies exists|k: int| o0.len() <= k < out@.len()
                        && same_leaf(#[trigger] out@[k], m0 + s, end) by {
                    if s[0].die == die && s[0].from == from {
                    } else {
                        let k = choose|k: int| o0.len() <= k < before.len()
                            && same_leaf(#[trigger] before[k], m0 + s, end);
                        assert(out@[k] == before[k]);
                    }
                }
            }
            if ext {
                extended = true;
            }
            from += 1;
        }
        assert(branch_leaves(b0, player, c0, hu, bu, m0, die as int, from as int)
            == branch_leaves(b0, player, c0, hu, bu, m0, die as int + 1, 1));
        die += 1;
    }
    assert(branch_leaves(b0, player, c0, hu, bu, m0, die as int, 1) =~= Seq::<(Seq<CheckerMove>, BoardView)>::empty());
    assert(leaves_view(out@) =~= leaves_view(o0) + branch_leaves(b0, player, c0, hu, bu, m0, 1, 1));
    if !extended {
        let ghost before = out@;
        out.push((copy_moves(moves), *board));
        proof {
            assert(leaves_view(o0) + branch_leaves(b0, player, c0, hu, bu, m0, 1, 1) =~= leaves_view(o0));
            assert(leaves_view(out@) =~= leaves_view(before).push((m0, b0)));
                    assert(!can_move(b0, player, c0, ok));
            let leaf = out@[before.len() as int];
            assert(leaf.0@.skip(m0.len() as int) =~= Seq::<CheckerMove>::empty());
            assert(leaf.0@.subrange(0, m0.len() as int) =~= m0);
            assert forall|s: Seq<CheckerMove>, end: BoardView| #[trigger] full_play_from(b0, player, c0, hu, bu, s, end)
                implies exists|k: int| o0.len() <= k < out@.len()
                    && same_leaf(#[trigger] out@[k], m0 + s, end) by {
                if s.len() == 0 {
                    assert(m0 + s =~= m0);
                    assert(out@[before.len() as int].0@ == m0 + s);
                } else {
                    lemma_extend_complete(b0, player, c0, hu, bu, m0, s, end);
                }
            }
        }
    } else {
        proof {
                    assert forall|s: Seq<CheckerMove>, end: BoardView| #[trigger] full_play_from(b0, player, c0, hu, bu, s, end)
                implies exists|k: int| o0.len() <= k < out@.len()
                    && same_leaf(#[trigger] out@[k], m0 + s, end) by {
                if s.len() == 0 {
                    assert(can_move(b0, player, c0, ok));
                }
            }
        }
    }
}

// ---------------------------------------------------------------------------
// From leaves to turns
// ---------------------------------------------------------------------------

/// Dice available at the start of a turn, per face: two dice, or four of a
/// kind for a double.
pub open spec fn initial_counts(dice: [u8; 2]) -> Seq<u8> {
    let z = Seq::new(7, |i: int| 0u8);
    if dice[0] == dice[1] {
        z.update(dice[0] as int, 4u8)
    } else {
        z.update(dice[0] as int, 1u8).update(dice[1] as int, 1u8)
    }
}

/// `moves` is a maximal play for `p` from `b` with `dice`, at most `budget`
/// checkers leaving the head, ending on board `end`.
#[verifier::opaque]
pub open spec fn is_play(b: BoardView, p: Player, dice: [u8; 2], budget: int, moves: Seq<CheckerMove>, end: BoardView) -> bool {
    full_play_from(b, p, initial_counts(dice), 0, budget, moves, end)
}

/// `d` is the largest number of dice any maximal play uses.
pub open spec fn longest(b: BoardView, p: Player, dice: [u8; 2], budget: int, d: int) -> bool {
    &&& exists|s: Seq<CheckerMove>, end: BoardView| #[trigger] is_play(b, p, dice, budget, s, end) && s.len() == d
    &&& forall|s: Seq<CheckerMove>, end: BoardView| #[trigger] is_play(b, p, dice, budget, s, end) ==> s.len() <= d
}

/// The higher of the two dice.
pub open spec fn larger_die(dice: [u8; 2]) -> u8 {
    if dice[0] >= dice[1] { dice[0] } else { dice[1] }
}

/// Only one of two distinct dice can be played, and the higher one can: then
/// it must be the higher one.
pub open spec fn larger_rule(b: BoardView, p: Player, dice: [u8; 2], budget: int) -> bool {
    &&& dice[0] != dice[1]
    &&& longest(b, p, dice, budget, 1)
    &&& exists|s: Seq<CheckerMove>, end: BoardView| #[trigger] is_play(b, p, dice, budget, s, end)
        && s.len() == 1 && s[0].die == larger_die(dice)
}

/// A legal turn: a maximal play using as many dice as possible, and the
/// higher die when only one of two can be played.
pub open spec fn turn_spec(b: BoardView, p: Player, dice: [u8; 2], budget: int, moves: Seq<CheckerMove>, end: BoardView) -> bool {
    &&& is_play(b, p, dice, budget, moves, end)
    &&& longest(b, p, dice, budget, moves.len() as int)
    &&& larger_rule(b, p, dice, budget) ==> moves[0].die == larger_die(dice)
}

/// From any state some maximal play exists (each sub-move uses up a die).
pub proof fn lemma_full_play_exists(b: BoardView, p: Player, counts: Seq<u8>, hu: int, bu: int)
    requires
        counts.len() == 7,
    ensures
        exists|s: Seq<CheckerMove>, end: BoardView| #[trigger] full_play_from(b, p, counts, hu, bu, s, end),
    decreases counts_sum(counts),
{
    if !can_move(b, p, counts, hu < bu) {
        assert(full_play_from(b, p, counts, hu, bu, Seq::<CheckerMove>::empty(), b));
    } else {
        let ok = hu < bu;
        let (die, from) = choose|die: int, from: int|
            1 <= die <= 6 && counts[die] > 0 && 1 <= from <= 24
                && (#[trigger] submove_spec(b, p, from, die, ok)) is Some;
        let nb = sub_board(b, p, from, die, hu < bu);
        let mv = sub_move_of(b, p, from, die, hu < bu);
        let c1 = counts.update(die, (counts[die] - 1) as u8);
        assert(mv.from == from && mv.die == die);
        lemma_full_play_exists(nb, p, c1, hu + head_step(mv), bu);
        let (s1, end) = choose|s: Seq<CheckerMove>, end: BoardView| #[trigger] full_play_from(nb, p, c1, hu + head_step(mv), bu, s, end);
        let s = seq![mv] + s1;
        assert(s.drop_first() =~= s1);
        assert(full_play_from(b, p, counts, hu, bu, s, end));
    }
}

/// The leaves are exactly the maximal plays of a turn (and there is one).
pub open spec fn leaves_exact(b: BoardView, p: Player, dice: [u8; 2], bu: int, out: Seq<(Vec<CheckerMove>, Board)>) -> bool {
    &&& forall|k: int| 0 <= k < out.len() ==> #[trigger] is_play(b, p, dice, bu, out[k].0@, out[k].1@)
    &&& forall|s: Seq<CheckerMove>, end: BoardView| #[trigger] is_play(b, p, dice, bu, s, end)
        ==> exists|k: int| 0 <= k < out.len() && same_leaf(#[trigger] out[k], s, end)
    &&& out.len() > 0
}

/// The leaves recorded from the start of a turn are exactly its maximal plays.
proof fn lemma_root_leaves(b: BoardView, p: Player, dice: [u8; 2], bu: int, out: Seq<(Vec<CheckerMove>, Board)>)
    requires
        dice[0] <= 6,
        dice[1] <= 6,
        forall|k: int| 0 <= k < out.len() ==> leaf_ok(b, p, initial_counts(dice), 0, bu,
            Seq::<CheckerMove>::empty(), #[trigger] out[k]),
        forall|s: Seq<CheckerMove>, end: BoardView| #[trigger] full_play_from(b, p, initial_counts(dice), 0, bu, s, end)
            ==> exists|k: int| 0 <= k < out.len() && (#[trigger] out[k]).0@ == Seq::<CheckerMove>::empty() + s
                && out[k].1@ == end,
    ensures
        forall|k: int| 0 <= k < out.len() ==> #[trigger] is_play(b, p, dice, bu, out[k].0@, out[k].1@),
        forall|s: Seq<CheckerMove>, end: BoardView| #[trigger] is_play(b, p, dice, bu, s, end)
            ==> exists|k: int| 0 <= k < out.len() && same_leaf(#[trigger] out[k], s, end),
        out.len() > 0,
{
    reveal(is_play);
    assert forall|k: int| 0 <= k < out.len() implies #[trigger] is_play(b, p, dice, bu, out[k].0@, out[k].1@) by {
        assert(leaf_ok(b, p, initial_counts(dice), 0, bu, Seq::<CheckerMove>::empty(), out[k]));
        assert(out[k].0@.skip(0) =~= out[k].0@);
    }
    assert forall|s: Seq<CheckerMove>, end: BoardView| #[trigger] is_play(b, p, dice, bu, s, end)
        implies exists|k: int| 0 <= k < out.len() && same_leaf(#[trigger] out[k], s, end) by {
        assert(full_play_from(b, p, initial_counts(dice), 0, bu, s, end));
        assert(Seq::<CheckerMove>::empty() + s =~= s);
    }
    lemma_full_play_exists(b, p, initial_counts(dice), 0, bu);
    let (s, end) = choose|s: Seq<CheckerMove>, end: BoardView| #[trigger] full_play_from(b, p, initial_counts(dice), 0, bu, s, end);
    assert(is_play(b, p, dice, bu, s, end));
}

/// The deepest recorded leaf has the length of a longest play.
proof fn lemma_root_longest(b: BoardView, p: Player, dice: [u8; 2], bu: int, out: Seq<(Vec<CheckerMove>, Board)>, md: int)
    requires
        forall|k: int| 0 <= k < out.len() ==> #[trigger] is_play(b, p, dice, bu, out[k].0@, out[k].1@),
        forall|s: Seq<CheckerMove>, end: BoardView| #[trigger] is_play(b, p, dice, bu, s, end)
            ==> exists|k: int| 0 <= k < out.len() && same_leaf(#[trigger] out[k], s, end),
        out.len() > 0,
        forall|k: int| 0 <= k < out.len() ==> (#[trigger] out[k]).0@.len() <= md,
        exists|k: int| 0 <= k < out.len() && (#[trigger] out[k]).0@.len() == md,
    ensures
        longest(b, p, dice, bu, md),
{
    let k = choose|k: int| 0 <= k < out.len() && (#[trigger] out[k]).0@.len() == md;
    assert(is_play(b, p, dice, bu, out[k].0@, out[k].1@));
    assert forall|s: Seq<CheckerMove>, end: BoardView| #[trigger] is_play(b, p, dice, bu, s, end)
        implies s.len() <= md by {
        let j = choose|j: int| 0 <= j < out.len() && same_leaf(#[trigger] out[j], s, end);
    }
}

/// The dice of a roll counted per face.
fn dice_counts(dice: [u8; 2]) -> (c: [u8; 7])
    requires
        dice[0] <= 6,
        dice[1] <= 6,
    ensures
        c@ == initial_counts(dice),
        counts_sum(c@) <= 4,
{
    let mut counts = [0u8; 7];
    if dice[0] == dice[1] {
        counts[dice[0] as usize] = 4;
    } else {
        counts[dice[0] as usize] += 1;
        counts[dice[1] as usize] += 1;
    }
    assert(counts@ =~= initial_counts(dice));
    counts
}

/// Length of the longest move list among the leaves (0 if none).
fn max_leaf_len(out: &Vec<(Vec<CheckerMove>, Board)>) -> (md: usize)
    ensures
        forall|k: int| 0 <= k < out@.len() ==> (#[trigger] out@[k]).0@.len() <= md,
        out@.len() > 0 ==> exists|k: int| 0 <= k < out@.len() && (#[trigger] out@[k]).0@.len() == md,
{
    let mut max_depth: usize = 0;
    let mut i: usize = 0;
    while i < out.len()
        invariant
            i <= out@.len(),
            forall|k: int| 0 <= k < i ==> (#[trigger] out@[k]).0@.len() <= max_depth,
            i == 0 ==> max_depth == 0,
            i > 0 ==> exists|k: int| 0 <= k < i && (#[trigger] out@[k]).0@.len() == max_depth,
        decreases out@.len() - i,
    {
        if out[i].0.len() > max_depth {
            max_depth = out[i].0.len();
        }
        i += 1;
    }
    max_depth
}

/// Enumerate every maximal sub-move sequence under a fixed head budget,
/// returning the leaves and the maximum depth reached.
fn enumerate(
    board: &Board,
    player: Player,
    dice: [u8; 2],
    head_budget: u8,
) -> (r: (Vec<(Vec<CheckerMove>, Board)>, usize))
    requires
        board@.wf(),
        dice[0] <= 6,
        dice[1] <= 6,
    ensures
        leaves_exact(board@, player, dice, head_budget as int, r.0@),
        leaves_view(r.0@) == leaves_of(board@, player, initial_counts(dice), 0, head_budget as int, Seq::empty()),
        longest(board@, player, dice, head_budget as int, r.1 as int),
        r.1 as int == depth_of(board@, player, dice, head_budget as int),
        forall|k: int| 0 <= k < r.0@.len() ==> (#[trigger] r.0@[k]).0@.len() <= r.1,
{
    let mut counts = dice_counts(dice);
    let ghost c0 = counts@;
    let mut out: Vec<(Vec<CheckerMove>, Board)> = Vec::new();
    let mut moves: Vec<CheckerMove> = Vec::new();
    explore(board, player, &mut counts, 0, head_budget, &mut moves, &mut out);
    proof {
        assert(leaves_view(Seq::<(Vec<CheckerMove>, Board)>::empty()) =~= Seq::empty());
        lemma_root_leaves(board@, player, dice, head_budget as int, out@);
    }
    let max_depth = max_leaf_len(&out);
    proof {
        lemma_root_longest(board@, player, dice, head_budget as int, out@, max_depth as int);
        lemma_longest_unique(board@, player, dice, head_budget as int, max_depth as int,
            depth_of(board@, player, dice, head_budget as int));
    }
    (out, max_depth)
}

/// The number of dice the longest plays use.
pub open spec fn depth_of(b: BoardView, p: Player, dice: [u8; 2], bu: int) -> int {
    choose|d: int| longest(b, p, dice, bu, d)
}

/// The larger-die rule over listed leaves of depth `max_depth`.
pub open spec fn rule_of(lv: Seq<(Seq<CheckerMove>, BoardView)>, dice: [u8; 2], max_depth: int) -> bool {
    &&& max_depth == 1
    &&& dice[0] != dice[1]
    &&& exists|k: int| 0 <= k < lv.len() && (#[trigger] lv[k]).0.len() == 1 && lv[k].0[0].die == larger_die(dice)
}

/// A listed leaf survives the maximal-use and larger-die filters.
pub open spec fn kept(lv: Seq<(Seq<CheckerMove>, BoardView)>, dice: [u8; 2], max_depth: int,
    l: (Seq<CheckerMove>, BoardView)) -> bool
{
    &&& l.0.len() == max_depth
    &&& rule_of(lv, dice, max_depth) ==> l.0[0].die == larger_die(dice)
}

/// Some entry of `ts` ends on board `e`.
pub open spec fn has_board(ts: Seq<(Seq<CheckerMove>, BoardView)>, e: BoardView) -> bool {
    exists|t: int| 0 <= t < ts.len() && (#[trigger] ts[t]).1 == e
}

/// The turns made from the first `n` listed leaves: each surviving leaf in
/// order, unless an earlier one already ends on its board.
pub open spec fn collapsed(lv: Seq<(Seq<CheckerMove>, BoardView)>, dice: [u8; 2], max_depth: int, n: int)
    -> Seq<(Seq<CheckerMove>, BoardView)>
    decreases n,
{
    if n <= 0 {
        Seq::empty()
    } else {
        let prev = collapsed(lv, dice, max_depth, n - 1);
        if kept(lv, dice, max_depth, lv[n - 1]) && !has_board(prev, lv[n - 1].1) {
            prev.push(lv[n - 1])
        } else {
            prev
        }
    }
}

/// A turn as plain values: its sub-moves and its board.
pub open spec fn turn_view(t: Turn) -> (Seq<CheckerMove>, BoardView) {
    (t.moves@, t.board@)
}

/// Turns as plain values, in order.
pub open spec fn turns_view(ts: Seq<Turn>) -> Seq<(Seq<CheckerMove>, BoardView)> {
    ts.map_values(|t: Turn| turn_view(t))
}

/// Exactly the turns the generator returns, in its order: the leaves of the
/// search under the head budget that applies, collapsed as above.
pub open spec fn generated(b: BoardView, p: Player, dice: [u8; 2], first_turn: bool, head_limit: Option<u8>)
    -> Seq<(Seq<CheckerMove>, BoardView)>
{
    let bb = base_budget(head_limit);
    let bu = if exception_roll(dice, first_turn, head_limit) && depth_of(b, p, dice, 2) > depth_of(b, p, dice, bb) {
        2
    } else {
        bb
    };
    let lv = leaves_of(b, p, initial_counts(dice), 0, bu, Seq::empty());
    collapsed(lv, dice, depth_of(b, p, dice, bu), lv.len() as int)
}

/// Whether two boards hold the same position.
fn same_board(a: &Board, b: &Board) -> (r: bool)
    ensures
        r == (a@ == b@),
{
    let mut c: usize = 0;
    while c < 24
        invariant
            c <= 24,
            forall|x: int| 0 <= x < c ==> a.points@[x] == b.points@[x],
        decreases 24 - c,
    {
        if a.points[c] != b.points[c] {
            assert(a@.points[c as int] != b@.points[c as int]);
            return false;
        }
        c += 1;
    }
    if a.off[0] != b.off[0] || a.off[1] != b.off[1] {
        assert(a@.off[0] != b@.off[0] || a@.off[1] != b@.off[1]);
        return false;
    }
    assert(a@.points =~= b@.points);
    assert(a@.off =~= b@.off);
    true
}

/// The larger-die rule over a list of leaves of depth `max_depth`.
pub open spec fn leaf_rule(leaves: Seq<(Vec<CheckerMove>, Board)>, dice: [u8; 2], max_depth: int) -> bool {
    &&& max_depth == 1
    &&& dice[0] != dice[1]
    &&& exists|k: int| 0 <= k < leaves.len() && (#[trigger] leaves[k]).0@.len() == 1
        && leaves[k].0@[0].die == larger_die(dice)
}

/// A leaf survives the maximal-use and larger-die filters.
pub open spec fn leaf_kept(leaves: Seq<(Vec<CheckerMove>, Board)>, dice: [u8; 2], max_depth: int,
    leaf: (Vec<CheckerMove>, Board)) -> bool
{
    &&& leaf.0@.len() == max_depth
    &&& leaf_rule(leaves, dice, max_depth) ==> leaf.0@[0].die == larger_die(dice)
}

/// A turn taken from a surviving leaf.
pub open spec fn turn_from_leaf(leaves: Seq<(Vec<CheckerMove>, Board)>, dice: [u8; 2], max_depth: int, t: Turn) -> bool {
    exists|k: int| 0 <= k < leaves.len()
        && leaf_kept(leaves, dice, max_depth, leaves[k])
        && t.moves@ == leaves[k].0@ && t.board@ == leaves[k].1@
}

/// Filter leaves to the maximal-usage set, apply the larger-die rule and
/// collapse to distinct resulting positions.
fn finalize(leaves: &Vec<(Vec<CheckerMove>, Board)>, dice: [u8; 2], max_depth: usize) -> (turns: Vec<Turn>)
    ensures
        forall|i: int| 0 <= i < turns@.len() ==> #[trigger] turn_from_leaf(leaves@, dice, max_depth as int, turns@[i]),
        forall|i: int, j: int| 0 <= i < j < turns@.len() ==> (#[trigger] turns@[i]).board@ != (#[trigger] turns@[j]).board@,
        forall|k: int| 0 <= k < leaves@.len() && leaf_kept(leaves@, dice, max_depth as int, #[trigger] leaves@[k])
            ==> exists|i: int| 0 <= i < turns@.len() && (#[trigger] turns@[i]).board@ == leaves@[k].1@,
        turns_view(turns@) == collapsed(leaves_view(leaves@), dice, max_depth as int, leaves@.len() as int),
{
    let ghost lv = leaves_view(leaves@);
    let larger = if dice[0] >= dice[1] { dice[0] } else { dice[1] };
    let mut rule = false;
    if max_depth == 1 && dice[0] != dice[1] {
        let mut k: usize = 0;
        while k < leaves.len()
            invariant
                k <= leaves@.len(),
                max_depth == 1,
                dice[0] != dice[1],
                larger == larger_die(dice),
                rule == exists|j: int| 0 <= j < k && (#[trigger] leaves@[j]).0@.len() == 1
                    && leaves@[j].0@[0].die == larger_die(dice),
            decreases leaves@.len() - k,
        {
            if leaves[k].0.len() == 1 && leaves[k].0[0].die == larger {
                rule = true;
            }
            k += 1;
        }
    }
    assert(rule == leaf_rule(leaves@, dice, max_depth as int));
    assert(rule == rule_of(lv, dice, max_depth as int)) by {
        if rule {
            let k = choose|k: int| 0 <= k < leaves@.len() && (#[trigger] leaves@[k]).0@.len() == 1
                && leaves@[k].0@[0].die == larger_die(dice);
            assert(lv[k] == leaf_view(leaves@[k]));
        }
        if rule_of(lv, dice, max_depth as int) {
            let k = choose|k: int| 0 <= k < lv.len() && (#[trigger] lv[k]).0.len() == 1 && lv[k].0[0].die == larger_die(dice);
            assert(lv[k] == leaf_view(leaves@[k]));
        }
    }
    let mut turns: Vec<Turn> = Vec::new();
    let mut i: usize = 0;
    assert(turns_view(turns@) =~= collapsed(lv, dice, max_depth as int, 0));
    while i < leaves.len()
        invariant
            i <= leaves@.len(),
            larger == larger_die(dice),
            rule == leaf_rule(leaves@, dice, max_depth as int),
            forall|t: int| 0 <= t < turns@.len() ==> #[trigger] turn_from_leaf(leaves@, dice, max_depth as int, turns@[t]),
            forall|a: int, b: int| 0 <= a < b < turns@.len() ==> (#[trigger] turns@[a]).board@ != (#[trigger] turns@[b]).board@,
            forall|k: int| 0 <= k < i && leaf_kept(leaves@, dice, max_depth as int, #[trigger] leaves@[k])
                ==> exists|t: int| 0 <= t < turns@.len() && (#[trigger] turns@[t]).board@ == leaves@[k].1@,
            lv == leaves_view(leaves@),
            rule == rule_of(lv, dice, max_depth as int),
            turns_view(turns@) == collapsed(lv, dice, max_depth as int, i as int),
        decreases leaves@.len() - i,
    {
        let ghost prev = turns@;
        assert(lv[i as int] == leaf_view(leaves@[i as int]));
        let keep = leaves[i].0.len() == max_depth && (!rule || leaves[i].0[0].die == larger);
        assert(keep == leaf_kept(leaves@, dice, max_depth as int, leaves@[i as int]));
        if keep {
            let mut seen = false;
            let mut j: usize = 0;
            while j < turns.len()
                invariant
                    j <= turns@.len(),
                    i < leaves@.len(),
                    seen == exists|t: int| 0 <= t < j && (#[trigger] turns@[t]).board@ == leaves@[i as int].1@,
                decreases turns@.len() - j,
            {
                if same_board(&turns[j].board, &leaves[i].1) {
                    seen = true;
                }
                j += 1;
            }
            assert(seen == has_board(turns_view(turns@), lv[i as int].1)) by {
                if seen {
                    let t = choose|t: int| 0 <= t < turns@.len() && (#[trigger] turns@[t]).board@ == leaves@[i as int].1@;
                    assert(turns_view(turns@)[t] == turn_view(turns@[t]));
                }
                if has_board(turns_view(turns@), lv[i as int].1) {
                    let t = choose|t: int| 0 <= t < turns_view(turns@).len() && (#[trigger] turns_view(turns@)[t]).1
                        == lv[i as int].1;
                    assert(turns_view(turns@)[t] == turn_view(turns@[t]));
                }
            }
            if !seen {
                let ghost before = turns@;
                turns.push(Turn { moves: copy_moves(&leaves[i].0), board: leaves[i].1 });
                proof {
                    assert forall|t: int| 0 <= t < turns@.len() implies #[trigger] turn_from_leaf(leaves@, dice, max_depth as int, turns@[t]) by {
                        if t == before.len() {
                            assert(turns@[t].moves@ == leaves@[i as int].0@);
                            assert(leaf_kept(leaves@, dice, max_depth as int, leaves@[i as int]));
                        } else {
                            assert(turns@[t] == before[t]);
                        }
                    }
                    assert forall|k: int| 0 <= k < i + 1 && leaf_kept(leaves@, dice, max_depth as int, #[trigger] leaves@[k])
                        implies exists|t: int| 0 <= t < turns@.len() && (#[trigger] turns@[t]).board@ == leaves@[k].1@ by {
                        if k < i {
                            let t = choose|t: int| 0 <= t < before.len() && (#[trigger] before[t]).board@ == leaves@[k].1@;
                            assert(turns@[t] == before[t]);
                        } else {
                            assert(turns@[before.len() as int].board@ == leaves@[k].1@);
                        }
                    }
                    assert(turns_view(turns@) =~= turns_view(before).push(lv[i as int]));
                }
            }
        }
        assert(turns_view(turns@) == collapsed(lv, dice, max_depth as int, i as int + 1));
        i += 1;
    }
    turns
}

// ---------------------------------------------------------------------------
// Turn generation
// ---------------------------------------------------------------------------

/// How many checkers may leave the head: the configured limit, or no
/// practical limit when the head rule is off.
pub open spec fn base_budget(head_limit: Option<u8>) -> int {
    match head_limit {
        Some(n) => n as int,
        None => 255,
    }
}

/// A first-turn 3-3, 4-4 or 6-6 under the standard head limit.
pub open spec fn exception_roll(dice: [u8; 2], first_turn: bool, head_limit: Option<u8>) -> bool {
    &&& head_limit == Some(1u8)
    &&& first_turn
    &&& dice[0] == dice[1]
    &&& (dice[0] == 3 || dice[0] == 4 || dice[0] == 6)
}

/// The head budget that applies: two checkers on an exception roll when that
/// lets strictly more dice be played, otherwise the configured limit.
pub open spec fn head_budget_spec(b: BoardView, p: Player, dice: [u8; 2], first_turn: bool, head_limit: Option<u8>) -> int {
    if exception_roll(dice, first_turn, head_limit) && (forall|d1: int, d2: int|
        #[trigger] longest(b, p, dice, base_budget(head_limit), d1) && #[trigger] longest(b, p, dice, 2, d2) ==> d2 > d1)
    {
        2
    } else {
        base_budget(head_limit)
    }
}

/// Pips travelled by a list of sub-moves (a borne-off checker travels to 0).
pub open spec fn moves_pips(s: Seq<CheckerMove>) -> int
    decreases s.len(),
{
    if s.len() == 0 {
        0
    } else {
        (s[0].from - s[0].to) + moves_pips(s.drop_first())
    }
}

/// The longest play length is unique.
pub proof fn lemma_longest_unique(b: BoardView, p: Player, dice: [u8; 2], bu: int, d1: int, d2: int)
    requires
        longest(b, p, dice, bu, d1),
        longest(b, p, dice, bu, d2),
    ensures
        d1 == d2,
{
    let (s1, e1) = choose|s: Seq<CheckerMove>, end: BoardView| #[trigger] is_play(b, p, dice, bu, s, end) && s.len() == d1;
    let (s2, e2) = choose|s: Seq<CheckerMove>, end: BoardView| #[trigger] is_play(b, p, dice, bu, s, end) && s.len() == d2;
}

/// A maximal play conserves the mover's checkers (on board plus borne off),
/// leaves the opponent's checkers where they were, and lowers the mover's
/// pips by exactly the distance its sub-moves travel.
pub proof fn lemma_play_conserves(b: BoardView, p: Player, counts: Seq<u8>, hu: int, bu: int, s: Seq<CheckerMove>, end: BoardView)
    requires
        b.wf(),
        full_play_from(b, p, counts, hu, bu, s, end),
    ensures
        end.wf(),
        end.total(p) + end.off_of(p) == b.total(p) + b.off_of(p),
        end.off_of(p.spec_opponent()) == b.off_of(p.spec_opponent()),
        forall|q: int| 1 <= q <= 24 ==> #[trigger] end.own(p.spec_opponent(), q) == b.own(p.spec_opponent(), q),
        end.pip_spec(p) == b.pip_spec(p) - moves_pips(s),
    decreases s.len(),
{
    if s.len() > 0 {
        let m = s[0];
        let ok = hu < bu;
        let nb = sub_board(b, p, m.from as int, m.die as int, ok);
        let c1 = counts.update(m.die as int, (counts[m.die as int] - 1) as u8);
        lemma_submove_wf(b, p, m.from as int, m.die as int, ok);
        lemma_play_conserves(nb, p, c1, hu + head_step(m), bu, s.drop_first(), end);
        if (m.from as int) - (m.die as int) >= 1 {
            b.lemma_moved(p, m.from as int, m.from - m.die);
        } else {
            b.lemma_borne(p, m.from as int);
        }
    }
}

/// The larger-die rule reads the same on the leaves as on the plays.
proof fn lemma_rule_equiv(
    b: BoardView,
    p: Player,
    dice: [u8; 2],
    bu: int,
    leaves: Seq<(Vec<CheckerMove>, Board)>,
    md: int,
)
    requires
        leaves_exact(b, p, dice, bu, leaves),
        longest(b, p, dice, bu, md),
    ensures
        leaf_rule(leaves, dice, md) == larger_rule(b, p, dice, bu),
{
    if leaf_rule(leaves, dice, md) {
        let k = choose|k: int| 0 <= k < leaves.len() && (#[trigger] leaves[k]).0@.len() == 1
            && leaves[k].0@[0].die == larger_die(dice);
        assert(is_play(b, p, dice, bu, leaves[k].0@, leaves[k].1@));
    }
    if larger_rule(b, p, dice, bu) {
        lemma_longest_unique(b, p, dice, bu, 1, md);
        let (s, end) = choose|s: Seq<CheckerMove>, end: BoardView| #[trigger] is_play(b, p, dice, bu, s, end)
            && s.len() == 1 && s[0].die == larger_die(dice);
        let k = choose|k: int| 0 <= k < leaves.len() && same_leaf(#[trigger] leaves[k], s, end);
    }
}

/// A leaf survives the filters exactly when its play is a legal turn.
proof fn lemma_kept_iff(
    b: BoardView,
    p: Player,
    dice: [u8; 2],
    bu: int,
    leaves: Seq<(Vec<CheckerMove>, Board)>,
    md: int,
    k: int,
)
    requires
        leaves_exact(b, p, dice, bu, leaves),
        longest(b, p, dice, bu, md),
        leaf_rule(leaves, dice, md) == larger_rule(b, p, dice, bu),
        0 <= k < leaves.len(),
    ensures
        leaf_kept(leaves, dice, md, leaves[k]) == turn_spec(b, p, dice, bu, leaves[k].0@, leaves[k].1@),
{
    assert(is_play(b, p, dice, bu, leaves[k].0@, leaves[k].1@));
    if longest(b, p, dice, bu, leaves[k].0@.len() as int) {
        lemma_longest_unique(b, p, dice, bu, leaves[k].0@.len() as int, md);
    }
}

/// Every generated turn is a legal turn.
proof fn lemma_turns_sound(
    b: BoardView,
    p: Player,
    dice: [u8; 2],
    bu: int,
    leaves: Seq<(Vec<CheckerMove>, Board)>,
    md: int,
    turns: Seq<Turn>,
)
    requires
        leaves_exact(b, p, dice, bu, leaves),
        longest(b, p, dice, bu, md),
        leaf_rule(leaves, dice, md) == larger_rule(b, p, dice, bu),
        forall|i: int| 0 <= i < turns.len() ==> #[trigger] turn_from_leaf(leaves, dice, md, turns[i]),
        forall|k: int| 0 <= k < leaves.len() && leaf_kept(leaves, dice, md, #[trigger] leaves[k])
            ==> exists|i: int| 0 <= i < turns.len() && (#[trigger] turns[i]).board@ == leaves[k].1@,
    ensures
        forall|i: int| 0 <= i < turns.len() ==> #[trigger] turn_spec(b, p, dice, bu, turns[i].moves@, turns[i].board@),
{
    assert forall|i: int| 0 <= i < turns.len() implies #[trigger] turn_spec(b, p, dice, bu, turns[i].moves@, turns[i].board@) by {
        assert(turn_from_leaf(leaves, dice, md, turns[i]));
        let k = choose|k: int| 0 <= k < leaves.len()
            && leaf_kept(leaves, dice, md, leaves[k])
            && turns[i].moves@ == leaves[k].0@ && turns[i].board@ == leaves[k].1@;
        lemma_kept_iff(b, p, dice, bu, leaves, md, k);
    }
}

/// Every legal turn's position is generated, and something is.
proof fn lemma_turns_complete(
    b: BoardView,
    p: Player,
    dice: [u8; 2],
    bu: int,
    leaves: Seq<(Vec<CheckerMove>, Board)>,
    md: int,
    turns: Seq<Turn>,
)
    requires
        leaves_exact(b, p, dice, bu, leaves),
        longest(b, p, dice, bu, md),
        leaf_rule(leaves, dice, md) == larger_rule(b, p, dice, bu),
        forall|i: int| 0 <= i < turns.len() ==> #[trigger] turn_from_leaf(leaves, dice, md, turns[i]),
        forall|k: int| 0 <= k < leaves.len() && leaf_kept(leaves, dice, md, #[trigger] leaves[k])
            ==> exists|i: int| 0 <= i < turns.len() && (#[trigger] turns[i]).board@ == leaves[k].1@,
    ensures
        forall|s: Seq<CheckerMove>, end: BoardView| #[trigger] turn_spec(b, p, dice, bu, s, end)
            ==> exists|i: int| 0 <= i < turns.len() && (#[trigger] turns[i]).board@ == end,
        turns.len() >= 1,
{
    assert forall|s: Seq<CheckerMove>, end: BoardView| #[trigger] turn_spec(b, p, dice, bu, s, end)
        implies exists|i: int| 0 <= i < turns.len() && (#[trigger] turns[i]).board@ == end by {
        let k = choose|k: int| 0 <= k < leaves.len() && same_leaf(#[trigger] leaves[k], s, end);
        lemma_kept_iff(b, p, dice, bu, leaves, md, k);
    }
    lemma_some_turn(b, p, dice, bu, leaves, md);
    let k = choose|k: int| 0 <= k < leaves.len() && leaf_kept(leaves, dice, md, #[trigger] leaves[k]);
}

/// Turns built from exactly the maximal plays are exactly the legal turns.
proof fn lemma_turns_from_leaves(
    b: BoardView,
    p: Player,
    dice: [u8; 2],
    bu: int,
    leaves: Seq<(Vec<CheckerMove>, Board)>,
    md: int,
    turns: Seq<Turn>,
)
    requires
        b.wf(),
        leaves_exact(b, p, dice, bu, leaves),
        longest(b, p, dice, bu, md),
        forall|i: int| 0 <= i < turns.len() ==> #[trigger] turn_from_leaf(leaves, dice, md, turns[i]),
        forall|i: int, j: int| 0 <= i < j < turns.len() ==> (#[trigger] turns[i]).board@ != (#[trigger] turns[j]).board@,
        forall|k: int| 0 <= k < leaves.len() && leaf_kept(leaves, dice, md, #[trigger] leaves[k])
            ==> exists|i: int| 0 <= i < turns.len() && (#[trigger] turns[i]).board@ == leaves[k].1@,
    ensures
        turns_spec(b, p, dice, bu, turns),
{
    lemma_rule_equiv(b, p, dice, bu, leaves, md);
    lemma_turns_sound(b, p, dice, bu, leaves, md, turns);
    lemma_turns_complete(b, p, dice, bu, leaves, md, turns);
    lemma_turns_laws(b, p, dice, bu, turns);
    reveal(turns_spec);
}

/// Some leaf survives the filters.
proof fn lemma_some_turn(
    b: BoardView,
    p: Player,
    dice: [u8; 2],
    bu: int,
    leaves: Seq<(Vec<CheckerMove>, Board)>,
    md: int,
)
    requires
        leaves_exact(b, p, dice, bu, leaves),
        longest(b, p, dice, bu, md),
        leaf_rule(leaves, dice, md) == larger_rule(b, p, dice, bu),
    ensures
        exists|k: int| 0 <= k < leaves.len() && leaf_kept(leaves, dice, md, #[trigger] leaves[k]),
{
    if larger_rule(b, p, dice, bu) {
        let (s1, e1) = choose|s: Seq<CheckerMove>, end: BoardView| #[trigger] is_play(b, p, dice, bu, s, end)
            && s.len() == 1 && s[0].die == larger_die(dice);
        let k = choose|k: int| 0 <= k < leaves.len() && same_leaf(#[trigger] leaves[k], s1, e1);
        lemma_longest_unique(b, p, dice, bu, 1, md);
        assert(leaf_kept(leaves, dice, md, leaves[k]));
    } else {
        let (s0, e0) = choose|s: Seq<CheckerMove>, end: BoardView| #[trigger] is_play(b, p, dice, bu, s, end) && s.len() == md;
        let k = choose|k: int| 0 <= k < leaves.len() && same_leaf(#[trigger] leaves[k], s0, e0);
        assert(leaf_kept(leaves, dice, md, leaves[k]));
    }
}

/// All legal turns for `player` under standard rules (head limit 1), given a
/// roll. `first_turn` enables the 6-6/4-4/3-3 two-off-the-head exception.
/// Never empty: a forced pass yields a single [`Turn`] with no moves and an
/// unchanged board.
pub fn generate_turns(board: &Board, player: Player, dice: [u8; 2], first_turn: bool) -> (turns: Vec<Turn>)
    requires
        board@.wf(),
        dice[0] <= 6,
        dice[1] <= 6,
    ensures
        turns_spec(board@, player, dice, head_budget_spec(board@, player, dice, first_turn, Some(1u8)), turns@),
        turns_view(turns@) == generated(board@, player, dice, first_turn, Some(1u8)),
{
    generate_turns_cfg(board, player, dice, first_turn, Some(1))
}

/// The exact set of legal turns: at least one, each a legal turn (see
/// [`turn_spec`]) with its own resulting position, every legal turn's
/// position present — and the laws every turn obeys: the mover's checkers
/// are conserved, the opponent's untouched, and the mover's pips drop by the
/// distance travelled.
#[verifier::opaque]
pub open spec fn turns_spec(b: BoardView, p: Player, dice: [u8; 2], bu: int, turns: Seq<Turn>) -> bool {
    &&& turns.len() >= 1
    &&& forall|i: int| 0 <= i < turns.len() ==> #[trigger] turn_spec(b, p, dice, bu, turns[i].moves@, turns[i].board@)
    &&& forall|i: int, j: int| 0 <= i < j < turns.len() ==> (#[trigger] turns[i]).board@ != (#[trigger] turns[j]).board@
    &&& forall|s: Seq<CheckerMove>, end: BoardView| #[trigger] turn_spec(b, p, dice, bu, s, end)
        ==> exists|i: int| 0 <= i < turns.len() && (#[trigger] turns[i]).board@ == end
    &&& forall|i: int| 0 <= i < turns.len() ==> {
        let e = (#[trigger] turns[i]).board@;
        &&& e.wf()
        &&& e.total(p) + e.off_of(p) == b.total(p) + b.off_of(p)
        &&& e.off_of(p.spec_opponent()) == b.off_of(p.spec_opponent())
        &&& forall|q: int| 1 <= q <= 24 ==> e.own(p.spec_opponent(), q) == b.own(p.spec_opponent(), q)
        &&& e.pip_spec(p) == b.pip_spec(p) - moves_pips(turns[i].moves@)
    }
}

/// Like [`generate_turns`] but with a configurable head limit: `Some(n)`
/// allows at most `n` checkers off the head per turn (1 = standard); `None`
/// removes the head rule entirely (the хачапури variant).
///
/// The first-turn doubles exception (only meaningful at head limit 1) lets a
/// *second* checker leave the head on a 6-6/4-4/3-3 first roll — but only
/// when doing so lets more dice be played.
pub fn generate_turns_cfg(
    board: &Board,
    player: Player,
    dice: [u8; 2],
    first_turn: bool,
    head_limit: Option<u8>,
) -> (turns: Vec<Turn>)
    requires
        board@.wf(),
        dice[0] <= 6,
        dice[1] <= 6,
    ensures
        turns_spec(board@, player, dice, head_budget_spec(board@, player, dice, first_turn, head_limit), turns@),
        turns_view(turns@) == generated(board@, player, dice, first_turn, head_limit),
{
    let base: u8 = match head_limit {
        Some(n) => n,
        None => u8::MAX,
    };
    let (base_leaves, base_depth) = enumerate(board, player, dice, base);
    let ghost bb = base as int;
    assert(bb == base_budget(head_limit));
    if head_limit == Some(1u8) && first_turn && dice[0] == dice[1] && (dice[0] == 3 || dice[0] == 4 || dice[0] == 6) {
        let (ex_leaves, ex_depth) = enumerate(board, player, dice, 2);
        if ex_depth > base_depth {
            let turns = finalize(&ex_leaves, dice, ex_depth);
            proof {
                assert forall|d1: int, d2: int| #[trigger] longest(board@, player, dice, bb, d1)
                    && #[trigger] longest(board@, player, dice, 2, d2) implies d2 > d1 by {
                    lemma_longest_unique(board@, player, dice, bb, d1, base_depth as int);
                    lemma_longest_unique(board@, player, dice, 2, d2, ex_depth as int);
                }
                assert(head_budget_spec(board@, player, dice, first_turn, head_limit) == 2);
                lemma_turns_from_leaves(board@, player, dice, 2, ex_leaves@, ex_depth as int, turns@);
            }
            return turns;
        }
        proof {
            assert(!(base_depth < ex_depth));
            assert(head_budget_spec(board@, player, dice, first_turn, head_limit) == bb);
        }
    }
    let turns = finalize(&base_leaves, dice, base_depth);
    proof {
        assert(head_budget_spec(board@, player, dice, first_turn, head_limit) == bb);
        lemma_turns_from_leaves(board@, player, dice, bb, base_leaves@, base_depth as int, turns@);
    }
    turns
}

/// Every legal ordered sequence of sub-moves for the roll, each with its
/// resulting board: sound (each is a legal turn) and complete (every legal
/// turn, in every order of its sub-moves, is listed). Transpositions are not
/// merged.
pub open spec fn sequences_spec(b: BoardView, p: Player, dice: [u8; 2], bu: int, seqs: Seq<Turn>) -> bool {
    &&& forall|i: int| 0 <= i < seqs.len() ==> #[trigger] turn_spec(b, p, dice, bu, seqs[i].moves@, seqs[i].board@)
    &&& forall|s: Seq<CheckerMove>, end: BoardView| #[trigger] turn_spec(b, p, dice, bu, s, end)
        ==> exists|i: int| 0 <= i < seqs.len() && (#[trigger] seqs[i]).moves@ == s && seqs[i].board@ == end
}

/// Whether the larger-die rule applies to the leaves.
fn leaf_rule_exec(leaves: &Vec<(Vec<CheckerMove>, Board)>, dice: [u8; 2], max_depth: usize) -> (rule: bool)
    ensures
        rule == leaf_rule(leaves@, dice, max_depth as int),
{
    let larger = if dice[0] >= dice[1] { dice[0] } else { dice[1] };
    let mut rule = false;
    if max_depth == 1 && dice[0] != dice[1] {
        let mut k: usize = 0;
        while k < leaves.len()
            invariant
                k <= leaves@.len(),
                max_depth == 1,
                dice[0] != dice[1],
                larger == larger_die(dice),
                rule == exists|j: int| 0 <= j < k && (#[trigger] leaves@[j]).0@.len() == 1
                    && leaves@[j].0@[0].die == larger_die(dice),
            decreases leaves@.len() - k,
        {
            if leaves[k].0.len() == 1 && leaves[k].0[0].die == larger {
                rule = true;
            }
            k += 1;
        }
    }
    rule
}

/// Every leaf that survives the maximal-use and larger-die filters, in
/// order, as a turn.
fn kept_leaves(leaves: &Vec<(Vec<CheckerMove>, Board)>, dice: [u8; 2], max_depth: usize) -> (seqs: Vec<Turn>)
    ensures
        forall|i: int| 0 <= i < seqs@.len() ==> #[trigger] turn_from_leaf(leaves@, dice, max_depth as int, seqs@[i]),
        forall|k: int| 0 <= k < leaves@.len() && leaf_kept(leaves@, dice, max_depth as int, #[trigger] leaves@[k])
            ==> exists|i: int| 0 <= i < seqs@.len() && (#[trigger] seqs@[i]).moves@ == leaves@[k].0@
                && seqs@[i].board@ == leaves@[k].1@,
{
    let larger = if dice[0] >= dice[1] { dice[0] } else { dice[1] };
    let rule = leaf_rule_exec(leaves, dice, max_depth);
    let mut seqs: Vec<Turn> = Vec::new();
    let mut i: usize = 0;
    while i < leaves.len()
        invariant
            i <= leaves@.len(),
            larger == larger_die(dice),
            rule == leaf_rule(leaves@, dice, max_depth as int),
            forall|t: int| 0 <= t < seqs@.len() ==> #[trigger] turn_from_leaf(leaves@, dice, max_depth as int, seqs@[t]),
            forall|k: int| 0 <= k < i && leaf_kept(leaves@, dice, max_depth as int, #[trigger] leaves@[k])
                ==> exists|t: int| 0 <= t < seqs@.len() && (#[trigger] seqs@[t]).moves@ == leaves@[k].0@
                    && seqs@[t].board@ == leaves@[k].1@,
        decreases leaves@.len() - i,
    {
        let keep = leaves[i].0.len() == max_depth && (!rule || leaves[i].0[0].die == larger);
        assert(keep == leaf_kept(leaves@, dice, max_depth as int, leaves@[i as int]));
        if keep {
            let ghost before = seqs@;
            seqs.push(Turn { moves: copy_moves(&leaves[i].0), board: leaves[i].1 });
            proof {
                assert forall|t: int| 0 <= t < seqs@.len() implies #[trigger] turn_from_leaf(leaves@, dice,
                    max_depth as int, seqs@[t]) by {
                    if t == before.len() {
                        assert(seqs@[t].moves@ == leaves@[i as int].0@);
                        assert(leaf_kept(leaves@, dice, max_depth as int, leaves@[i as int]));
                    } else {
                        assert(seqs@[t] == before[t]);
                    }
                }
                assert forall|k: int| 0 <= k < i + 1 && leaf_kept(leaves@, dice, max_depth as int, #[trigger] leaves@[k])
                    implies exists|t: int| 0 <= t < seqs@.len() && (#[trigger] seqs@[t]).moves@ == leaves@[k].0@
                        && seqs@[t].board@ == leaves@[k].1@ by {
                    if k < i {
                        let t = choose|t: int| 0 <= t < before.len() && (#[trigger] before[t]).moves@ == leaves@[k].0@
                            && before[t].board@ == leaves@[k].1@;
                        assert(seqs@[t] == before[t]);
                    } else {
                        assert(seqs@[before.len() as int].moves@ == leaves@[k].0@);
                    }
                }
            }
        }
        i += 1;
    }
    seqs
}

proof fn lemma_seqs_from_leaves(
    b: BoardView,
    p: Player,
    dice: [u8; 2],
    bu: int,
    leaves: Seq<(Vec<CheckerMove>, Board)>,
    md: int,
    seqs: Seq<Turn>,
)
    requires
        leaves_exact(b, p, dice, bu, leaves),
        longest(b, p, dice, bu, md),
        forall|i: int| 0 <= i < seqs.len() ==> #[trigger] turn_from_leaf(leaves, dice, md, seqs[i]),
        forall|k: int| 0 <= k < leaves.len() && leaf_kept(leaves, dice, md, #[trigger] leaves[k])
            ==> exists|i: int| 0 <= i < seqs.len() && (#[trigger] seqs[i]).moves@ == leaves[k].0@
                && seqs[i].board@ == leaves[k].1@,
    ensures
        sequences_spec(b, p, dice, bu, seqs),
{
    lemma_rule_equiv(b, p, dice, bu, leaves, md);
    assert forall|i: int| 0 <= i < seqs.len() implies #[trigger] turn_spec(b, p, dice, bu, seqs[i].moves@,
        seqs[i].board@) by {
        assert(turn_from_leaf(leaves, dice, md, seqs[i]));
        let k = choose|k: int| 0 <= k < leaves.len() && leaf_kept(leaves, dice, md, leaves[k])
            && seqs[i].moves@ == leaves[k].0@ && seqs[i].board@ == leaves[k].1@;
        lemma_kept_iff(b, p, dice, bu, leaves, md, k);
    }
    assert forall|s: Seq<CheckerMove>, end: BoardView| #[trigger] turn_spec(b, p, dice, bu, s, end)
        implies exists|i: int| 0 <= i < seqs.len() && (#[trigger] seqs[i]).moves@ == s && seqs[i].board@ == end by {
        assert(is_play(b, p, dice, bu, s, end));
        let k = choose|k: int| 0 <= k < leaves.len() && same_leaf(#[trigger] leaves[k], s, end);
        lemma_kept_iff(b, p, dice, bu, leaves, md, k);
        assert(leaf_kept(leaves, dice, md, leaves[k]));
    }
}

/// Every legal *ordered* sub-move sequence for the roll, each legal at every
/// step, with transpositions kept apart (the move builder of a UI matches a
/// player's partial input against these). The head budget is chosen as for
/// [`generate_turns_cfg`].
pub fn legal_sequences(
    board: &Board,
    player: Player,
    dice: [u8; 2],
    first_turn: bool,
    head_limit: Option<u8>,
) -> (seqs: Vec<Turn>)
    requires
        board@.wf(),
        dice[0] <= 6,
        dice[1] <= 6,
    ensures
        sequences_spec(board@, player, dice, head_budget_spec(board@, player, dice, first_turn, head_limit), seqs@),
{
    let base: u8 = match head_limit {
        Some(n) => n,
        None => u8::MAX,
    };
    let (base_leaves, base_depth) = enumerate(board, player, dice, base);
    let ghost bb = base as int;
    assert(bb == base_budget(head_limit));
    if head_limit == Some(1u8) && first_turn && dice[0] == dice[1] && (dice[0] == 3 || dice[0] == 4 || dice[0] == 6) {
        let (ex_leaves, ex_depth) = enumerate(board, player, dice, 2);
        if ex_depth > base_depth {
            let seqs = kept_leaves(&ex_leaves, dice, ex_depth);
            proof {
                assert forall|d1: int, d2: int| #[trigger] longest(board@, player, dice, bb, d1)
                    && #[trigger] longest(board@, player, dice, 2, d2) implies d2 > d1 by {
                    lemma_longest_unique(board@, player, dice, bb, d1, base_depth as int);
                    lemma_longest_unique(board@, player, dice, 2, d2, ex_depth as int);
                }
                assert(head_budget_spec(board@, player, dice, first_turn, head_limit) == 2);
                lemma_seqs_from_leaves(board@, player, dice, 2, ex_leaves@, ex_depth as int, seqs@);
            }
            return seqs;
        }
        proof {
            assert(!(base_depth < ex_depth));
            assert(head_budget_spec(board@, player, dice, first_turn, head_limit) == bb);
        }
    }
    let seqs = kept_leaves(&base_leaves, dice, base_depth);
    proof {
        assert(head_budget_spec(board@, player, dice, first_turn, head_limit) == bb);
        lemma_seqs_from_leaves(board@, player, dice, bb, base_leaves@, base_depth as int, seqs@);
    }
    seqs
}

/// Where a sub-move takes its checker: a position, or 0 when borne off.
pub open spec fn dest(m: CheckerMove) -> int {
    if m.bear_off { 0 } else { m.to as int }
}

/// Net change the sub-moves make to the mover's checkers on position `q`
/// (`q == 0`: borne off).
pub open spec fn net_at(s: Seq<CheckerMove>, q: int) -> int
    decreases s.len(),
{
    if s.len() == 0 {
        0
    } else {
        (if dest(s[0]) == q { 1int } else { 0int }) - (if s[0].from == q { 1int } else { 0int })
            + net_at(s.drop_first(), q)
    }
}

/// `net_at` taken from the back.
pub proof fn lemma_net_at_last(s: Seq<CheckerMove>, q: int)
    requires
        s.len() > 0,
    ensures
        net_at(s, q) == net_at(s.drop_last(), q) + (if dest(s.last()) == q { 1int } else { 0int })
            - (if s.last().from == q { 1int } else { 0int }),
    decreases s.len(),
{
    if s.len() > 1 {
        lemma_net_at_last(s.drop_first(), q);
        assert(s.drop_first().drop_last() =~= s.drop_last().drop_first());
        assert(s.drop_first().last() == s.last());
        assert(s.drop_last()[0] == s[0]);
    } else {
        assert(s.drop_first() =~= Seq::<CheckerMove>::empty());
        assert(s.drop_last() =~= Seq::<CheckerMove>::empty());
    }
}

/// A play changes the mover's checkers exactly by its sub-moves' net
/// effect and leaves the opponent alone.
pub proof fn lemma_play_effect(b: BoardView, p: Player, counts: Seq<u8>, hu: int, bu: int, s: Seq<CheckerMove>,
    end: BoardView)
    requires
        b.wf(),
        full_play_from(b, p, counts, hu, bu, s, end),
    ensures
        end.shaped(),
        forall|q: int| 1 <= q <= 24 ==> #[trigger] end.own(p, q) == b.own(p, q) + net_at(s, q),
        end.off_of(p) == b.off_of(p) + net_at(s, 0),
        forall|q: int| 1 <= q <= 24 ==> #[trigger] end.own(p.spec_opponent(), q) == b.own(p.spec_opponent(), q),
        end.off_of(p.spec_opponent()) == b.off_of(p.spec_opponent()),
    decreases s.len(),
{
    lemma_play_conserves(b, p, counts, hu, bu, s, end);
    if s.len() > 0 {
        let m = s[0];
        let ok = hu < bu;
        let nb = sub_board(b, p, m.from as int, m.die as int, ok);
        let c1 = counts.update(m.die as int, (counts[m.die as int] - 1) as u8);
        lemma_submove_wf(b, p, m.from as int, m.die as int, ok);
        lemma_play_effect(nb, p, c1, hu + head_step(m), bu, s.drop_first(), end);
        if (m.from as int) - (m.die as int) >= 1 {
            b.lemma_moved(p, m.from as int, m.from - m.die);
            assert(dest(m) == m.from - m.die);
        } else {
            b.lemma_borne(p, m.from as int);
            assert(dest(m) == 0);
        }
    } else {
        b.lemma_wf_cells();
    }
}

/// Some turn of the list ends on `e`.
pub open spec fn board_among(turns: Seq<Turn>, e: BoardView) -> bool {
    exists|j: int| 0 <= j < turns.len() && (#[trigger] turns[j]).board@ == e
}

/// Some turn of the list plays `m` and ends on `e`.
pub open spec fn play_among(seqs: Seq<Turn>, m: Seq<CheckerMove>, e: BoardView) -> bool {
    exists|i: int| 0 <= i < seqs.len() && (#[trigger] seqs[i]).moves@ == m && seqs[i].board@ == e
}

/// The legal sequences and the legal turns of a roll agree: every sequence
/// ends on the board of some turn, and every turn appears among the
/// sequences with the same sub-moves in the same order.
pub proof fn lemma_sequences_agree_with_turns(
    b: BoardView,
    p: Player,
    dice: [u8; 2],
    bu: int,
    turns: Seq<Turn>,
    seqs: Seq<Turn>,
)
    requires
        turns_spec(b, p, dice, bu, turns),
        sequences_spec(b, p, dice, bu, seqs),
    ensures
        forall|i: int| 0 <= i < seqs.len() ==> board_among(turns, (#[trigger] seqs[i]).board@),
        forall|j: int| 0 <= j < turns.len() ==> play_among(seqs, (#[trigger] turns[j]).moves@, turns[j].board@),
{
    reveal(turns_spec);
    assert forall|i: int| 0 <= i < seqs.len() implies board_among(turns, (#[trigger] seqs[i]).board@) by {
        assert(turn_spec(b, p, dice, bu, seqs[i].moves@, seqs[i].board@));
    }
    assert forall|j: int| 0 <= j < turns.len() implies play_among(seqs, (#[trigger] turns[j]).moves@,
        turns[j].board@) by {
        assert(turn_spec(b, p, dice, bu, turns[j].moves@, turns[j].board@));
    }
}

/// A legal turn conserves the mover's checkers (on the board plus borne
/// off), leaves every opponent checker where it was, keeps the board
/// well-formed and lowers the mover's pips by the distance played.
pub proof fn lemma_turn_conserves(b: BoardView, p: Player, dice: [u8; 2], bu: int, s: Seq<CheckerMove>, end: BoardView)
    requires
        b.wf(),
        turn_spec(b, p, dice, bu, s, end),
    ensures
        end.wf(),
        end.total(p) + end.off_of(p) == b.total(p) + b.off_of(p),
        end.off_of(p.spec_opponent()) == b.off_of(p.spec_opponent()),
        forall|q: int| 1 <= q <= 24 ==> #[trigger] end.own(p.spec_opponent(), q) == b.own(p.spec_opponent(), q),
        end.pip_spec(p) == b.pip_spec(p) - moves_pips(s),
{
    reveal(is_play);
    lemma_play_conserves(b, p, initial_counts(dice), 0, bu, s, end);
}

/// Every turn that is a maximal play obeys the conservation laws.
proof fn lemma_turns_laws(b: BoardView, p: Player, dice: [u8; 2], bu: int, turns: Seq<Turn>)
    requires
        b.wf(),
        forall|i: int| 0 <= i < turns.len() ==> #[trigger] turn_spec(b, p, dice, bu, turns[i].moves@, turns[i].board@),
    ensures
        forall|i: int| 0 <= i < turns.len() ==> {
            let e = (#[trigger] turns[i]).board@;
            &&& e.wf()
            &&& e.total(p) + e.off_of(p) == b.total(p) + b.off_of(p)
            &&& e.off_of(p.spec_opponent()) == b.off_of(p.spec_opponent())
            &&& forall|q: int| 1 <= q <= 24 ==> e.own(p.spec_opponent(), q) == b.own(p.spec_opponent(), q)
            &&& e.pip_spec(p) == b.pip_spec(p) - moves_pips(turns[i].moves@)
        },
{
    reveal(is_play);
    assert forall|i: int| 0 <= i < turns.len() implies {
        let e = (#[trigger] turns[i]).board@;
        &&& e.wf()
        &&& e.total(p) + e.off_of(p) == b.total(p) + b.off_of(p)
        &&& e.off_of(p.spec_opponent()) == b.off_of(p.spec_opponent())
        &&& forall|q: int| 1 <= q <= 24 ==> e.own(p.spec_opponent(), q) == b.own(p.spec_opponent(), q)
        &&& e.pip_spec(p) == b.pip_spec(p) - moves_pips(turns[i].moves@)
    } by {
        assert(turn_spec(b, p, dice, bu, turns[i].moves@, turns[i].board@));
        lemma_play_conserves(b, p, initial_counts(dice), 0, bu, turns[i].moves@, turns[i].board@);
    }
}

} // verus!
