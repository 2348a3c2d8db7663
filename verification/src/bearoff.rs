//! One-sided home configurations for the bear-off race database.
//!
//! Once both sides have all fifteen checkers home the game is a pure race
//! that can be solved exactly; the database is indexed by a side's home
//! configuration: its checker counts on points 1..=6.
use vstd::prelude::*;
use crate::board::{Board, BoardView, phys, phys_spec, lemma_phys_round_trip};
use crate::player::Player;

verus! {

/// Home points are 1..=6.
pub const HOME: usize = 6;

/// Cap on the rolls-to-clear distribution length (the tail beyond is ~0).
pub const MAX_DIST: usize = 64;

/// Checker counts on points 1..=6.
pub type State = [u8; 6];

/// Pip count of a home configuration (a checker on point `i` is worth `i`).
pub open spec fn state_pip(s: Seq<u8>) -> int {
    s[0] + 2 * s[1] + 3 * s[2] + 4 * s[3] + 5 * s[4] + 6 * s[5]
}

/// Pip count of a one-sided home state.
pub fn pip(s: &State) -> (r: u16)
    ensures
        r as int == state_pip(s@),
{
    (s[0] as u16) + 2 * (s[1] as u16) + 3 * (s[2] as u16) + 4 * (s[3] as u16) + 5 * (s[4] as u16)
        + 6 * (s[5] as u16)
}

/// The home configuration of `player` (counts on points 1..=6).
pub fn state_of(board: &Board, player: Player) -> (s: State)
    requires
        board@.readable_for(player),
    ensures
        forall|i: int| 0 <= i < 6 ==> s[i] as int == board@.own(player, i + 1),
{
    let mut s: State = [0u8; 6];
    let mut i: usize = 0;
    while i < HOME
        invariant
            i <= 6,
            board@.readable_for(player),
            forall|j: int| 0 <= j < i ==> s[j] as int == board@.own(player, j + 1),
        decreases 6 - i,
    {
        let pos: u8 = (i + 1) as u8;
        proof {
            lemma_phys_round_trip(player, pos as int, 0);
            let cell = phys_spec(player, pos as int);
            assert(board@.points[cell] == board.points@[cell]);
        }
        let c = board.own_at(player, pos);
        s[i] = c;
        i += 1;
    }
    s
}

/// The board holding configuration `s` as White's home (cells 23 down to
/// 18 are White's points 1 to 6), with nothing else on it.
pub open spec fn board_of_spec(s: Seq<u8>) -> BoardView {
    BoardView {
        points: Seq::new(24, |c: int| if 18 <= c < 24 { s[23 - c] as i8 } else { 0i8 }),
        off: seq![0u8, 0u8],
    }
}

/// The configuration `state` as a White home board (Black absent).
pub fn board_of(state: &State) -> (b: Board)
    ensures
        b@ == board_of_spec(state@),
        forall|i: int| 0 <= i < 6 && state[i] <= 127 ==> #[trigger] b@.own(Player::White, i + 1) == state[i],
{
    let mut b = Board::empty();
    let mut i: usize = 0;
    while i < HOME
        invariant
            i <= 6,
            b@.off == seq![0u8, 0u8],
            b@.points.len() == 24,
            forall|c: int| 0 <= c < 24 ==> #[trigger] b@.points[c] == (if 24 - i <= c < 24 {
                state@[23 - c] as i8
            } else {
                0i8
            }),
        decreases 6 - i,
    {
        let c = state[i];
        if c > 0 {
            b.place(Player::White, (i + 1) as u8, c);
        }
        i += 1;
    }
    assert(b@ =~= board_of_spec(state@));
    b
}

/// All completions of `cur` on slots `idx..6` whose counts sum to at most
/// `remaining`, in lexicographic order.
pub open spec fn completions(cur: Seq<u8>, idx: int, remaining: int) -> Seq<Seq<u8>>
    decreases 6 - idx, 1int, 0int,
{
    if idx >= 6 {
        seq![cur]
    } else {
        completions_from(cur, idx, remaining, 0)
    }
}

/// The completions whose slot `idx` holds `c..=remaining`.
pub open spec fn completions_from(cur: Seq<u8>, idx: int, remaining: int, c: int) -> Seq<Seq<u8>>
    decreases 6 - idx, 0int, remaining + 1 - c,
{
    if idx >= 6 || c > remaining || c < 0 {
        Seq::empty()
    } else {
        completions(cur.update(idx, c as u8), idx + 1, remaining - c)
            + completions_from(cur, idx, remaining, c + 1)
    }
}

/// The contents of a list of states as sequences.
pub open spec fn states_view(v: Seq<State>) -> Seq<Seq<u8>> {
    v.map_values(|a: State| a@)
}

/// Append every completion of `cur` (slots `idx..6` still zero) with counts
/// summing to at most `remaining`, in lexicographic order; `cur` is handed
/// back unchanged.
pub fn enumerate(idx: usize, remaining: u8, cur: &mut State, out: &mut Vec<State>)
    requires
        idx <= 6,
        forall|j: int| idx <= j < 6 ==> old(cur)[j] == 0,
    ensures
        final(cur)@ == old(cur)@,
        states_view(final(out)@) == states_view(old(out)@) + completions(old(cur)@, idx as int, remaining as int),
    decreases 6 - idx,
{
    if idx == HOME {
        let ghost before = out@;
        out.push(*cur);
        proof {
            assert(states_view(out@) =~= states_view(before) + seq![cur@]);
        }
        return;
    }
    let ghost c0 = cur@;
    let ghost o0 = states_view(out@);
    assert(cur@.len() == 6);
    let mut c: u8 = 0;
    loop
        invariant_except_break
            o0 + completions(c0, idx as int, remaining as int)
                == states_view(out@) + completions_from(c0, idx as int, remaining as int, c as int),
        invariant
            idx < 6,
            c <= remaining,
            c0.len() == 6,
            cur@ == c0.update(idx as int, cur@[idx as int]),
            forall|j: int| idx < j < 6 ==> cur@[j] == 0,
            c0[idx as int] == 0,
        ensures
            cur@ == c0.update(idx as int, cur@[idx as int]),
            forall|j: int| idx < j < 6 ==> cur@[j] == 0,
            o0 + completions(c0, idx as int, remaining as int)
                == states_view(out@) + completions_from(c0, idx as int, remaining as int, remaining + 1),
        decreases remaining - c,
    {
        let ghost before = cur@;
        assert(cur@.len() == 6);
        cur[idx] = c;
        let ghost mid = states_view(out@);
        proof {
            assert(cur@ == before.update(idx as int, c));
            assert(cur@ =~= c0.update(idx as int, c));
        }
        enumerate(idx + 1, remaining - c, cur, out);
        proof {
            assert(completions_from(c0, idx as int, remaining as int, c as int)
                == completions(c0.update(idx as int, c), idx + 1, remaining - c)
                + completions_from(c0, idx as int, remaining as int, c + 1));
            assert(mid + completions(c0.update(idx as int, c), idx + 1, remaining - c)
                + completions_from(c0, idx as int, remaining as int, c + 1)
                =~= mid + (completions(c0.update(idx as int, c), idx + 1, remaining - c)
                + completions_from(c0, idx as int, remaining as int, c + 1)));
        }
        if c == remaining {
            proof {
                assert(cur@ == c0.update(idx as int, cur@[idx as int]));
            }
            break;
        }
        c += 1;
    }
    cur[idx] = 0;
    proof {
        assert(completions_from(c0, idx as int, remaining as int, remaining + 1) =~= Seq::<Seq<u8>>::empty());
        assert(cur@ =~= c0);
        assert(states_view(out@) + Seq::<Seq<u8>>::empty() =~= states_view(out@));
    }
}

/// Reading back a configuration written as White's home gives the same
/// counts (for counts a signed cell can hold).
pub proof fn lemma_board_of_round_trip(s: Seq<u8>)
    requires
        s.len() == 6,
        forall|i: int| 0 <= i < 6 ==> s[i] <= 127,
    ensures
        forall|i: int| 0 <= i < 6 ==> #[trigger] board_of_spec(s).own(Player::White, i + 1) == s[i],
{
    assert forall|i: int| 0 <= i < 6 implies #[trigger] board_of_spec(s).own(Player::White, i + 1) == s[i] by {
        let c = phys_spec(Player::White, i + 1);
        assert(c == 23 - i);
        assert(board_of_spec(s).points[c] == s[23 - c] as i8);
    }
}

/// Checkers on slots `from..6`.
pub open spec fn slots_sum(st: Seq<u8>, from: int) -> int
    decreases 6 - from,
{
    if from >= 6 || from < 0 {
        0
    } else {
        st[from] + slots_sum(st, from + 1)
    }
}

/// `st` completes `cur` from slot `idx` on with at most `rem` checkers there.
pub open spec fn completes(cur: Seq<u8>, idx: int, rem: int, st: Seq<u8>) -> bool {
    &&& st.len() == 6
    &&& forall|j: int| 0 <= j < idx ==> #[trigger] st[j] == cur[j]
    &&& slots_sum(st, idx) <= rem
}

proof fn lemma_slots_sum_nonneg(st: Seq<u8>, from: int)
    ensures
        slots_sum(st, from) >= 0,
    decreases 6 - from,
{
    if 0 <= from < 6 {
        lemma_slots_sum_nonneg(st, from + 1);
    }
}

proof fn lemma_contains_concat(a: Seq<Seq<u8>>, b: Seq<Seq<u8>>, x: Seq<u8>)
    ensures
        (a + b).contains(x) <==> a.contains(x) || b.contains(x),
{
    if a.contains(x) {
        let i = choose|i: int| 0 <= i < a.len() && a[i] == x;
        assert((a + b)[i] == x);
    }
    if b.contains(x) {
        let i = choose|i: int| 0 <= i < b.len() && b[i] == x;
        assert((a + b)[a.len() + i] == x);
    }
    if (a + b).contains(x) {
        let i = choose|i: int| 0 <= i < (a + b).len() && (a + b)[i] == x;
        if i < a.len() {
            assert(a[i] == x);
        } else {
            assert(b[i - a.len()] == x);
        }
    }
}

proof fn lemma_completions_exact(cur: Seq<u8>, idx: int, rem: int)
    requires
        cur.len() == 6,
        0 <= idx <= 6,
        0 <= rem <= 255,
    ensures
        forall|st: Seq<u8>| completions(cur, idx, rem).contains(st) <==> completes(cur, idx, rem, st),
        completions(cur, idx, rem).no_duplicates(),
    decreases 6 - idx, 1int, 0int,
{
    if idx >= 6 {
        assert forall|st: Seq<u8>| completions(cur, idx, rem).contains(st) <==> completes(cur, idx, rem, st) by {
            if completes(cur, idx, rem, st) {
                assert(st =~= cur);
                assert(completions(cur, idx, rem)[0] == cur);
            }
            if completions(cur, idx, rem).contains(st) {
                assert(completions(cur, idx, rem)[0] == st);
                assert(slots_sum(st, 6) == 0);
            }
        }
    } else {
        lemma_completions_from_exact(cur, idx, rem, 0);
    }
}

proof fn lemma_completions_from_exact(cur: Seq<u8>, idx: int, rem: int, c: int)
    requires
        cur.len() == 6,
        0 <= idx < 6,
        0 <= rem <= 255,
        0 <= c,
    ensures
        forall|st: Seq<u8>| completions_from(cur, idx, rem, c).contains(st) <==> completes(cur, idx, rem, st)
            && st[idx] >= c,
        completions_from(cur, idx, rem, c).no_duplicates(),
        forall|i: int| 0 <= i < completions_from(cur, idx, rem, c).len() ==> #[trigger] completions_from(cur,
            idx, rem, c)[i][idx] >= c,
    decreases 6 - idx, 0int, rem + 1 - c,
{
    let cf = completions_from(cur, idx, rem, c);
    if c > rem {
        assert forall|st: Seq<u8>| cf.contains(st) <==> completes(cur, idx, rem, st) && st[idx] >= c by {
            if completes(cur, idx, rem, st) && st[idx] >= c {
                lemma_slots_sum_nonneg(st, idx + 1);
            }
        }
    } else {
        let nc = cur.update(idx, c as u8);
        let a = completions(nc, idx + 1, rem - c);
        let b = completions_from(cur, idx, rem, c + 1);
        lemma_completions_exact(nc, idx + 1, rem - c);
        lemma_completions_from_exact(cur, idx, rem, c + 1);
        assert(cf == a + b);
        assert forall|st: Seq<u8>| cf.contains(st) <==> completes(cur, idx, rem, st) && st[idx] >= c by {
            lemma_contains_concat(a, b, st);
            if completes(nc, idx + 1, rem - c, st) {
                assert(st[idx] == nc[idx]);
                assert forall|j: int| 0 <= j < idx implies #[trigger] st[j] == cur[j] by {
                    assert(st[j] == nc[j]);
                }
            }
            if completes(cur, idx, rem, st) && st[idx] == c {
                assert forall|j: int| 0 <= j < idx + 1 implies #[trigger] st[j] == nc[j] by {
                    if j < idx {
                        assert(st[j] == cur[j]);
                    }
                }
            }
        }
        // every completion in `a` holds exactly `c` at `idx`
        assert forall|i: int| 0 <= i < a.len() implies (#[trigger] a[i])[idx] == c by {
            assert(a.contains(a[i]));
            assert(completes(nc, idx + 1, rem - c, a[i]));
            assert(a[i][idx] == nc[idx]);
        }
        assert forall|i: int| 0 <= i < cf.len() implies #[trigger] cf[i][idx] >= c by {
            if i < a.len() {
                assert(cf[i] == a[i]);
            } else {
                assert(cf[i] == b[i - a.len()]);
            }
        }
        assert forall|i: int, j: int| 0 <= i < cf.len() && 0 <= j < cf.len() && i != j implies cf[i] != cf[j] by {
            if i < a.len() && j < a.len() {
                assert(cf[i] == a[i] && cf[j] == a[j]);
            } else if i >= a.len() && j >= a.len() {
                assert(cf[i] == b[i - a.len()] && cf[j] == b[j - a.len()]);
            } else if i < a.len() {
                assert(cf[i][idx] == c);
                assert(cf[j] == b[j - a.len()]);
                assert(b[j - a.len()][idx] >= c + 1);
            } else {
                assert(cf[j][idx] == c);
                assert(cf[i] == b[i - a.len()]);
                assert(b[i - a.len()][idx] >= c + 1);
            }
        }
    }
}

/// The configuration with no checkers.
pub open spec fn no_checkers() -> Seq<u8> {
    seq![0u8, 0u8, 0u8, 0u8, 0u8, 0u8]
}

/// Enumerating from an empty configuration lists every home configuration
/// with at most `remaining` checkers, each exactly once.
pub proof fn lemma_enumeration_exact(remaining: u8)
    ensures
        forall|st: Seq<u8>| #[trigger] completions(no_checkers(), 0, remaining as int).contains(st)
            <==> st.len() == 6 && slots_sum(st, 0) <= remaining,
        completions(no_checkers(), 0, remaining as int).no_duplicates(),
{
    lemma_completions_exact(no_checkers(), 0, remaining as int);
    assert forall|st: Seq<u8>| #[trigger] completions(no_checkers(), 0, remaining as int).contains(st)
        <==> st.len() == 6 && slots_sum(st, 0) <= remaining by {
        assert(completes(no_checkers(), 0, remaining as int, st) <==> st.len() == 6 && slots_sum(st, 0) <= remaining);
    }
}

} // verus!
