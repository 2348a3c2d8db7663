//! Human move notation for sparring and benchmarking against an external
//! engine: turns collapse into endpoint segments (`24/18/16` reads as
//! `24/16`), played moves are parsed and matched against the legal turns,
//! and games are replayed from `.MAT` match transcripts.
use vstd::prelude::*;
use vstd::relations::{sorted_by, total_ordering};
use crate::board::{Board, BoardView};
use crate::moves::{generate_turns_cfg, generated, head_budget_spec, turn_spec, turn_view, turns_spec, turns_view,
    CheckerMove, Turn};
use crate::player::Player;
use crate::text::{chars_of, dec_chars, eq_lit, ieq, ieq_lit, join, parse_u8, parse_u8_spec, pieces_view,
    push_dec, push_lit, split_once_char, split_once_on, split_ws, string_of, trim, trim_spec, ws_tokens};

verus! {

// ---------------------------------------------------------------------------
// Collapsing a turn into segments
// ---------------------------------------------------------------------------

/// Last sub-move of the single-checker chain that starts at `j`: the chain
/// goes on while a sub-move does not bear off and the next one starts where
/// it ended.
pub open spec fn chain_end(ms: Seq<CheckerMove>, j: int) -> int
    decreases ms.len() - j,
{
    if 0 <= j && j + 1 < ms.len() && !ms[j].bear_off && ms[j + 1].from == ms[j].to {
        chain_end(ms, j + 1)
    } else {
        j
    }
}

proof fn lemma_chain_end(ms: Seq<CheckerMove>, j: int)
    requires
        0 <= j < ms.len(),
    ensures
        j <= chain_end(ms, j) < ms.len(),
    decreases ms.len() - j,
{
    if j + 1 < ms.len() && !ms[j].bear_off && ms[j + 1].from == ms[j].to {
        lemma_chain_end(ms, j + 1);
    }
}

/// A collapsed chain: its start, whether it ends borne off, and its end.
pub open spec fn chain_at(ms: Seq<CheckerMove>, i: int) -> (u8, bool, u8) {
    let j = chain_end(ms, i);
    (ms[i].from, ms[j].bear_off, ms[j].to)
}

/// The chains of `ms` from sub-move `i` on, in play order.
pub open spec fn chains_from(ms: Seq<CheckerMove>, i: int) -> Seq<(u8, bool, u8)>
    decreases ms.len() - i,
{
    if i < 0 || i >= ms.len() {
        Seq::empty()
    } else {
        let j = chain_end(ms, i);
        if i <= j < ms.len() {
            seq![chain_at(ms, i)] + chains_from(ms, j + 1)
        } else {
            Seq::empty()
        }
    }
}

/// The chains of a turn in play order.
pub open spec fn chains(ms: Seq<CheckerMove>) -> Seq<(u8, bool, u8)> {
    chains_from(ms, 0)
}

/// A chain as an endpoint segment: `(start, end)`, end 0 when borne off.
pub open spec fn seg_of(c: (u8, bool, u8)) -> (u8, u8) {
    (c.0, if c.1 { 0u8 } else { c.2 })
}

/// Lexicographic order of segments.
pub open spec fn pair_le(a: (u8, u8), b: (u8, u8)) -> bool {
    a.0 < b.0 || (a.0 == b.0 && a.1 <= b.1)
}

pub open spec fn pair_order() -> spec_fn((u8, u8), (u8, u8)) -> bool {
    |a: (u8, u8), b: (u8, u8)| pair_le(a, b)
}

/// The sorted endpoint segments of a turn.
pub open spec fn segments_spec(ms: Seq<CheckerMove>) -> Seq<(u8, u8)> {
    chains(ms).map_values(|c: (u8, bool, u8)| seg_of(c)).sort_by(pair_order())
}

proof fn lemma_pair_order()
    ensures
        total_ordering(pair_order()),
{
}

proof fn lemma_chain_runs_to_end(ms: Seq<CheckerMove>, j: int)
    requires
        0 <= j < ms.len(),
        forall|i: int| 0 <= i < ms.len() - 1 ==> !(#[trigger] ms[i]).bear_off && ms[i + 1].from == ms[i].to,
    ensures
        chain_end(ms, j) == ms.len() - 1,
    decreases ms.len() - j,
{
    if j + 1 < ms.len() {
        assert(!ms[j].bear_off && ms[j + 1].from == ms[j].to);
        lemma_chain_runs_to_end(ms, j + 1);
    }
}

/// A single checker's consecutive sub-moves collapse to one segment: when
/// each sub-move starts where the one before ended and only the last may
/// bear off, the turn is one segment from the first start to the last end
/// (0 when the checker is borne off), and its notation is `start/end`, or
/// `start/off` for a bear-off. So `6/3 3/off` reads `6/off`.
pub proof fn lemma_single_checker_chain(ms: Seq<CheckerMove>)
    requires
        ms.len() >= 1,
        forall|i: int| 0 <= i < ms.len() - 1 ==> !(#[trigger] ms[i]).bear_off && ms[i + 1].from == ms[i].to,
    ensures
        segments_spec(ms) == seq![(ms[0].from, if ms.last().bear_off { 0u8 } else { ms.last().to })],
        turn_text(ms) == dec_chars(ms[0].from as nat) + seq!['/'] + (if ms.last().bear_off { "off"@ } else {
            dec_chars(ms.last().to as nat) }),
{
    lemma_chain_runs_to_end(ms, 0);
    let c = (ms[0].from, ms.last().bear_off, ms.last().to);
    assert(chains_from(ms, ms.len() as int) =~= Seq::<(u8, bool, u8)>::empty());
    assert(chains(ms) =~= seq![c]);
    let segs = chains(ms).map_values(|c: (u8, bool, u8)| seg_of(c));
    let seg = (ms[0].from, if ms.last().bear_off { 0u8 } else { ms.last().to });
    assert(segs =~= seq![seg]);
    lemma_pair_order();
    segs.lemma_sort_by_ensures(pair_order());
    let sorted = segs.sort_by(pair_order());
    broadcast use vstd::seq_lib::group_to_multiset_ensures;
    assert(sorted.len() == 1) by {
        assert(segs.to_multiset().len() == segs.len());
        assert(sorted.to_multiset().len() == sorted.len());
    }
    assert(sorted.contains(sorted[0]));
    assert(segs.contains(sorted[0]));
    assert(sorted =~= seq![seg]);
    assert(chains(ms).map_values(|c: (u8, bool, u8)| chain_text(c)) =~= seq![chain_text(c)]);
}

/// The chains of `ms`, in play order.
fn collapse(ms: &Vec<CheckerMove>) -> (r: Vec<(u8, bool, u8)>)
    ensures
        r@ == chains(ms@),
{
    let mut out: Vec<(u8, bool, u8)> = Vec::new();
    let mut i: usize = 0;
    let n = ms.len();
    while i < n
        invariant
            n == ms.len(),
            i <= n,
            chains(ms@) == out@ + chains_from(ms@, i as int),
        decreases n - i,
    {
        let start = ms[i].from;
        let mut j = i;
        while j + 1 < n && !ms[j].bear_off && ms[j + 1].from == ms[j].to
            invariant
                n == ms.len(),
                i <= j < n,
                chain_end(ms@, i as int) == chain_end(ms@, j as int),
            decreases n - j,
        {
            j += 1;
        }
        proof {
            lemma_chain_end(ms@, i as int);
            assert(chains_from(ms@, i as int) == seq![chain_at(ms@, i as int)] + chains_from(ms@, j + 1));
        }
        let ghost before = out@;
        out.push((start, ms[j].bear_off, ms[j].to));
        proof {
            assert(out@ + chains_from(ms@, j + 1) =~= before + chains_from(ms@, i as int));
        }
        i = j + 1;
    }
    proof {
        assert(chains_from(ms@, i as int) =~= Seq::<(u8, bool, u8)>::empty());
        assert(out@ + Seq::<(u8, bool, u8)>::empty() =~= out@);
    }
    out
}

/// `v` in lexicographic order.
fn sort_pairs(v: &Vec<(u8, u8)>) -> (r: Vec<(u8, u8)>)
    ensures
        r@ == v@.sort_by(pair_order()),
{
    let mut out: Vec<(u8, u8)> = Vec::new();
    let mut i: usize = 0;
    assert(v@.subrange(0, 0) =~= out@);
    while i < v.len()
        invariant
            i <= v.len(),
            sorted_by(out@, pair_order()),
            out@.to_multiset() == v@.subrange(0, i as int).to_multiset(),
        decreases v.len() - i,
    {
        let x = v[i];
        let mut j: usize = 0;
        while j < out.len() && (out[j].0 < x.0 || (out[j].0 == x.0 && out[j].1 <= x.1))
            invariant
                j <= out.len(),
                forall|k: int| 0 <= k < j ==> pair_le(#[trigger] out@[k], x),
            decreases out.len() - j,
        {
            j += 1;
        }
        let ghost before = out@;
        out.insert(j, x);
        proof {
            vstd::seq_lib::to_multiset_insert(before, j as int, x);
            assert(v@.subrange(0, i + 1) =~= v@.subrange(0, i as int).push(x));
            vstd::seq_lib::to_multiset_build(v@.subrange(0, i as int), x);
            assert(out@ == before.insert(j as int, x));
            assert forall|a: int, b: int| 0 <= a < b < out@.len() implies #[trigger] pair_order()(out@[a],
                out@[b]) by {
                if j < before.len() && b > j {
                    assert(pair_le(x, before[j as int]));
                }
                if a < j && b > j {
                    assert(pair_le(before[a], x));
                }
                if a > j {
                    assert(pair_order()(before[a - 1], before[b - 1]));
                }
                if a < j && b < j {
                    assert(pair_order()(before[a], before[b]));
                }
                if a == j && b > j + 1 {
                    assert(pair_order()(before[j as int], before[b - 1]));
                }
            }
        }
        i += 1;
    }
    proof {
        assert(v@.subrange(0, v.len() as int) =~= v@);
        lemma_pair_order();
        v@.lemma_sort_by_ensures(pair_order());
        vstd::seq_lib::lemma_sorted_unique(out@, v@.sort_by(pair_order()), pair_order());
    }
    out
}

/// Collapse a turn into its sorted endpoint segments: each moved checker as
/// `(start, end)`, `end == 0` when borne off; a single-checker chain
/// `24→18→16` counts as `(24, 16)`.
pub fn segments(t: &Turn) -> (r: Vec<(u8, u8)>)
    ensures
        r@ == segments_spec(t.moves@),
{
    let cs = collapse(&t.moves);
    let mut segs: Vec<(u8, u8)> = Vec::new();
    let mut i: usize = 0;
    while i < cs.len()
        invariant
            i <= cs.len(),
            segs@ == cs@.subrange(0, i as int).map_values(|c: (u8, bool, u8)| seg_of(c)),
        decreases cs.len() - i,
    {
        let c = cs[i];
        segs.push((c.0, if c.1 { 0 } else { c.2 }));
        i += 1;
        assert(segs@ =~= cs@.subrange(0, i as int).map_values(|c: (u8, bool, u8)| seg_of(c)));
    }
    assert(cs@.subrange(0, cs.len() as int) =~= cs@);
    sort_pairs(&segs)
}

/// A chain in notation: `start/end` or `start/off`.
pub open spec fn chain_text(c: (u8, bool, u8)) -> Seq<char> {
    dec_chars(c.0 as nat) + seq!['/'] + if c.1 { "off"@ } else { dec_chars(c.2 as nat) }
}

/// Human notation of a turn (`24/21 13/11`, `6/off`, or `pass`), chains in
/// play order.
pub open spec fn turn_text(ms: Seq<CheckerMove>) -> Seq<char> {
    let cs = chains(ms);
    if cs.len() == 0 {
        "pass"@
    } else {
        join(cs.map_values(|c: (u8, bool, u8)| chain_text(c)), ' ')
    }
}

/// Human-readable notation for a turn.
pub fn format_turn(t: &Turn) -> (s: String)
    ensures
        s@ == turn_text(t.moves@),
{
    let cs = collapse(&t.moves);
    let mut out: Vec<char> = Vec::new();
    if cs.len() == 0 {
        push_lit(&mut out, "pass");
        return string_of(&out);
    }
    let ghost texts = cs@.map_values(|c: (u8, bool, u8)| chain_text(c));
    let mut i: usize = 0;
    while i < cs.len()
        invariant
            i <= cs.len(),
            texts == cs@.map_values(|c: (u8, bool, u8)| chain_text(c)),
            out@ == join(texts.subrange(0, i as int), ' '),
        decreases cs.len() - i,
    {
        let ghost o0 = out@;
        if i > 0 {
            out.push(' ');
        }
        let ghost o1 = out@;
        let c = cs[i];
        push_dec(&mut out, c.0);
        out.push('/');
        if c.1 {
            push_lit(&mut out, "off");
        } else {
            push_dec(&mut out, c.2);
        }
        proof {
            assert(out@ =~= o1 + chain_text(c));
            let pre = texts.subrange(0, i + 1);
            assert(pre.drop_last() =~= texts.subrange(0, i as int));
            if i == 0 {
                assert(out@ =~= pre[0]);
            } else {
                assert(out@ =~= o0.push(' ') + pre.last());
            }
        }
        i += 1;
    }
    assert(texts.subrange(0, cs.len() as int) =~= texts);
    string_of(&out)
}

// ---------------------------------------------------------------------------
// Parsing played moves
// ---------------------------------------------------------------------------

/// Notation for a pass: empty, `pass` (any case), an em dash, or the
/// Russian `пропуск`.
pub open spec fn is_pass_text(s: Seq<char>) -> bool {
    s.len() == 0 || ieq(s, "pass"@) || s == "—"@ || ieq(s, "пропуск"@)
}

/// One `from/to` token; `to` may be `off`, `0` or `выкид` for a bear-off.
pub open spec fn play_tok(tok: Seq<char>) -> Option<(u8, u8)> {
    match split_once_on(tok, '/') {
        None => None,
        Some((a, b)) => match parse_u8_spec(trim_spec(a)) {
            None => None,
            Some(from) => if ieq(b, "off"@) || b == "0"@ || ieq(b, "выкид"@) {
                Some((from, 0u8))
            } else {
                match parse_u8_spec(trim_spec(b)) {
                    Some(to) => Some((from, to)),
                    None => None,
                }
            },
        },
    }
}

/// All tokens parsed, or `None` if any fails.
pub open spec fn play_toks(toks: Seq<Seq<char>>) -> Option<Seq<(u8, u8)>>
    decreases toks.len(),
{
    if toks.len() == 0 {
        Some(Seq::empty())
    } else {
        match (play_toks(toks.drop_last()), play_tok(toks.last())) {
            (Some(p), Some(x)) => Some(p.push(x)),
            _ => None,
        }
    }
}

/// A played-move string as sorted endpoint segments; `None` if unparseable.
pub open spec fn parse_play_spec(s: Seq<char>) -> Option<Seq<(u8, u8)>> {
    let t = trim_spec(s);
    if is_pass_text(t) {
        Some(Seq::empty())
    } else {
        match play_toks(ws_tokens(t)) {
            Some(p) => Some(p.sort_by(pair_order())),
            None => None,
        }
    }
}

fn play_tok_exec(tok: &Vec<char>) -> (r: Option<(u8, u8)>)
    ensures
        r == play_tok(tok@),
{
    let (a, b) = match split_once_char(tok, '/') {
        Some(ab) => ab,
        None => return None,
    };
    let at = trim(&a);
    let from = match parse_u8(&at) {
        Some(x) => x,
        None => return None,
    };
    if ieq_lit(&b, "off") || eq_lit(&b, "0") || ieq_lit(&b, "выкид") {
        return Some((from, 0));
    }
    let bt = trim(&b);
    match parse_u8(&bt) {
        Some(to) => Some((from, to)),
        None => None,
    }
}

fn parse_play_chars(v: &Vec<char>) -> (r: Option<Vec<(u8, u8)>>)
    ensures
        match parse_play_spec(v@) {
            None => r is None,
            Some(p) => r matches Some(x) && x@ == p,
        },
{
    let t = trim(v);
    if t.len() == 0 || ieq_lit(&t, "pass") || eq_lit(&t, "—") || ieq_lit(&t, "пропуск") {
        return Some(Vec::new());
    }
    let toks = split_ws(&t);
    let ghost tv = pieces_view(toks@);
    let mut segs: Vec<(u8, u8)> = Vec::new();
    let mut i: usize = 0;
    while i < toks.len()
        invariant
            i <= toks.len(),
            tv == pieces_view(toks@),
            tv == ws_tokens(t@),
            t@ == trim_spec(v@),
            !is_pass_text(t@),
            play_toks(tv.subrange(0, i as int)) == Some(segs@),
        decreases toks.len() - i,
    {
        proof {
            assert(tv.subrange(0, i + 1).drop_last() =~= tv.subrange(0, i as int));
            assert(tv[i as int] == toks@[i as int]@);
        }
        match play_tok_exec(&toks[i]) {
            Some(x) => segs.push(x),
            None => {
                proof {
                    lemma_play_toks_none(tv, i as int);
                }
                return None;
            },
        }
        i += 1;
    }
    assert(tv.subrange(0, toks.len() as int) =~= tv);
    Some(sort_pairs(&segs))
}

proof fn lemma_play_toks_none(toks: Seq<Seq<char>>, i: int)
    requires
        0 <= i < toks.len(),
        play_tok(toks[i]) is None,
    ensures
        play_toks(toks) is None,
    decreases toks.len(),
{
    if i < toks.len() - 1 {
        assert(toks.drop_last()[i] == toks[i]);
        lemma_play_toks_none(toks.drop_last(), i);
    }
}

/// Parse a played-move string like `24/21 13/11`, `6/off 5/3`, or `pass`
/// into sorted endpoint segments; `None` if unparseable.
pub fn parse_play(s: &str) -> (r: Option<Vec<(u8, u8)>>)
    ensures
        match parse_play_spec(s@) {
            None => r is None,
            Some(p) => r matches Some(x) && x@ == p,
        },
{
    let v = chars_of(s);
    parse_play_chars(&v)
}

fn eq_pairs(a: &Vec<(u8, u8)>, b: &Vec<(u8, u8)>) -> (r: bool)
    ensures
        r == (a@ == b@),
{
    if a.len() != b.len() {
        return false;
    }
    let mut i: usize = 0;
    while i < a.len()
        invariant
            a.len() == b.len(),
            i <= a.len(),
            forall|j: int| 0 <= j < i ==> a@[j] == b@[j],
        decreases a.len() - i,
    {
        if a[i].0 != b[i].0 || a[i].1 != b[i].1 {
            return false;
        }
        i += 1;
    }
    assert(a@ =~= b@);
    true
}

/// The first turn whose segments are `target`.
pub open spec fn is_first_match(turns: Seq<Turn>, target: Seq<(u8, u8)>, i: int) -> bool {
    &&& 0 <= i < turns.len()
    &&& segments_spec(turns[i].moves@) == target
    &&& forall|j: int| 0 <= j < i ==> segments_spec(#[trigger] turns[j].moves@) != target
}

fn match_chars(turns: &[Turn], played: &Vec<char>) -> (r: Option<usize>)
    ensures
        match parse_play_spec(played@) {
            None => r is None,
            Some(tg) => match r {
                Some(i) => is_first_match(turns@, tg, i as int),
                None => forall|j: int| 0 <= j < turns@.len() ==> segments_spec(#[trigger] turns@[j].moves@) != tg,
            },
        },
{
    let target = match parse_play_chars(played) {
        Some(t) => t,
        None => return None,
    };
    let mut i: usize = 0;
    while i < turns.len()
        invariant
            i <= turns.len(),
            parse_play_spec(played@) == Some(target@),
            forall|j: int| 0 <= j < i ==> segments_spec(#[trigger] turns@[j].moves@) != target@,
        decreases turns.len() - i,
    {
        let sg = segments(&turns[i]);
        if eq_pairs(&sg, &target) {
            return Some(i);
        }
        i += 1;
    }
    None
}

/// Index of the legal turn whose collapsed segments equal the played move.
pub fn match_index(turns: &[Turn], played: &str) -> (r: Option<usize>)
    ensures
        match parse_play_spec(played@) {
            None => r is None,
            Some(tg) => match r {
                Some(i) => is_first_match(turns@, tg, i as int),
                None => forall|j: int| 0 <= j < turns@.len() ==> segments_spec(#[trigger] turns@[j].moves@) != tg,
            },
        },
{
    let v = chars_of(played);
    match_chars(turns, &v)
}

// ---------------------------------------------------------------------------
// Replaying a game
// ---------------------------------------------------------------------------

/// One scored decision: a position, the roll, and the move actually played.
#[derive(Clone)]
pub struct Decision {
    pub board: Board,
    pub mover: Player,
    pub dice: [u8; 2],
    pub first: bool,
    pub played: String,
}

/// Whose turn ply `k` is: White opens.
pub open spec fn mover_of_ply(k: int) -> Player {
    if k % 2 == 0 { Player::White } else { Player::Black }
}

/// Entry `i` of listed turns is the first whose segments are `target`.
pub open spec fn first_listed_match(ts: Seq<(Seq<CheckerMove>, BoardView)>, target: Seq<(u8, u8)>, i: int) -> bool {
    &&& 0 <= i < ts.len()
    &&& segments_spec(ts[i].0) == target
    &&& forall|j: int| 0 <= j < i ==> segments_spec(#[trigger] ts[j].0) != target
}

/// `next` follows from `b` by a legal turn of `mover` whose segments are the
/// played notation: the first such turn the generator lists.
pub open spec fn replay_link(b: BoardView, mover: Player, dice: [u8; 2], first: bool, played: Seq<char>,
    next: BoardView) -> bool {
    &&& exists|s: Seq<CheckerMove>|
        #[trigger] turn_spec(b, mover, dice, head_budget_spec(b, mover, dice, first, Some(1u8)), s, next)
        && parse_play_spec(played) == Some(segments_spec(s))
    &&& exists|i: int| #[trigger] first_listed_match(generated(b, mover, dice, first, Some(1u8)),
        parse_play_spec(played)->0, i) && generated(b, mover, dice, first, Some(1u8))[i].1 == next
}

/// The decisions reconstruct plies `0..decs.len()`: each is the position
/// before the ply, with its roll and notation, the sides alternating from
/// the standard start, and each position follows from the previous one by
/// the legal turn the previous notation names.
pub open spec fn replayed(plies: Seq<([u8; 2], String)>, decs: Seq<Decision>) -> bool {
    &&& decs.len() <= plies.len()
    &&& decs.len() > 0 ==> decs[0].board@ == BoardView::starting_spec()
    &&& forall|i: int| 0 <= i < decs.len() ==> {
        &&& (#[trigger] decs[i]).dice == plies[i].0
        &&& decs[i].played@ == plies[i].1@
        &&& decs[i].mover == mover_of_ply(i)
        &&& decs[i].first == (i < 2)
        &&& parse_play_spec(plies[i].1@) is Some
    }
    &&& forall|i: int| 0 <= i < decs.len() - 1 ==> replay_link(decs[i].board@, decs[i].mover, decs[i].dice,
        decs[i].first, decs[i].played@, (#[trigger] decs[i + 1]).board@)
}

/// No turn the generator lists for `b` and the roll is written `played`:
/// the notation does not parse, or it names the segments of none of them.
pub open spec fn unmatched(b: BoardView, mover: Player, dice: [u8; 2], first: bool, played: Seq<char>) -> bool {
    match parse_play_spec(played) {
        None => true,
        Some(tg) => forall|j: int| 0 <= j < generated(b, mover, dice, first, Some(1u8)).len()
            ==> segments_spec(#[trigger] generated(b, mover, dice, first, Some(1u8))[j].0) != tg,
    }
}

/// Plies 0 and 1 are each side's first turn.
pub open spec fn first_ply(k: int) -> bool {
    k < 2
}

/// Ply `k` could not be replayed: from the board the decisions before it
/// lead to (the start when `k` is 0), its notation matches no listed turn.
pub open spec fn stopped_at(plies: Seq<([u8; 2], String)>, decs: Seq<Decision>, k: int) -> bool {
    exists|nb: BoardView| {
        &&& #[trigger] unmatched(nb, mover_of_ply(k), plies[k].0, first_ply(k), plies[k].1@)
        &&& k == 0 ==> nb == BoardView::starting_spec()
        &&& k > 0 ==> replay_link(decs[k - 1].board@, decs[k - 1].mover, decs[k - 1].dice, decs[k - 1].first,
            decs[k - 1].played@, nb)
    }
}

/// A ply whose notation matches nothing in a complete list of the legal
/// turns from the board reached so far is where the replay stops.
proof fn lemma_stopped(plies: Seq<([u8; 2], String)>, decs: Seq<Decision>, k: int, b: BoardView, ts: Seq<Turn>)
    requires
        0 <= k < plies.len(),
        decs.len() == k,
        k == 0 ==> b == BoardView::starting_spec(),
        k > 0 ==> replay_link(decs[k - 1].board@, decs[k - 1].mover, decs[k - 1].dice, decs[k - 1].first,
            decs[k - 1].played@, b),
        turns_view(ts) == generated(b, mover_of_ply(k), plies[k].0, k < 2, Some(1u8)),
        match parse_play_spec(plies[k].1@) {
            None => true,
            Some(tg) => forall|j: int| 0 <= j < ts.len() ==> segments_spec(#[trigger] ts[j].moves@) != tg,
        },
    ensures
        stopped_at(plies, decs, k),
{
    if parse_play_spec(plies[k].1@) is Some {
        let g = generated(b, mover_of_ply(k), plies[k].0, k < 2, Some(1u8));
        assert forall|j: int| 0 <= j < g.len() implies segments_spec(#[trigger] g[j].0)
            != parse_play_spec(plies[k].1@)->0 by {
            assert(turns_view(ts)[j] == turn_view(ts[j]));
        }
    }
    assert(unmatched(b, mover_of_ply(k), plies[k].0, first_ply(k), plies[k].1@));
}

/// Reconstruct the decisions of one game from its plies (`(dice, notation)`
/// in play order from the standard start). Returns the decisions and the
/// index of the first ply that could not be matched to a legal turn.
pub fn replay_plies(plies: &[([u8; 2], String)]) -> (r: (Vec<Decision>, Option<usize>))
    requires
        forall|i: int| 0 <= i < plies@.len() ==> (#[trigger] plies@[i]).0[0] <= 6 && plies@[i].0[1] <= 6,
    ensures
        replayed(plies@, r.0@),
        r.1 is None ==> r.0@.len() == plies@.len(),
        r.1 matches Some(k) ==> k == r.0@.len() && k < plies@.len() && stopped_at(plies@, r.0@, k as int),
{
    let mut board = Board::starting();
    let mut mover = Player::White;
    let mut first: [bool; 2] = [true, true];
    let mut out: Vec<Decision> = Vec::new();
    let mut k: usize = 0;
    proof { BoardView::lemma_starting_wf(); }
    while k < plies.len()
        invariant
            k <= plies@.len(),
            out@.len() == k,
            forall|i: int| 0 <= i < plies@.len() ==> (#[trigger] plies@[i]).0[0] <= 6 && plies@[i].0[1] <= 6,
            replayed(plies@, out@),
            board@.wf(),
            k == 0 ==> board@ == BoardView::starting_spec(),
            k > 0 ==> replay_link(out@[k - 1].board@, out@[k - 1].mover, out@[k - 1].dice, out@[k - 1].first,
                out@[k - 1].played@, board@),
            mover == mover_of_ply(k as int),
            first[0] == (k < 1),
            first[1] == (k < 2),
        decreases plies@.len() - k,
    {
        let dice = plies[k].0;
        let fst = first[mover.index()];
        let turns = generate_turns_cfg(&board, mover, dice, fst, Some(1u8));
        let ghost bu = head_budget_spec(board@, mover, dice, fst, Some(1u8));
        proof { reveal(turns_spec); }
        let idx = match match_index(turns.as_slice(), plies[k].1.as_str()) {
            Some(i) => i,
            None => {
                proof {
                    assert(fst == (k < 2));
                    lemma_stopped(plies@, out@, k as int, board@, turns@);
                }
                return (out, Some(k));
            },
        };
        let d = Decision { board, mover, dice, first: fst, played: plies[k].1.clone() };
        let ghost before = out@;
        out.push(d);
        proof {
            let tg = parse_play_spec(plies@[k as int].1@)->0;
            assert(turn_spec(board@, mover, dice, bu, turns@[idx as int].moves@, turns@[idx as int].board@));
            assert(segments_spec(turns@[idx as int].moves@) == tg);
            let g = generated(board@, mover, dice, fst, Some(1u8));
            assert(g[idx as int] == turn_view(turns@[idx as int]));
            assert forall|j: int| 0 <= j < idx implies segments_spec(#[trigger] g[j].0) != tg by {
                assert(g[j] == turn_view(turns@[j]));
            }
            assert(first_listed_match(g, tg, idx as int));
            assert(replay_link(board@, mover, dice, fst, plies@[k as int].1@, turns@[idx as int].board@));
            assert forall|i: int| 0 <= i < out@.len() - 1 implies replay_link(out@[i].board@, out@[i].mover,
                out@[i].dice, out@[i].first, out@[i].played@, (#[trigger] out@[i + 1]).board@) by {
                if i < k - 1 {
                    assert(out@[i] == before[i] && out@[i + 1] == before[i + 1]);
                }
            }
            assert forall|i: int| 0 <= i < out@.len() implies {
                &&& (#[trigger] out@[i]).dice == plies@[i].0
                &&& out@[i].played@ == plies@[i].1@
                &&& out@[i].mover == mover_of_ply(i)
                &&& out@[i].first == (i < 2)
                &&& parse_play_spec(plies@[i].1@) is Some
            } by {
                if i < k {
                    assert(out@[i] == before[i]);
                }
            }
        }
        board = turns[idx].board;
        first[mover.index()] = false;
        mover = mover.opponent();
        k += 1;
    }
    (out, None)
}

// ---------------------------------------------------------------------------
// .MAT transcripts
// ---------------------------------------------------------------------------

/// A dice header token such as `31:`: two or more digits and a colon.
pub open spec fn is_dice_header(tok: Seq<char>) -> bool {
    tok.len() >= 3 && tok.last() == ':' && crate::text::all_digits(tok.drop_last())
}

/// Completed halves and the half being built, after the given tokens.
pub open spec fn halves_fold(toks: Seq<Seq<char>>) -> (Seq<Seq<char>>, Seq<char>)
    decreases toks.len(),
{
    if toks.len() == 0 {
        (Seq::empty(), Seq::empty())
    } else {
        let (h, cur) = halves_fold(toks.drop_last());
        let tok = toks.last();
        let (h1, c1) = if is_dice_header(tok) && cur.len() > 0 { (h.push(cur), Seq::<char>::empty()) } else { (h, cur) };
        (h1, if c1.len() > 0 { c1.push(' ') + tok } else { tok })
    }
}

/// The `DICE: moves` halves of a move line's body: a new half starts at
/// each dice header after the first, tokens joined by single spaces.
pub open spec fn halves_spec(rest: Seq<char>) -> Seq<Seq<char>> {
    let (h, cur) = halves_fold(ws_tokens(rest));
    if cur.len() > 0 { h.push(cur) } else { h }
}

/// The tokens containing a `/`.
pub open spec fn slash_tokens(toks: Seq<Seq<char>>) -> Seq<Seq<char>>
    decreases toks.len(),
{
    if toks.len() == 0 {
        Seq::empty()
    } else {
        let prev = slash_tokens(toks.drop_last());
        if toks.last().contains('/') { prev.push(toks.last()) } else { prev }
    }
}

/// One `DD: moves` half: the dice are the first two digits of the header,
/// the moves the tokens holding a `/` (none: `pass`).
pub open spec fn half_spec(half: Seq<char>) -> Option<((u8, u8), Seq<char>)> {
    match split_once_on(half, ':') {
        None => None,
        Some((head0, moves0)) => {
            let head = trim_spec(head0);
            if head.len() < 2 || !crate::text::all_digits(head) {
                None
            } else {
                let mv = slash_tokens(ws_tokens(trim_spec(moves0)));
                Some(((crate::text::digit_of(head[0]) as u8, crate::text::digit_of(head[1]) as u8),
                    if mv.len() == 0 { "pass"@ } else { join(mv, ' ') }))
            }
        },
    }
}

/// The plies of the parseable halves, in order.
pub open spec fn halves_plies(hs: Seq<Seq<char>>) -> Seq<((u8, u8), Seq<char>)>
    decreases hs.len(),
{
    if hs.len() == 0 {
        Seq::empty()
    } else {
        let prev = halves_plies(hs.drop_last());
        match half_spec(hs.last()) {
            Some(p) => prev.push(p),
            None => prev,
        }
    }
}

/// The plies of one transcript line: only lines of the form `N) ...` with
/// `N` a run of digits count.
pub open spec fn mat_line(line: Seq<char>) -> Seq<((u8, u8), Seq<char>)> {
    match split_once_on(trim_spec(line), ')') {
        Some((n, r)) => if n.len() > 0 && crate::text::all_digits(n) {
            halves_plies(halves_spec(trim_spec(r)))
        } else {
            Seq::empty()
        },
        None => Seq::empty(),
    }
}

/// The plies of all lines (a line break is `\n`; a `\r` before it is
/// whitespace that trimming removes).
pub open spec fn mat_lines(lines: Seq<Seq<char>>) -> Seq<((u8, u8), Seq<char>)>
    decreases lines.len(),
{
    if lines.len() == 0 {
        Seq::empty()
    } else {
        mat_lines(lines.drop_last()) + mat_line(lines.last())
    }
}

/// The plies of a transcript.
pub open spec fn mat_spec(text: Seq<char>) -> Seq<((u8, u8), Seq<char>)> {
    mat_lines(crate::text::split_on(text, '\n'))
}

/// A dice header token.
fn is_dice_header_exec(tok: &Vec<char>) -> (r: bool)
    ensures
        r == is_dice_header(tok@),
{
    let n = tok.len();
    if n < 3 || tok[n - 1] != ':' {
        return false;
    }
    let mut i: usize = 0;
    while i < n - 1
        invariant
            3 <= n == tok.len(),
            i <= n - 1,
            forall|j: int| 0 <= j < i ==> crate::text::is_digit(#[trigger] tok@[j]),
        decreases n - 1 - i,
    {
        if !('0' <= tok[i] && tok[i] <= '9') {
            assert(tok@.drop_last()[i as int] == tok@[i as int]);
            return false;
        }
        i += 1;
    }
    assert forall|j: int| 0 <= j < tok@.drop_last().len() implies crate::text::is_digit(
        #[trigger] tok@.drop_last()[j]) by {
        assert(tok@.drop_last()[j] == tok@[j]);
    }
    true
}

fn split_halves_chars(rest: &Vec<char>) -> (r: Vec<Vec<char>>)
    ensures
        pieces_view(r@) == halves_spec(rest@),
{
    let toks = split_ws(rest);
    let ghost tv = pieces_view(toks@);
    let mut halves: Vec<Vec<char>> = Vec::new();
    let mut cur: Vec<char> = Vec::new();
    let mut i: usize = 0;
    while i < toks.len()
        invariant
            i <= toks.len(),
            tv == pieces_view(toks@),
            tv == ws_tokens(rest@),
            halves_fold(tv.subrange(0, i as int)) == (pieces_view(halves@), cur@),
        decreases toks.len() - i,
    {
        let tok = &toks[i];
        proof {
            assert(tv.subrange(0, i + 1).drop_last() =~= tv.subrange(0, i as int));
            assert(tv[i as int] == tok@);
        }
        if is_dice_header_exec(tok) && cur.len() > 0 {
            let ghost hb = halves@;
            let c = cur;
            halves.push(c);
            cur = Vec::new();
            proof {
                assert(pieces_view(halves@) =~= pieces_view(hb).push(c@));
            }
        }
        let ghost c0 = cur@;
        if cur.len() > 0 {
            cur.push(' ');
        }
        crate::text::push_all(&mut cur, tok);
        proof {
            if c0.len() > 0 {
                assert(cur@ =~= c0.push(' ') + tok@);
            } else {
                assert(cur@ =~= tok@);
            }
        }
        i += 1;
    }
    assert(tv.subrange(0, toks.len() as int) =~= tv);
    if cur.len() > 0 {
        let ghost hb = halves@;
        let c = cur;
        halves.push(c);
        proof {
            assert(pieces_view(halves@) =~= pieces_view(hb).push(c@));
        }
    }
    halves
}

/// Split a move line's body into its (up to two) `DICE: moves` halves.
pub fn split_halves(rest: &str) -> (r: Vec<String>)
    ensures
        r@.len() == halves_spec(rest@).len(),
        forall|i: int| 0 <= i < r@.len() ==> (#[trigger] r@[i])@ == halves_spec(rest@)[i],
{
    let v = chars_of(rest);
    let hs = split_halves_chars(&v);
    let mut out: Vec<String> = Vec::new();
    let mut i: usize = 0;
    while i < hs.len()
        invariant
            i <= hs.len(),
            pieces_view(hs@) == halves_spec(rest@),
            out@.len() == i,
            forall|j: int| 0 <= j < i ==> (#[trigger] out@[j])@ == halves_spec(rest@)[j],
        decreases hs.len() - i,
    {
        let s = string_of(&hs[i]);
        proof { assert(pieces_view(hs@)[i as int] == hs@[i as int]@); }
        out.push(s);
        i += 1;
    }
    out
}

fn slash_exec(toks: &Vec<Vec<char>>) -> (r: Vec<Vec<char>>)
    ensures
        pieces_view(r@) == slash_tokens(pieces_view(toks@)),
{
    let ghost tv = pieces_view(toks@);
    let mut out: Vec<Vec<char>> = Vec::new();
    let mut i: usize = 0;
    while i < toks.len()
        invariant
            i <= toks.len(),
            tv == pieces_view(toks@),
            pieces_view(out@) == slash_tokens(tv.subrange(0, i as int)),
        decreases toks.len() - i,
    {
        proof {
            assert(tv.subrange(0, i + 1).drop_last() =~= tv.subrange(0, i as int));
            assert(tv[i as int] == toks@[i as int]@);
        }
        let t = &toks[i];
        let k = crate::text::find_char(t, '/');
        if k < t.len() {
            let ghost ob = out@;
            let c = crate::text::slice_of(t, 0, t.len());
            proof { assert(c@ =~= t@); }
            out.push(c);
            proof {
                assert(t@.contains('/')) by { assert(t@[k as int] == '/'); }
                assert(pieces_view(out@) =~= pieces_view(ob).push(t@));
            }
        } else {
            proof {
                assert(!t@.contains('/'));
            }
        }
        i += 1;
    }
    assert(tv.subrange(0, toks.len() as int) =~= tv);
    out
}

fn parse_half_chars(half: &Vec<char>) -> (r: Option<([u8; 2], Vec<char>)>)
    ensures
        match half_spec(half@) {
            None => r is None,
            Some(((a, b), m)) => r matches Some((d, x)) && d[0] == a && d[1] == b && x@ == m,
        },
{
    let (head0, moves0) = match split_once_char(half, ':') {
        Some(hm) => hm,
        None => return None,
    };
    let head = trim(&head0);
    if head.len() < 2 {
        return None;
    }
    if !all_digits_exec(&head) {
        return None;
    }
    let d1 = ((head[0] as u32) - ('0' as u32)) as u8;
    let d2 = ((head[1] as u32) - ('0' as u32)) as u8;
    let mt = trim(&moves0);
    let toks = split_ws(&mt);
    let mv = slash_exec(&toks);
    let mut out: Vec<char> = Vec::new();
    if mv.len() == 0 {
        push_lit(&mut out, "pass");
    } else {
        out = crate::notation::join_pieces(&mv, ' ');
    }
    Some(([d1, d2], out))
}

/// Parse one `DD: moves` half into its dice and moves (`pass` when no
/// token holds a `/`).
pub fn parse_half(half: &str) -> (r: Option<([u8; 2], String)>)
    ensures
        match half_spec(half@) {
            None => r is None,
            Some(((a, b), m)) => r matches Some((d, x)) && d[0] == a && d[1] == b && x@ == m,
        },
{
    let v = chars_of(half);
    match parse_half_chars(&v) {
        Some((d, m)) => Some((d, string_of(&m))),
        None => None,
    }
}

/// Parse the move plies out of a `.MAT` match transcript: lines like
/// `  3) 31: 24/21 13/11   62: 13/7 24/18`, the left half the first mover's
/// play, the right the second's; other lines are ignored.
pub fn parse_mat(text: &str) -> (r: Vec<([u8; 2], String)>)
    ensures
        r@.len() == mat_spec(text@).len(),
        forall|i: int| 0 <= i < r@.len() ==> {
            &&& (#[trigger] r@[i]).0[0] == mat_spec(text@)[i].0.0
            &&& r@[i].0[1] == mat_spec(text@)[i].0.1
            &&& r@[i].1@ == mat_spec(text@)[i].1
        },
{
    let v = chars_of(text);
    let lines = crate::text::split_char(&v, '\n');
    let ghost lv = pieces_view(lines@);
    let mut out: Vec<([u8; 2], String)> = Vec::new();
    let mut li: usize = 0;
    while li < lines.len()
        invariant
            li <= lines.len(),
            lv == pieces_view(lines@),
            lv == crate::text::split_on(text@, '\n'),
            out@.len() == mat_lines(lv.subrange(0, li as int)).len(),
            forall|i: int| 0 <= i < out@.len() ==> {
                &&& (#[trigger] out@[i]).0[0] == mat_lines(lv.subrange(0, li as int))[i].0.0
                &&& out@[i].0[1] == mat_lines(lv.subrange(0, li as int))[i].0.1
                &&& out@[i].1@ == mat_lines(lv.subrange(0, li as int))[i].1
            },
        decreases lines.len() - li,
    {
        let ghost pre = mat_lines(lv.subrange(0, li as int));
        proof {
            assert(lv.subrange(0, li + 1).drop_last() =~= lv.subrange(0, li as int));
            assert(lv[li as int] == lines@[li as int]@);
        }
        let ghost add = mat_line(lines@[li as int]@);
        let ghost ob = out@;
        let line = trim(&lines[li]);
        let mut hs: Vec<Vec<char>> = Vec::new();
        match split_once_char(&line, ')') {
            Some((n, r)) => {
                if n.len() > 0 && all_digits_exec(&n) {
                    let rt = trim(&r);
                    hs = split_halves_chars(&rt);
                }
            },
            None => {},
        }
        let ghost hv = pieces_view(hs@);
        proof {
            assert(add == halves_plies(hv));
        }
        let mut h: usize = 0;
        while h < hs.len()
            invariant
                h <= hs.len(),
                hv == pieces_view(hs@),
                out@.len() == ob.len() + halves_plies(hv.subrange(0, h as int)).len(),
                forall|i: int| 0 <= i < ob.len() ==> out@[i] == ob[i],
                forall|i: int| 0 <= i < halves_plies(hv.subrange(0, h as int)).len() ==> {
                    &&& (#[trigger] out@[ob.len() + i]).0[0] == halves_plies(hv.subrange(0, h as int))[i].0.0
                    &&& out@[ob.len() + i].0[1] == halves_plies(hv.subrange(0, h as int))[i].0.1
                    &&& out@[ob.len() + i].1@ == halves_plies(hv.subrange(0, h as int))[i].1
                },
            decreases hs.len() - h,
        {
            proof {
                assert(hv.subrange(0, h + 1).drop_last() =~= hv.subrange(0, h as int));
                assert(hv[h as int] == hs@[h as int]@);
            }
            match parse_half_chars(&hs[h]) {
                Some((d, m)) => {
                    let ms = string_of(&m);
                    out.push((d, ms));
                },
                None => {},
            }
            h += 1;
        }
        proof {
            assert(hv.subrange(0, hs.len() as int) =~= hv);
            let now = mat_lines(lv.subrange(0, li + 1));
            assert(now == pre + add);
            assert forall|i: int| 0 <= i < out@.len() implies {
                &&& (#[trigger] out@[i]).0[0] == now[i].0.0
                &&& out@[i].0[1] == now[i].0.1
                &&& out@[i].1@ == now[i].1
            } by {
                if i >= ob.len() {
                    let k = i - ob.len();
                    assert(now[i] == add[k]);
                    assert(0 <= k < halves_plies(hv.subrange(0, hs.len() as int)).len());
                    assert(out@[ob.len() + k].0[0] == add[k].0.0);
                    assert(out@[ob.len() + k] == out@[i]);
                } else {
                    assert(now[i] == pre[i]);
                    assert(out@[i] == ob[i]);
                    assert(ob[i].0[0] == pre[i].0.0);
                }
            }
        }
        li += 1;
    }
    assert(lv.subrange(0, lines.len() as int) =~= lv);
    out
}

fn all_digits_exec(v: &Vec<char>) -> (r: bool)
    ensures
        r == crate::text::all_digits(v@),
{
    let mut i: usize = 0;
    while i < v.len()
        invariant
            i <= v.len(),
            forall|j: int| 0 <= j < i ==> crate::text::is_digit(#[trigger] v@[j]),
        decreases v.len() - i,
    {
        if !('0' <= v[i] && v[i] <= '9') {
            return false;
        }
        i += 1;
    }
    true
}

// ---------------------------------------------------------------------------
// Reading back the notation of a turn
// ---------------------------------------------------------------------------

/// Joining with spaces is the first piece followed by the others, each
/// after a space.
proof fn lemma_join_spaced(ps: Seq<Seq<char>>)
    requires
        ps.len() >= 1,
    ensures
        join(ps, ' ') == ps[0] + crate::notation::spaced(ps.drop_first()),
    decreases ps.len(),
{
    if ps.len() == 1 {
        assert(ps.drop_first() =~= Seq::<Seq<char>>::empty());
        assert(ps[0] + crate::notation::spaced(ps.drop_first()) =~= ps[0]);
    } else {
        crate::text::lemma_join_front(ps, ' ');
        lemma_join_spaced(ps.drop_first());
        let r = ps.drop_first();
        assert(r.drop_first() =~= ps.drop_first().drop_first());
        assert(crate::notation::spaced(r) == seq![' '] + r[0] + crate::notation::spaced(r.drop_first()));
        assert(join(ps, ' ') =~= ps[0] + crate::notation::spaced(ps.drop_first()));
    }
}

proof fn lemma_chain_text(c: (u8, bool, u8))
    ensures
        chain_text(c).len() > 0,
        crate::text::no_ws(chain_text(c)),
        play_tok(chain_text(c)) == Some(seg_of(c)),
        chain_text(c)[0] != 'p' && chain_text(c)[0] != 'P' && crate::text::is_digit(chain_text(c)[0]),
{
    reveal_strlit("off");
    reveal_strlit("0");
    reveal_strlit("выкид");
    let a = dec_chars(c.0 as nat);
    let rest = if c.1 { "off"@ } else { dec_chars(c.2 as nat) };
    let t = chain_text(c);
    crate::text::lemma_dec_chars(c.0 as nat);
    crate::text::lemma_dec_chars(c.2 as nat);
    assert(t == a + seq!['/'] + rest);
    assert(crate::text::no_char(a, '/'));
    crate::text::lemma_split_cons(a, '/', rest);
    crate::text::lemma_trim_no_ws(a);
    crate::text::lemma_parse_dec(c.0);
    assert(t[0] == a[0]);
    assert forall|i: int| 0 <= i < t.len() implies !crate::text::is_ws(#[trigger] t[i]) by {
        if i < a.len() {
            assert(t[i] == a[i]);
        } else if i > a.len() {
            assert(t[i] == rest[i - a.len() - 1]);
        }
    }
    if !c.1 {
        let d = dec_chars(c.2 as nat);
        crate::text::lemma_trim_no_ws(d);
        crate::text::lemma_parse_dec(c.2);
        assert(!crate::text::ieq_char(d[0], "off"@[0]));
        assert(!ieq(d, "off"@));
        assert(!crate::text::ieq_char(d[0], "выкид"@[0]));
        assert(!ieq(d, "выкид"@));
        if d == "0"@ {
            assert(c.2 == 0) by {
                assert(crate::text::dec_value(d) == 0) by {
                    assert(d.len() == 1 && d[0] == '0');
                    assert(d.drop_last() =~= Seq::<char>::empty());
                    assert(d.last() == '0');
                    assert(crate::text::dec_value(d.drop_last()) == 0);
                    assert(crate::text::digit_of('0') == 0);
                    assert(crate::text::dec_value(d) == crate::text::dec_value(d.drop_last()) * 10
                        + crate::text::digit_of(d.last()));
                }
            }
        }
    } else {
        assert(ieq("off"@, "off"@));
    }
}

proof fn lemma_play_toks_texts(cs: Seq<(u8, bool, u8)>)
    ensures
        play_toks(cs.map_values(|c: (u8, bool, u8)| chain_text(c)))
            == Some(cs.map_values(|c: (u8, bool, u8)| seg_of(c))),
    decreases cs.len(),
{
    let ts = cs.map_values(|c: (u8, bool, u8)| chain_text(c));
    if cs.len() > 0 {
        lemma_play_toks_texts(cs.drop_last());
        assert(ts.drop_last() =~= cs.drop_last().map_values(|c: (u8, bool, u8)| chain_text(c)));
        lemma_chain_text(cs.last());
        assert(ts.last() == chain_text(cs.last()));
        assert(cs.map_values(|c: (u8, bool, u8)| seg_of(c)) =~= cs.drop_last().map_values(
            |c: (u8, bool, u8)| seg_of(c)).push(seg_of(cs.last())));
    } else {
        assert(ts =~= Seq::<Seq<char>>::empty());
        assert(cs.map_values(|c: (u8, bool, u8)| seg_of(c)) =~= Seq::<(u8, u8)>::empty());
    }
}

proof fn lemma_join_last(ps: Seq<Seq<char>>)
    requires
        ps.len() >= 1,
        ps.last().len() > 0,
        ps[0].len() > 0,
    ensures
        join(ps, ' ').len() > 0,
        join(ps, ' ').last() == ps.last().last(),
        join(ps, ' ')[0] == ps[0][0],
    decreases ps.len(),
{
    if ps.len() >= 2 {
        crate::text::lemma_join_front(ps, ' ');
        let j = join(ps.drop_last(), ' ');
        assert(join(ps, ' ') == j.push(' ') + ps.last());
    }
}

/// Reading back the notation of a turn gives exactly its segments: the
/// matcher inverts the notation.
pub proof fn lemma_notation_round_trip(ms: Seq<CheckerMove>)
    ensures
        parse_play_spec(turn_text(ms)) == Some(segments_spec(ms)),
{
    let cs = chains(ms);
    let ts = cs.map_values(|c: (u8, bool, u8)| chain_text(c));
    if cs.len() == 0 {
        reveal_strlit("pass");
        crate::text::lemma_trim_no_ws("pass"@);
        assert(ieq("pass"@, "pass"@));
        assert(cs.map_values(|c: (u8, bool, u8)| seg_of(c)) =~= Seq::<(u8, u8)>::empty());
        assert(Seq::<(u8, u8)>::empty().sort_by(pair_order()) =~= Seq::<(u8, u8)>::empty()) by {
            lemma_pair_order();
            let e = Seq::<(u8, u8)>::empty();
            e.lemma_sort_by_ensures(pair_order());
            vstd::seq_lib::to_multiset_len(e);
            vstd::seq_lib::to_multiset_len(e.sort_by(pair_order()));
        }
    } else {
        let line = join(ts, ' ');
        assert forall|i: int| 0 <= i < ts.len() implies (#[trigger] ts[i]).len() > 0 && crate::text::no_ws(ts[i]) by {
            lemma_chain_text(cs[i]);
        }
        lemma_join_spaced(ts);
        let rest = ts.drop_first();
        assert forall|i: int| 0 <= i < rest.len() implies (#[trigger] rest[i]).len() > 0
            && crate::text::no_ws(rest[i]) by {
            assert(rest[i] == ts[i + 1]);
        }
        crate::notation::lemma_ws_tokens_spaced(ts[0], rest);
        assert(seq![ts[0]] + rest =~= ts);
        // no whitespace at either end, so trimming changes nothing
        lemma_join_last(ts);
        assert(!crate::text::is_ws(ts[0][0]));
        assert(!crate::text::is_ws(ts.last().last()));
        crate::text::lemma_trim_ends(line);
        // the text starts with a digit, so it is no spelling of a pass
        lemma_chain_text(cs[0]);
        assert(line[0] == ts[0][0]);
        reveal_strlit("pass");
        reveal_strlit("—");
        reveal_strlit("пропуск");
        assert(!crate::text::ieq_char(line[0], "pass"@[0]));
        assert(!crate::text::ieq_char(line[0], "пропуск"@[0]));
        assert(line[0] != "—"@[0]);
        assert(!is_pass_text(line));
        lemma_play_toks_texts(cs);
    }
}

/// Some turn up to `i` is the first one with the segments of turn `i`.
proof fn lemma_first_match_exists(turns: Seq<Turn>, tg: Seq<(u8, u8)>, i: int)
    requires
        0 <= i < turns.len(),
        segments_spec(turns[i].moves@) == tg,
    ensures
        exists|k: int| 0 <= k <= i && is_first_match(turns, tg, k),
    decreases i,
{
    if exists|j: int| 0 <= j < i && segments_spec(#[trigger] turns[j].moves@) == tg {
        let j = choose|j: int| 0 <= j < i && segments_spec(#[trigger] turns[j].moves@) == tg;
        lemma_first_match_exists(turns, tg, j);
    } else {
        assert(is_first_match(turns, tg, i));
    }
}

/// Matching the notation of a listed turn finds a turn with the same
/// segments, at or before it: every turn matches its own notation.
pub proof fn lemma_turn_matches_own_notation(turns: Seq<Turn>, i: int)
    requires
        0 <= i < turns.len(),
    ensures
        parse_play_spec(turn_text(turns[i].moves@)) == Some(segments_spec(turns[i].moves@)),
        exists|k: int| 0 <= k <= i && is_first_match(turns, segments_spec(turns[i].moves@), k),
{
    lemma_notation_round_trip(turns[i].moves@);
    lemma_first_match_exists(turns, segments_spec(turns[i].moves@), i);
}

} // verus!
