//! One-line position specs of the training tools:
//! `white=24:13,18:2 black=24:15 turn=W [dice=3,1] [white-off=N] [black-off=N] [first]`,
//! with counts in each side's own path coordinates.
use vstd::prelude::*;
use crate::board::{Board, BoardView, phys_spec, pos_of_phys_spec, signed_count, lemma_phys_round_trip};
use crate::moves::{dest, full_play_from, initial_counts, is_play, lemma_net_at_last, lemma_play_effect, net_at,
    turn_spec, CheckerMove, Turn};
use crate::player::Player;
use vstd::relations::{sorted_by, total_ordering};
use crate::text::{chars_of, dec_chars, eq_lit, ieq, ieq_lit, join, parse_u8, parse_u8_spec, pieces_view,
    push_all, push_dec, push_lit, split_char, split_on, split_once_char, split_once_on, split_ws, string_of,
    trim, trim_spec, ws_tokens};

verus! {

// ---------------------------------------------------------------------------
// Players
// ---------------------------------------------------------------------------

/// `"B"`/`"black"` in any case name Black; anything else names White.
pub open spec fn player_of(s: Seq<char>) -> Player {
    if ieq(s, "b"@) || ieq(s, "black"@) {
        Player::Black
    } else {
        Player::White
    }
}

pub fn player_of_chars(v: &Vec<char>) -> (p: Player)
    ensures
        p == player_of(v@),
{
    if ieq_lit(v, "b") || ieq_lit(v, "black") {
        Player::Black
    } else {
        Player::White
    }
}

/// `"B"`/`"black"` (any case) is Black, anything else White.
pub fn parse_player(s: &str) -> (p: Player)
    ensures
        p == player_of(s@),
{
    let v = chars_of(s);
    player_of_chars(&v)
}

// ---------------------------------------------------------------------------
// Side specs: "pos:count,pos:count,..."
// ---------------------------------------------------------------------------

/// One `pos:count` entry, both numbers trimmed, the position in `1..=24`;
/// anything malformed gives `None`.
pub open spec fn side_entry(tok: Seq<char>) -> Option<(u8, u8)> {
    match split_once_on(trim_spec(tok), ':') {
        None => None,
        Some((p, c)) => match (parse_u8_spec(trim_spec(p)), parse_u8_spec(trim_spec(c))) {
            (Some(pos), Some(cnt)) => if 1 <= pos <= 24 { Some((pos, cnt)) } else { None },
            _ => None,
        },
    }
}

/// `b` with exactly `count` of `p`'s checkers on `p`'s position `pos`.
pub open spec fn place_spec(b: BoardView, p: Player, pos: int, count: u8) -> BoardView {
    BoardView { points: b.points.update(phys_spec(p, pos), signed_count(p, count)), off: b.off }
}

/// The entries of a side spec placed one after the other.
pub open spec fn apply_side(b: BoardView, p: Player, toks: Seq<Seq<char>>) -> BoardView
    decreases toks.len(),
{
    if toks.len() == 0 {
        b
    } else {
        let prev = apply_side(b, p, toks.drop_last());
        match side_entry(toks.last()) {
            Some((pos, cnt)) => place_spec(prev, p, pos as int, cnt),
            None => prev,
        }
    }
}

/// Placing the entries never needs 128 Black checkers on one point (a
/// count the signed cell encoding cannot hold).
pub open spec fn side_placeable(toks: Seq<Seq<char>>, p: Player) -> bool {
    forall|i: int| 0 <= i < toks.len() ==> (#[trigger] side_entry(toks[i]) matches Some((_, c)) ==> !(p
        == Player::Black && c == 128))
}

fn side_entry_exec(tok: &Vec<char>) -> (r: Option<(u8, u8)>)
    ensures
        r == side_entry(tok@),
{
    let t = trim(tok);
    match split_once_char(&t, ':') {
        None => None,
        Some((p, c)) => {
            let pt = trim(&p);
            let ct = trim(&c);
            match (parse_u8(&pt), parse_u8(&ct)) {
                (Some(pos), Some(cnt)) => if 1 <= pos && pos <= 24 {
                    Some((pos, cnt))
                } else {
                    None
                },
                _ => None,
            }
        },
    }
}

fn parse_side_chars(v: &Vec<char>, player: Player, board: &mut Board)
    requires
        side_placeable(split_on(v@, ','), player),
    ensures
        final(board)@ == apply_side(old(board)@, player, split_on(v@, ',')),
{
    let toks = split_char(v, ',');
    let ghost tv = pieces_view(toks@);
    let mut i: usize = 0;
    while i < toks.len()
        invariant
            i <= toks.len(),
            tv == pieces_view(toks@),
            tv == split_on(v@, ','),
            side_placeable(tv, player),
            board@ == apply_side(old(board)@, player, tv.subrange(0, i as int)),
        decreases toks.len() - i,
    {
        let e = side_entry_exec(&toks[i]);
        proof {
            assert(tv[i as int] == toks@[i as int]@);
            assert(tv.subrange(0, i + 1).drop_last() =~= tv.subrange(0, i as int));
            assert(side_entry(tv[i as int]) == e);
        }
        match e {
            Some((pos, cnt)) => {
                board.place(player, pos, cnt);
                assert(board@ =~= place_spec(apply_side(old(board)@, player, tv.subrange(0, i as int)), player,
                    pos as int, cnt));
            },
            None => {},
        }
        i += 1;
    }
    assert(tv.subrange(0, toks.len() as int) =~= tv);
}

fn side_chars_placeable(v: &Vec<char>, player: Player) -> (r: bool)
    ensures
        r == side_placeable(split_on(v@, ','), player),
{
    let toks = split_char(v, ',');
    let ghost tv = pieces_view(toks@);
    let black = match player {
        Player::Black => true,
        Player::White => false,
    };
    let mut i: usize = 0;
    while i < toks.len()
        invariant
            i <= toks.len(),
            tv == pieces_view(toks@),
            tv == split_on(v@, ','),
            black == (player == Player::Black),
            forall|j: int| 0 <= j < i ==> (#[trigger] side_entry(tv[j]) matches Some((_, c)) ==> !(player
                == Player::Black && c == 128)),
        decreases toks.len() - i,
    {
        let e = side_entry_exec(&toks[i]);
        proof {
            assert(tv[i as int] == toks@[i as int]@);
        }
        match e {
            Some((_, c)) => {
                if black && c == 128 {
                    return false;
                }
            },
            None => {},
        }
        i += 1;
    }
    true
}

/// Whether [`parse_side`] can place `spec` for `player`: no entry puts 128
/// Black checkers on one point.
pub fn side_placeable_exec(spec: &str, player: Player) -> (r: bool)
    ensures
        r == side_placeable(split_on(spec@, ','), player),
{
    let v = chars_of(spec);
    side_chars_placeable(&v, player)
}

/// Place the `pos:count` entries of `spec` (the player's own path
/// coordinates) on `board`; malformed entries are skipped.
pub fn parse_side(spec: &str, player: Player, board: &mut Board)
    requires
        side_placeable(split_on(spec@, ','), player),
    ensures
        final(board)@ == apply_side(old(board)@, player, split_on(spec@, ',')),
{
    let v = chars_of(spec);
    parse_side_chars(&v, player, board);
}

// ---------------------------------------------------------------------------
// Writing a position line
// ---------------------------------------------------------------------------

/// `pos:count` for each of `p`'s occupied positions `pos..=1`, highest first.
pub open spec fn side_segs(b: BoardView, p: Player, pos: int) -> Seq<Seq<char>>
    decreases pos,
{
    if pos < 1 {
        Seq::empty()
    } else if b.own(p, pos) > 0 {
        seq![dec_chars(pos as nat) + seq![':'] + dec_chars(b.own(p, pos) as nat)] + side_segs(b, p, pos - 1)
    } else {
        side_segs(b, p, pos - 1)
    }
}

/// The side spec of `p` on `b`.
pub open spec fn side_text(b: BoardView, p: Player) -> Seq<char> {
    join(side_segs(b, p, 24), ',')
}

/// ` key=N` when `n > 0`, nothing otherwise.
pub open spec fn opt_field(key: Seq<char>, n: u8) -> Seq<char> {
    if n > 0 { key + dec_chars(n as nat) } else { Seq::empty() }
}

/// The one-line spec of a position.
pub open spec fn pos_line(b: BoardView, turn: Player, dice: Option<[u8; 2]>) -> Seq<char> {
    "white="@ + side_text(b, Player::White) + " black="@ + side_text(b, Player::Black) + " turn="@
        + (if turn == Player::White { "W"@ } else { "B"@ })
        + opt_field(" white-off="@, b.off[0]) + opt_field(" black-off="@, b.off[1])
        + match dice {
            Some(d) => " dice="@ + dec_chars(d[0] as nat) + seq![','] + dec_chars(d[1] as nat),
            None => Seq::empty(),
        }
}

/// Concatenation of pieces with a separator.
pub fn join_pieces(pieces: &Vec<Vec<char>>, sep: char) -> (r: Vec<char>)
    ensures
        r@ == join(pieces_view(pieces@), sep),
{
    let mut out: Vec<char> = Vec::new();
    let ghost pv = pieces_view(pieces@);
    let mut i: usize = 0;
    while i < pieces.len()
        invariant
            i <= pieces.len(),
            pv == pieces_view(pieces@),
            out@ == join(pv.subrange(0, i as int), sep),
        decreases pieces.len() - i,
    {
        let ghost o0 = out@;
        if i > 0 {
            out.push(sep);
        }
        push_all(&mut out, &pieces[i]);
        proof {
            let pre = pv.subrange(0, i + 1);
            assert(pre.drop_last() =~= pv.subrange(0, i as int));
            assert(pre.last() == pieces@[i as int]@);
            if i == 0 {
                assert(out@ =~= pre[0]);
            } else {
                assert(out@ =~= o0.push(sep) + pre.last());
            }
        }
        i += 1;
    }
    assert(pv.subrange(0, pieces.len() as int) =~= pv);
    out
}

fn side_spec_chars(board: &Board, p: Player) -> (r: Vec<char>)
    requires
        board@.readable_for(p),
    ensures
        r@ == side_text(board@, p),
{
    let mut segs: Vec<Vec<char>> = Vec::new();
    let mut pos: u8 = 24;
    while pos >= 1
        invariant
            0 <= pos <= 24,
            board@.readable_for(p),
            side_segs(board@, p, 24) == pieces_view(segs@) + side_segs(board@, p, pos as int),
        decreases pos,
    {
        proof {
            lemma_phys_round_trip(p, pos as int, 0);
            let cell = phys_spec(p, pos as int);
            assert(board@.points[cell] == board.points@[cell]);
        }
        let c = board.own_at(p, pos);
        if c > 0 {
            let mut seg: Vec<char> = Vec::new();
            push_dec(&mut seg, pos);
            seg.push(':');
            push_dec(&mut seg, c);
            let ghost before = segs@;
            segs.push(seg);
            proof {
                assert(pieces_view(segs@) =~= pieces_view(before).push(seg@));
                assert(seg@ =~= dec_chars(pos as nat) + seq![':'] + dec_chars(c as nat));
                assert(pieces_view(segs@) + side_segs(board@, p, pos - 1) =~= pieces_view(before)
                    + side_segs(board@, p, pos as int));
            }
        }
        pos -= 1;
    }
    assert(pieces_view(segs@) + Seq::<Seq<char>>::empty() =~= pieces_view(segs@));
    join_pieces(&segs, ',')
}

/// One-line spec of a position; the inverse of [`parse_pos_line`] (the
/// first-turn flag is not written).
#[verifier::rlimit(40)]
pub fn format_pos_line(board: &Board, turn: Player, dice: Option<[u8; 2]>) -> (s: String)
    requires
        board@.readable_for(Player::Black),
    ensures
        s@ == pos_line(board@, turn, dice),
{
    let mut out: Vec<char> = Vec::new();
    push_lit(&mut out, "white=");
    let w = side_spec_chars(board, Player::White);
    push_all(&mut out, &w);
    push_lit(&mut out, " black=");
    let b = side_spec_chars(board, Player::Black);
    push_all(&mut out, &b);
    push_lit(&mut out, " turn=");
    if turn == Player::White {
        push_lit(&mut out, "W");
    } else {
        push_lit(&mut out, "B");
    }
    let ghost o1 = out@;
    let wo = board.off[0];
    let bo = board.off[1];
    if wo > 0 {
        push_lit(&mut out, " white-off=");
        push_dec(&mut out, wo);
    }
    proof { assert(out@ =~= o1 + opt_field(" white-off="@, wo)); }
    let ghost o2 = out@;
    if bo > 0 {
        push_lit(&mut out, " black-off=");
        push_dec(&mut out, bo);
    }
    proof { assert(out@ =~= o2 + opt_field(" black-off="@, bo)); }
    let ghost o3 = out@;
    match dice {
        Some(d) => {
            push_lit(&mut out, " dice=");
            push_dec(&mut out, d[0]);
            out.push(',');
            push_dec(&mut out, d[1]);
        },
        None => {},
    }
    proof {
        assert(out@ =~= pos_line(board@, turn, dice));
    }
    string_of(&out)
}

// ---------------------------------------------------------------------------
// Reading a position line
// ---------------------------------------------------------------------------

/// What a position line has said so far.
pub struct LineScan {
    pub board: BoardView,
    pub turn: Player,
    pub dice: Option<(u8, u8)>,
    pub first: bool,
    pub saw_side: bool,
}

/// Nothing read yet: an empty board, White to move.
pub open spec fn scan_start() -> LineScan {
    LineScan { board: BoardView::empty_spec(), turn: Player::White, dice: None, first: false, saw_side: false }
}

/// A `key=value` token (a token without `=` is a key with an empty value).
pub open spec fn key_val(tok: Seq<char>) -> (Seq<char>, Seq<char>) {
    match split_once_on(tok, '=') {
        Some((k, v)) => (k, v),
        None => (tok, Seq::empty()),
    }
}

/// The numbers among comma-separated pieces (each trimmed), others dropped.
pub open spec fn numbers_of(pieces: Seq<Seq<char>>) -> Seq<u8>
    decreases pieces.len(),
{
    if pieces.len() == 0 {
        Seq::empty()
    } else {
        let prev = numbers_of(pieces.drop_last());
        match parse_u8_spec(trim_spec(pieces.last())) {
            Some(x) => prev.push(x),
            None => prev,
        }
    }
}

/// The number `v` holds, or 0.
pub open spec fn number_or_zero(v: Seq<char>) -> u8 {
    match parse_u8_spec(v) {
        Some(x) => x,
        None => 0,
    }
}

/// The effect of one token on what has been read.
#[verifier::opaque]
pub open spec fn scan_token(st: LineScan, tok: Seq<char>) -> LineScan {
    let (k, v) = key_val(tok);
    if k == "white"@ {
        LineScan { board: apply_side(st.board, Player::White, split_on(v, ',')), saw_side: true, ..st }
    } else if k == "black"@ {
        LineScan { board: apply_side(st.board, Player::Black, split_on(v, ',')), saw_side: true, ..st }
    } else if k == "white-off"@ {
        LineScan { board: BoardView { off: st.board.off.update(0, number_or_zero(v)), ..st.board }, ..st }
    } else if k == "black-off"@ {
        LineScan { board: BoardView { off: st.board.off.update(1, number_or_zero(v)), ..st.board }, ..st }
    } else if k == "turn"@ {
        LineScan { turn: player_of(v), ..st }
    } else if k == "dice"@ {
        let d = numbers_of(split_on(v, ','));
        if d.len() == 2 { LineScan { dice: Some((d[0], d[1])), ..st } } else { st }
    } else if k == "first"@ {
        LineScan { first: v.len() == 0 || ieq(v, "true"@) || v == "1"@, ..st }
    } else {
        st
    }
}

/// Reading the tokens one after the other.
#[verifier::opaque]
pub open spec fn scan_tokens(toks: Seq<Seq<char>>) -> LineScan
    decreases toks.len(),
{
    if toks.len() == 0 {
        scan_start()
    } else {
        scan_token(scan_tokens(toks.drop_last()), toks.last())
    }
}

/// The whitespace-separated tokens of `line`, read in order.
pub open spec fn scan_line(line: Seq<char>) -> LineScan {
    scan_tokens(ws_tokens(line))
}

/// `tok` places checkers of one side: its key is `white` or `black`.
pub open spec fn side_key(tok: Seq<char>) -> bool {
    key_val(tok).0 == "white"@ || key_val(tok).0 == "black"@
}

proof fn lemma_token_saw_side(st: LineScan, tok: Seq<char>)
    ensures
        scan_token(st, tok).saw_side == (side_key(tok) || st.saw_side),
{
    reveal(scan_token);
}

proof fn lemma_saw_side(toks: Seq<Seq<char>>)
    ensures
        scan_tokens(toks).saw_side <==> exists|i: int| 0 <= i < toks.len() && #[trigger] side_key(toks[i]),
    decreases toks.len(),
{
    reveal(scan_tokens);
    if toks.len() > 0 {
        let pre = toks.drop_last();
        lemma_saw_side(pre);
        lemma_token_saw_side(scan_tokens(pre), toks.last());
        assert(scan_tokens(toks) == scan_token(scan_tokens(pre), toks.last()));
        assert(toks.last() == toks[toks.len() - 1]);
        if exists|i: int| 0 <= i < pre.len() && #[trigger] side_key(pre[i]) {
            let i = choose|i: int| 0 <= i < pre.len() && #[trigger] side_key(pre[i]);
            assert(side_key(toks[i]));
        }
        if exists|i: int| 0 <= i < toks.len() && #[trigger] side_key(toks[i]) {
            let i = choose|i: int| 0 <= i < toks.len() && #[trigger] side_key(toks[i]);
            if i < toks.len() - 1 {
                assert(side_key(pre[i]));
            }
        }
    }
}

/// A position line counts as naming a position exactly when one of its
/// tokens is a `white=` or `black=` token; a line with neither reads as
/// naming none, and parsing it gives `None`.
pub proof fn lemma_side_token_needed(line: Seq<char>)
    ensures
        scan_line(line).saw_side <==> exists|i: int| 0 <= i < ws_tokens(line).len()
            && #[trigger] side_key(ws_tokens(line)[i]),
{
    lemma_saw_side(ws_tokens(line));
}

/// No side token of the line needs 128 Black checkers on one point.
pub open spec fn line_placeable(line: Seq<char>) -> bool {
    forall|i: int| 0 <= i < ws_tokens(line).len() ==> {
        let (k, v) = key_val(#[trigger] ws_tokens(line)[i]);
        k == "black"@ ==> side_placeable(split_on(v, ','), Player::Black)
    }
}

fn numbers_exec(v: &Vec<char>) -> (r: Vec<u8>)
    ensures
        r@ == numbers_of(split_on(v@, ',')),
{
    let parts = split_char(v, ',');
    let ghost pv = pieces_view(parts@);
    let mut out: Vec<u8> = Vec::new();
    let mut i: usize = 0;
    while i < parts.len()
        invariant
            i <= parts.len(),
            pv == pieces_view(parts@),
            pv == split_on(v@, ','),
            out@ == numbers_of(pv.subrange(0, i as int)),
        decreases parts.len() - i,
    {
        let t = trim(&parts[i]);
        let x = parse_u8(&t);
        proof {
            assert(pv.subrange(0, i + 1).drop_last() =~= pv.subrange(0, i as int));
            assert(pv[i as int] == parts@[i as int]@);
        }
        match x {
            Some(n) => out.push(n),
            None => {},
        }
        i += 1;
    }
    assert(pv.subrange(0, parts.len() as int) =~= pv);
    out
}

/// Read a position line: the board, the side to move, the dice (if given),
/// the first-turn flag and whether any `white=`/`black=` token was seen.
pub fn scan_pos_line(line: &Vec<char>) -> (r: (Board, Player, Option<[u8; 2]>, bool, bool))
    requires
        line_placeable(line@),
    ensures
        r.0@ == scan_line(line@).board,
        r.1 == scan_line(line@).turn,
        match scan_line(line@).dice {
            Some((a, b)) => r.2 == Some([a, b]),
            None => r.2 is None,
        },
        r.3 == scan_line(line@).first,
        r.4 == scan_line(line@).saw_side,
{
    let toks = split_ws(line);
    let ghost tv = pieces_view(toks@);
    let mut board = Board::empty();
    let mut turn = Player::White;
    let mut dice: Option<[u8; 2]> = None;
    let mut first = false;
    let mut saw_side = false;
    let mut i: usize = 0;
    proof {
        lemma_scan_push(Seq::<Seq<char>>::empty(), Seq::<char>::empty());
        assert(tv.subrange(0, 0) =~= Seq::<Seq<char>>::empty());
    }
    while i < toks.len()
        invariant
            i <= toks.len(),
            tv == pieces_view(toks@),
            tv == ws_tokens(line@),
            line_placeable(line@),
            ({
                let st = scan_tokens(tv.subrange(0, i as int));
                &&& board@ == st.board
                &&& turn == st.turn
                &&& match st.dice {
                    Some((a, b)) => dice == Some([a, b]),
                    None => dice is None,
                }
                &&& first == st.first
                &&& saw_side == st.saw_side
            }),
        decreases toks.len() - i,
    {
        let ghost st = scan_tokens(tv.subrange(0, i as int));
        let tok = &toks[i];
        proof {
            assert(tv.subrange(0, i + 1) =~= tv.subrange(0, i as int).push(tv[i as int]));
            assert(tv[i as int] == tok@);
            lemma_scan_push(tv.subrange(0, i as int), tv[i as int]);
            reveal(scan_token);
        }
        let (k, v) = match split_once_char(tok, '=') {
            Some((k, v)) => (k, v),
            None => (slice_all(tok), Vec::new()),
        };
        proof {
            assert(key_val(tok@) == (k@, v@));
        }
        if eq_lit(&k, "white") {
            proof {
                let kv = key_val(ws_tokens(line@)[i as int]);
                assert(kv.0 == "white"@);
            }
            parse_side_chars(&v, Player::White, &mut board);
            saw_side = true;
        } else if eq_lit(&k, "black") {
            proof {
                let kv = key_val(ws_tokens(line@)[i as int]);
                assert(side_placeable(split_on(kv.1, ','), Player::Black));
            }
            parse_side_chars(&v, Player::Black, &mut board);
            saw_side = true;
        } else if eq_lit(&k, "white-off") {
            let x = match parse_u8(&v) {
                Some(x) => x,
                None => 0,
            };
            board.off[0] = x;
            assert(board@ =~= BoardView { off: st.board.off.update(0, number_or_zero(v@)), ..st.board });
        } else if eq_lit(&k, "black-off") {
            let x = match parse_u8(&v) {
                Some(x) => x,
                None => 0,
            };
            board.off[1] = x;
            assert(board@ =~= BoardView { off: st.board.off.update(1, number_or_zero(v@)), ..st.board });
        } else if eq_lit(&k, "turn") {
            turn = player_of_chars(&v);
        } else if eq_lit(&k, "dice") {
            let d = numbers_exec(&v);
            if d.len() == 2 {
                dice = Some([d[0], d[1]]);
            }
        } else if eq_lit(&k, "first") {
            first = v.len() == 0 || ieq_lit(&v, "true") || eq_lit(&v, "1");
        }
        i += 1;
    }
    assert(tv.subrange(0, toks.len() as int) =~= tv);
    (board, turn, dice, first, saw_side)
}

/// A copy of `v`.
fn slice_all(v: &Vec<char>) -> (r: Vec<char>)
    ensures
        r@ == v@,
{
    let mut r: Vec<char> = Vec::new();
    push_all(&mut r, v);
    assert(r@ =~= v@);
    r
}

/// Whether a position line can be read: no `black=` token puts 128 Black
/// checkers on one point.
pub fn line_placeable_exec(line: &str) -> (r: bool)
    ensures
        r == line_placeable(line@),
{
    let v = chars_of(line);
    let toks = split_ws(&v);
    let ghost tv = pieces_view(toks@);
    let mut i: usize = 0;
    while i < toks.len()
        invariant
            i <= toks.len(),
            tv == pieces_view(toks@),
            tv == ws_tokens(line@),
            forall|j: int| 0 <= j < i ==> {
                let (k, w) = key_val(#[trigger] tv[j]);
                k == "black"@ ==> side_placeable(split_on(w, ','), Player::Black)
            },
        decreases toks.len() - i,
    {
        let tok = &toks[i];
        proof {
            assert(tv[i as int] == tok@);
        }
        let (k, w) = match split_once_char(tok, '=') {
            Some((k, w)) => (k, w),
            None => (slice_all(tok), Vec::new()),
        };
        proof {
            assert(key_val(tok@) == (k@, w@));
        }
        if eq_lit(&k, "black") {
            if !side_chars_placeable(&w, Player::Black) {
                return false;
            }
        }
        i += 1;
    }
    true
}

/// Parse a one-line position spec:
/// `white=24:13,18:2 black=24:15 turn=W [dice=3,1] [white-off=N] [black-off=N] [first]`.
/// `None` unless at least one `white=`/`black=` token is present; the dice
/// are optional (pre-roll positions carry none).
pub fn parse_pos_line(spec: &str) -> (r: Option<(Board, Player, Option<[u8; 2]>, bool)>)
    requires
        line_placeable(spec@),
    ensures
        !scan_line(spec@).saw_side ==> r is None,
        scan_line(spec@).saw_side ==> (r matches Some((b, t, d, f)) && b@ == scan_line(spec@).board
            && t == scan_line(spec@).turn && f == scan_line(spec@).first
            && match scan_line(spec@).dice {
                Some((x, y)) => d == Some([x, y]),
                None => d is None,
            }),
{
    let v = chars_of(spec);
    let (board, turn, dice, first, saw_side) = scan_pos_line(&v);
    if !saw_side {
        return None;
    }
    Some((board, turn, dice, first))
}

// ---------------------------------------------------------------------------
// Canonical turn keys
// ---------------------------------------------------------------------------

/// A sub-move as `from>to`, a bear-off as `from>0`.
pub open spec fn move_key(m: CheckerMove) -> Seq<char> {
    dec_chars(m.from as nat) + seq!['>'] + dec_chars((if m.bear_off { 0u8 } else { m.to }) as nat)
}

/// Lexicographic order of character sequences by code point (the order of
/// `String`).
pub open spec fn lex_le(a: Seq<char>, b: Seq<char>) -> bool
    decreases a.len(),
{
    if a.len() == 0 {
        true
    } else if b.len() == 0 {
        false
    } else if a[0] != b[0] {
        a[0] < b[0]
    } else {
        lex_le(a.drop_first(), b.drop_first())
    }
}

pub open spec fn lex_order() -> spec_fn(Seq<char>, Seq<char>) -> bool {
    |a: Seq<char>, b: Seq<char>| lex_le(a, b)
}

/// Canonical key of a turn: its sub-move keys sorted and joined by commas;
/// `pass` for a pass.
pub open spec fn turn_key_spec(ms: Seq<CheckerMove>) -> Seq<char> {
    if ms.len() == 0 {
        "pass"@
    } else {
        join(sorted_keys(ms), ',')
    }
}

/// The keys of the sub-moves, in play order.
pub open spec fn keys_of(ms: Seq<CheckerMove>) -> Seq<Seq<char>> {
    ms.map_values(|m: CheckerMove| move_key(m))
}

/// The keys of the sub-moves in lexicographic order.
pub open spec fn sorted_keys(ms: Seq<CheckerMove>) -> Seq<Seq<char>> {
    keys_of(ms).sort_by(lex_order())
}

proof fn lemma_lex_refl(a: Seq<char>)
    ensures
        lex_le(a, a),
    decreases a.len(),
{
    if a.len() > 0 {
        lemma_lex_refl(a.drop_first());
    }
}

proof fn lemma_lex_antisym(a: Seq<char>, b: Seq<char>)
    requires
        lex_le(a, b),
        lex_le(b, a),
    ensures
        a == b,
    decreases a.len(),
{
    if a.len() > 0 && b.len() > 0 {
        lemma_lex_antisym(a.drop_first(), b.drop_first());
        assert(a =~= seq![a[0]] + a.drop_first());
        assert(b =~= seq![b[0]] + b.drop_first());
    } else {
        assert(a =~= b);
    }
}

proof fn lemma_lex_trans(a: Seq<char>, b: Seq<char>, c: Seq<char>)
    requires
        lex_le(a, b),
        lex_le(b, c),
    ensures
        lex_le(a, c),
    decreases a.len(),
{
    if a.len() > 0 && b.len() > 0 && c.len() > 0 && a[0] == b[0] && b[0] == c[0] {
        lemma_lex_trans(a.drop_first(), b.drop_first(), c.drop_first());
    }
}

proof fn lemma_lex_total(a: Seq<char>, b: Seq<char>)
    ensures
        lex_le(a, b) || lex_le(b, a),
    decreases a.len(),
{
    if a.len() > 0 && b.len() > 0 && a[0] == b[0] {
        lemma_lex_total(a.drop_first(), b.drop_first());
    }
}

/// Lexicographic order is a total order.
pub proof fn lemma_lex_order()
    ensures
        total_ordering(lex_order()),
{
    assert forall|x: Seq<char>| #[trigger] lex_order()(x, x) by {
        lemma_lex_refl(x);
    }
    assert forall|x: Seq<char>, y: Seq<char>| #[trigger] lex_order()(x, y) && #[trigger] lex_order()(y, x)
        implies x == y by {
        lemma_lex_antisym(x, y);
    }
    assert forall|x: Seq<char>, y: Seq<char>, z: Seq<char>| #[trigger] lex_order()(x, y)
        && #[trigger] lex_order()(y, z) implies lex_order()(x, z) by {
        lemma_lex_trans(x, y, z);
    }
    assert forall|x: Seq<char>, y: Seq<char>| #[trigger] lex_order()(x, y) || #[trigger] lex_order()(y, x) by {
        lemma_lex_total(x, y);
    }
}

fn lex_le_exec(a: &Vec<char>, b: &Vec<char>) -> (r: bool)
    ensures
        r == lex_le(a@, b@),
{
    let mut i: usize = 0;
    assert(a@.subrange(0, a.len() as int) =~= a@);
    assert(b@.subrange(0, b.len() as int) =~= b@);
    while i < a.len() && i < b.len() && a[i] == b[i]
        invariant
            i <= a.len(),
            i <= b.len(),
            lex_le(a@, b@) == lex_le(a@.subrange(i as int, a.len() as int), b@.subrange(i as int, b.len() as int)),
        decreases a.len() - i,
    {
        proof {
            let x = a@.subrange(i as int, a.len() as int);
            let y = b@.subrange(i as int, b.len() as int);
            assert(x.drop_first() =~= a@.subrange(i + 1, a.len() as int));
            assert(y.drop_first() =~= b@.subrange(i + 1, b.len() as int));
        }
        i += 1;
    }
    let ghost x = a@.subrange(i as int, a.len() as int);
    let ghost y = b@.subrange(i as int, b.len() as int);
    if i == a.len() {
        return true;
    }
    if i == b.len() {
        return false;
    }
    assert(x[0] == a@[i as int] && y[0] == b@[i as int]);
    a[i] < b[i]
}

proof fn lemma_pieces_insert(v: Seq<Vec<char>>, j: int, x: Vec<char>)
    requires
        0 <= j <= v.len(),
    ensures
        pieces_view(v.insert(j, x)) == pieces_view(v).insert(j, x@),
{
    assert(pieces_view(v.insert(j, x)) =~= pieces_view(v).insert(j, x@));
}

/// The pieces in lexicographic order.
fn sort_strings(v: Vec<Vec<char>>) -> (r: Vec<Vec<char>>)
    ensures
        pieces_view(r@) == pieces_view(v@).sort_by(lex_order()),
{
    let ghost pv = pieces_view(v@);
    let mut out: Vec<Vec<char>> = Vec::new();
    let mut rest = v;
    let mut i: usize = 0;
    let n = rest.len();
    assert(pv.subrange(0, 0) =~= pieces_view(out@));
    proof { lemma_lex_order(); }
    while i < n
        invariant
            i <= n == rest.len(),
            pv == pieces_view(rest@),
            total_ordering(lex_order()),
            sorted_by(pieces_view(out@), lex_order()),
            pieces_view(out@).to_multiset() == pv.subrange(0, i as int).to_multiset(),
        decreases n - i,
    {
        let x = slice_all_chars(&rest[i]);
        proof { assert(pv[i as int] == x@); }
        let mut j: usize = 0;
        while j < out.len() && lex_le_exec(&out[j], &x)
            invariant
                j <= out.len(),
                forall|k: int| 0 <= k < j ==> lex_le(#[trigger] out@[k]@, x@),
            decreases out.len() - j,
        {
            j += 1;
        }
        let ghost before = pieces_view(out@);
        let ghost bv = out@;
        out.insert(j, x);
        proof {
            lemma_pieces_insert(bv, j as int, x);
            let now = pieces_view(out@);
            assert(now == before.insert(j as int, x@));
            vstd::seq_lib::to_multiset_insert(before, j as int, x@);
            vstd::seq_lib::to_multiset_build(pv.subrange(0, i as int), x@);
            assert(pv.subrange(0, i + 1) =~= pv.subrange(0, i as int).push(x@));
            assert forall|a: int, b: int| 0 <= a < b < now.len() implies #[trigger] lex_order()(now[a], now[b]) by {
                if a < j {
                    assert(before[a] == bv[a]@);
                    assert(lex_le(before[a], x@));
                }
                if j < before.len() && b > j {
                    assert(before[j as int] == bv[j as int]@);
                    assert(lex_order()(before[j as int], x@) || lex_order()(x@, before[j as int]));
                    assert(lex_order()(x@, before[j as int]));
                }
                if a < j && b < j {
                    assert(lex_order()(before[a], before[b]));
                }
                if a < j && b > j {
                    assert(lex_order()(before[a], x@));
                    assert(lex_order()(x@, before[b - 1])) by {
                        if b - 1 > j {
                            assert(lex_order()(before[j as int], before[b - 1]));
                        }
                    }
                }
                if a == j && b > j + 1 {
                    assert(lex_order()(before[j as int], before[b - 1]));
                }
                if a > j {
                    assert(lex_order()(before[a - 1], before[b - 1]));
                }
            }
        }
        i += 1;
    }
    proof {
        assert(pv.subrange(0, n as int) =~= pv);
        pv.lemma_sort_by_ensures(lex_order());
        vstd::seq_lib::lemma_sorted_unique(pieces_view(out@), pv.sort_by(lex_order()), lex_order());
    }
    out
}

fn slice_all_chars(v: &Vec<char>) -> (r: Vec<char>)
    ensures
        r@ == v@,
{
    let mut r: Vec<char> = Vec::new();
    push_all(&mut r, v);
    assert(r@ =~= v@);
    r
}

/// Canonical key of a turn: the sorted multiset of its sub-moves (`from>to`,
/// a bear-off as `from>0`) joined by commas, or `pass`.
pub fn turn_key(t: &Turn) -> (s: String)
    ensures
        s@ == turn_key_spec(t.moves@),
{
    if t.moves.len() == 0 {
        let mut out: Vec<char> = Vec::new();
        push_lit(&mut out, "pass");
        return string_of(&out);
    }
    let mut keys: Vec<Vec<char>> = Vec::new();
    let mut i: usize = 0;
    let ghost mk = t.moves@.map_values(|m: CheckerMove| move_key(m));
    while i < t.moves.len()
        invariant
            i <= t.moves.len(),
            mk == t.moves@.map_values(|m: CheckerMove| move_key(m)),
            pieces_view(keys@) == mk.subrange(0, i as int),
        decreases t.moves.len() - i,
    {
        let m = t.moves[i];
        let mut k: Vec<char> = Vec::new();
        push_dec(&mut k, m.from);
        k.push('>');
        push_dec(&mut k, if m.bear_off { 0 } else { m.to });
        let ghost kb = keys@;
        keys.push(k);
        proof {
            assert(k@ =~= move_key(m));
            crate::text::lemma_pieces_push(kb, k);
            assert(mk[i as int] == move_key(m));
            assert(pieces_view(keys@) =~= mk.subrange(0, i + 1));
        }
        i += 1;
    }
    assert(mk.subrange(0, t.moves.len() as int) =~= mk);
    let sorted = sort_strings(keys);
    let out = join_pieces(&sorted, ',');
    string_of(&out)
}

// ---------------------------------------------------------------------------
// Writing then reading a position line
// ---------------------------------------------------------------------------

/// `base` with `p`'s occupied positions `1..=n` of `b` copied over.
pub open spec fn overlay(base: BoardView, b: BoardView, p: Player, n: int) -> BoardView {
    BoardView {
        points: Seq::new(24, |c: int| {
            let q = pos_of_phys_spec(p, c);
            if 1 <= q <= n && b.own(p, q) > 0 { signed_count(p, b.own(p, q) as u8) } else { base.points[c] }
        }),
        off: base.off,
    }
}

proof fn lemma_apply_side_append(base: BoardView, p: Player, s1: Seq<Seq<char>>, s2: Seq<Seq<char>>)
    ensures
        apply_side(base, p, s1 + s2) == apply_side(apply_side(base, p, s1), p, s2),
    decreases s2.len(),
{
    if s2.len() == 0 {
        assert(s1 + s2 =~= s1);
    } else {
        lemma_apply_side_append(base, p, s1, s2.drop_last());
        assert((s1 + s2).drop_last() =~= s1 + s2.drop_last());
        assert((s1 + s2).last() == s2.last());
    }
}

/// The entry written for position `q` holding `c` checkers.
pub open spec fn seg_text(q: int, c: int) -> Seq<char> {
    dec_chars(q as nat) + seq![':'] + dec_chars(c as nat)
}

proof fn lemma_seg_text(q: int, c: int)
    requires
        1 <= q <= 24,
        0 <= c <= 255,
    ensures
        side_entry(seg_text(q, c)) == Some((q as u8, c as u8)),
        crate::text::no_ws(seg_text(q, c)),
        crate::text::no_char(seg_text(q, c), ','),
        seg_text(q, c).len() > 0,
{
    let a = dec_chars(q as nat);
    let d = dec_chars(c as nat);
    let t = seg_text(q, c);
    crate::text::lemma_dec_chars(q as nat);
    crate::text::lemma_dec_chars(c as nat);
    assert(crate::text::no_char(a, ':'));
    assert(crate::text::no_char(a, ','));
    assert(crate::text::no_char(d, ','));
    assert(!crate::text::is_ws(':'));
    assert forall|i: int| 0 <= i < t.len() implies !crate::text::is_ws(#[trigger] t[i]) && t[i] != ',' by {
        if i < a.len() {
            assert(t[i] == a[i]);
        } else if i == a.len() {
            assert(t[i] == ':');
        } else {
            assert(t[i] == d[i - a.len() - 1]);
        }
    }
    crate::text::lemma_trim_no_ws(t);
    crate::text::lemma_split_cons(a, ':', d);
    crate::text::lemma_trim_no_ws(a);
    crate::text::lemma_trim_no_ws(d);
    crate::text::lemma_parse_dec(q as u8);
    crate::text::lemma_parse_dec(c as u8);
}

proof fn lemma_side_segs_shape(b: BoardView, p: Player, n: int)
    requires
        b.readable_for(p),
        b.shaped(),
        n <= 24,
    ensures
        forall|i: int| 0 <= i < side_segs(b, p, n).len() ==> crate::text::no_char(#[trigger] side_segs(b, p, n)[i], ',')
            && crate::text::no_ws(side_segs(b, p, n)[i]) && side_segs(b, p, n)[i].len() > 0,
        side_segs(b, p, n).len() == 0 ==> forall|q: int| 1 <= q <= n ==> b.own(p, q) == 0,
    decreases n,
{
    if n >= 1 {
        lemma_side_segs_shape(b, p, n - 1);
        lemma_phys_round_trip(p, n, 0);
        if b.own(p, n) > 0 {
            lemma_seg_text(n, b.own(p, n));
            let ss = side_segs(b, p, n);
            assert(ss == seq![seg_text(n, b.own(p, n))] + side_segs(b, p, n - 1));
            assert forall|i: int| 0 <= i < ss.len() implies crate::text::no_char(#[trigger] ss[i], ',')
                && crate::text::no_ws(ss[i]) && ss[i].len() > 0 by {
                if i > 0 {
                    assert(ss[i] == side_segs(b, p, n - 1)[i - 1]);
                }
            }
        }
    }
}

proof fn lemma_overlay_step(base: BoardView, b: BoardView, p: Player, n: int)
    requires
        base.points.len() == 24,
        1 <= n <= 24,
    ensures
        b.own(p, n) > 0 ==> overlay(place_spec(base, p, n, b.own(p, n) as u8), b, p, n - 1) == overlay(base, b, p, n),
        b.own(p, n) <= 0 ==> overlay(base, b, p, n - 1) == overlay(base, b, p, n),
{
    lemma_phys_round_trip(p, n, 0);
    let cell = phys_spec(p, n);
    let base1 = place_spec(base, p, n, b.own(p, n) as u8);
    assert forall|c: int| 0 <= c < 24 implies {
        &&& #[trigger] overlay(base1, b, p, n - 1).points[c] == overlay(base, b, p, n).points[c] || b.own(p, n) <= 0
        &&& overlay(base, b, p, n - 1).points[c] == overlay(base, b, p, n).points[c] || b.own(p, n) > 0
    } by {
        lemma_phys_round_trip(p, 1, c);
        if pos_of_phys_spec(p, c) != n {
            assert(c != cell);
        }
    }
    assert(b.own(p, n) > 0 ==> overlay(base1, b, p, n - 1).points =~= overlay(base, b, p, n).points);
    assert(b.own(p, n) <= 0 ==> overlay(base, b, p, n - 1).points =~= overlay(base, b, p, n).points);
}

/// Placing the written entries of positions `1..=n` copies them over.
proof fn lemma_apply_segs(base: BoardView, b: BoardView, p: Player, n: int)
    requires
        base.points.len() == 24,
        b.shaped(),
        b.readable_for(p),
        0 <= n <= 24,
    ensures
        apply_side(base, p, side_segs(b, p, n)) == overlay(base, b, p, n),
    decreases n,
{
    if n == 0 {
        assert(overlay(base, b, p, 0).points =~= base.points);
        assert(overlay(base, b, p, 0) =~= base);
    } else {
        lemma_overlay_step(base, b, p, n);
        if b.own(p, n) > 0 {
            let x = seg_text(n, b.own(p, n));
            b.lemma_own_le_127(p, n);
            lemma_seg_text(n, b.own(p, n));
            let rest = side_segs(b, p, n - 1);
            assert(side_segs(b, p, n) == seq![x] + rest);
            lemma_apply_side_append(base, p, seq![x], rest);
            assert(seq![x].drop_last() =~= Seq::<Seq<char>>::empty());
            assert(seq![x].last() == x);
            assert(apply_side(base, p, seq![x].drop_last()) == base);
            let base1 = place_spec(base, p, n, b.own(p, n) as u8);
            assert(apply_side(base, p, seq![x]) == base1);
            lemma_apply_segs(base1, b, p, n - 1);
        } else {
            lemma_apply_segs(base, b, p, n - 1);
        }
    }
}

/// Reading back the side spec written for `p` copies `p`'s checkers of `b`
/// onto the board being read.
proof fn lemma_side_round_trip(base: BoardView, b: BoardView, p: Player)
    requires
        base.points.len() == 24,
        b.shaped(),
        b.readable_for(p),
    ensures
        apply_side(base, p, split_on(side_text(b, p), ',')) == overlay(base, b, p, 24),
        side_placeable(split_on(side_text(b, p), ','), p),
{
    let ss = side_segs(b, p, 24);
    lemma_side_segs_shape(b, p, 24);
    if ss.len() == 0 {
        assert(side_text(b, p) == Seq::<char>::empty());
        crate::text::lemma_split_single(Seq::<char>::empty(), ',');
        let toks = split_on(side_text(b, p), ',');
        assert(toks == seq![Seq::<char>::empty()]);
        crate::text::lemma_trim_no_ws(Seq::<char>::empty());
        crate::text::lemma_split_single(Seq::<char>::empty(), ':');
        assert(side_entry(Seq::<char>::empty()) is None);
        assert(toks.drop_last() =~= Seq::<Seq<char>>::empty());
        assert(toks.last() == Seq::<char>::empty());
        assert(apply_side(base, p, toks.drop_last()) == base);
        assert(apply_side(base, p, toks) == base);
        assert(overlay(base, b, p, 24).points =~= base.points);
        assert(overlay(base, b, p, 24) =~= base);
    } else {
        crate::text::lemma_split_join(ss, ',');
        lemma_apply_segs(base, b, p, 24);
        lemma_segs_placeable(b, p, 24);
    }
}

proof fn lemma_segs_placeable(b: BoardView, p: Player, n: int)
    requires
        b.readable_for(p),
        b.shaped(),
        n <= 24,
    ensures
        side_placeable(side_segs(b, p, n), p),
    decreases n,
{
    if n >= 1 {
        lemma_segs_placeable(b, p, n - 1);
        if b.own(p, n) > 0 {
            lemma_phys_round_trip(p, n, 0);
            b.lemma_own_le_127(p, n);
            lemma_seg_text(n, b.own(p, n));
            let ss = side_segs(b, p, n);
            assert(ss == seq![seg_text(n, b.own(p, n))] + side_segs(b, p, n - 1));
            assert forall|i: int| 0 <= i < ss.len() implies (#[trigger] side_entry(ss[i]) matches Some((_, c))
                ==> !(p == Player::Black && c == 128)) by {
                if i > 0 {
                    assert(ss[i] == side_segs(b, p, n - 1)[i - 1]);
                }
            }
        }
    }
}

/// Tokens each preceded by a space.
pub open spec fn spaced(ts: Seq<Seq<char>>) -> Seq<char>
    decreases ts.len(),
{
    if ts.len() == 0 {
        Seq::empty()
    } else {
        seq![' '] + ts[0] + spaced(ts.drop_first())
    }
}

proof fn lemma_spaced_append(a: Seq<Seq<char>>, b: Seq<Seq<char>>)
    ensures
        spaced(a + b) == spaced(a) + spaced(b),
    decreases a.len(),
{
    if a.len() == 0 {
        assert(a + b =~= b);
        assert(spaced(a) + spaced(b) =~= spaced(b));
    } else {
        lemma_spaced_append(a.drop_first(), b);
        assert((a + b).drop_first() =~= a.drop_first() + b);
        assert((a + b)[0] == a[0]);
        assert(spaced(a + b) =~= spaced(a) + spaced(b));
    }
}

proof fn lemma_spaced_single(t: Seq<char>)
    ensures
        spaced(seq![t]) == seq![' '] + t,
{
    assert(seq![t].drop_first() =~= Seq::<Seq<char>>::empty());
    assert(spaced(seq![t].drop_first()) == Seq::<char>::empty());
    assert(spaced(seq![t]) =~= seq![' '] + t);
}

/// A token followed by space-separated tokens splits back into exactly
/// those tokens.
pub proof fn lemma_ws_tokens_spaced(t: Seq<char>, ts: Seq<Seq<char>>)
    requires
        t.len() > 0,
        crate::text::no_ws(t),
        forall|i: int| 0 <= i < ts.len() ==> (#[trigger] ts[i]).len() > 0 && crate::text::no_ws(ts[i]),
    ensures
        ws_tokens(t + spaced(ts)) == seq![t] + ts,
    decreases ts.len(),
{
    if ts.len() == 0 {
        assert(t + spaced(ts) =~= t);
        crate::text::lemma_ws_tokens_single(t);
        assert(seq![t] + ts =~= seq![t]);
    } else {
        let rest = ts.drop_first();
        assert forall|i: int| 0 <= i < rest.len() implies (#[trigger] rest[i]).len() > 0
            && crate::text::no_ws(rest[i]) by {
            assert(rest[i] == ts[i + 1]);
        }
        assert(ts[0].len() > 0 && crate::text::no_ws(ts[0]));
        lemma_ws_tokens_spaced(ts[0], rest);
        assert(t + spaced(ts) =~= t + seq![' '] + (ts[0] + spaced(rest)));
        crate::text::lemma_ws_tokens_cons(t, ts[0] + spaced(rest));
        assert(seq![t] + (seq![ts[0]] + rest) =~= seq![t] + ts);
    }
}

/// `key=value` splits into its key and value.
proof fn lemma_key_val(key: Seq<char>, v: Seq<char>)
    requires
        crate::text::no_char(key, '='),
    ensures
        key_val(key + seq!['='] + v) == (key, v),
{
    crate::text::lemma_split_cons(key, '=', v);
}

/// The literal keys of a position line, their `=` forms, and that they
/// differ from each other.
proof fn lemma_line_literals()
    ensures
        "white="@ == "white"@ + seq!['='],
        "black="@ == "black"@ + seq!['='],
        "turn="@ == "turn"@ + seq!['='],
        "white-off="@ == "white-off"@ + seq!['='],
        "black-off="@ == "black-off"@ + seq!['='],
        "dice="@ == "dice"@ + seq!['='],
        " black="@ == seq![' '] + "black="@,
        " turn="@ == seq![' '] + "turn="@,
        " white-off="@ == seq![' '] + "white-off="@,
        " black-off="@ == seq![' '] + "black-off="@,
        " dice="@ == seq![' '] + "dice="@,
        crate::text::no_char("white"@, '=') && crate::text::no_char("black"@, '='),
        crate::text::no_char("turn"@, '=') && crate::text::no_char("white-off"@, '='),
        crate::text::no_char("black-off"@, '=') && crate::text::no_char("dice"@, '='),
        crate::text::no_ws("white="@) && crate::text::no_ws("black="@) && crate::text::no_ws("turn="@),
        crate::text::no_ws("white-off="@) && crate::text::no_ws("black-off="@) && crate::text::no_ws("dice="@),
        crate::text::no_ws("W"@) && crate::text::no_ws("B"@),
        "black"@ != "white"@,
        "turn"@ != "white"@ && "turn"@ != "black"@ && "turn"@ != "white-off"@ && "turn"@ != "black-off"@,
        "white-off"@ != "white"@ && "white-off"@ != "black"@,
        "black-off"@ != "white"@ && "black-off"@ != "black"@ && "black-off"@ != "white-off"@,
        "dice"@ != "white"@ && "dice"@ != "black"@ && "dice"@ != "white-off"@ && "dice"@ != "black-off"@
            && "dice"@ != "turn"@,
        player_of("W"@) == Player::White,
        player_of("B"@) == Player::Black,
{
    reveal_strlit("white=");
    reveal_strlit("black=");
    reveal_strlit("turn=");
    reveal_strlit("white-off=");
    reveal_strlit("black-off=");
    reveal_strlit("dice=");
    reveal_strlit(" black=");
    reveal_strlit(" turn=");
    reveal_strlit(" white-off=");
    reveal_strlit(" black-off=");
    reveal_strlit(" dice=");
    reveal_strlit("white");
    reveal_strlit("black");
    reveal_strlit("turn");
    reveal_strlit("white-off");
    reveal_strlit("black-off");
    reveal_strlit("dice");
    reveal_strlit("W");
    reveal_strlit("B");
    reveal_strlit("b");
    assert("white="@ =~= "white"@ + seq!['=']);
    assert("black="@ =~= "black"@ + seq!['=']);
    assert("turn="@ =~= "turn"@ + seq!['=']);
    assert("white-off="@ =~= "white-off"@ + seq!['=']);
    assert("black-off="@ =~= "black-off"@ + seq!['=']);
    assert("dice="@ =~= "dice"@ + seq!['=']);
    assert(" black="@ =~= seq![' '] + "black="@);
    assert(" turn="@ =~= seq![' '] + "turn="@);
    assert(" white-off="@ =~= seq![' '] + "white-off="@);
    assert(" black-off="@ =~= seq![' '] + "black-off="@);
    assert(" dice="@ =~= seq![' '] + "dice="@);
    assert("black"@[0] != "white"@[0]);
    assert("turn"@[0] != "white"@[0] && "turn"@[0] != "black"@[0] && "turn"@[0] != "white-off"@[0]
        && "turn"@[0] != "black-off"@[0]);
    assert("white-off"@.len() != "white"@.len() && "white-off"@[0] != "black"@[0]);
    assert("black-off"@[0] != "white"@[0] && "black-off"@.len() != "black"@.len()
        && "black-off"@[0] != "white-off"@[0]);
    assert("dice"@[0] != "white"@[0] && "dice"@[0] != "black"@[0] && "dice"@[0] != "white-off"@[0]
        && "dice"@[0] != "black-off"@[0] && "dice"@[0] != "turn"@[0]);
    assert(!crate::text::ieq_char('W', 'b'));
    assert("W"@[0] == 'W' && "b"@[0] == 'b');
    assert(!crate::text::ieq_char("W"@[0], "b"@[0]));
    assert(!crate::text::ieq("W"@, "b"@));
    assert(!crate::text::ieq("W"@, "black"@));
    assert(crate::text::ieq_char('B', 'b'));
    assert(crate::text::ieq("B"@, "b"@));
}

/// Joining whitespace-free pieces with a non-whitespace separator gives
/// whitespace-free text.
pub proof fn lemma_no_ws_join(pieces: Seq<Seq<char>>, c: char)
    requires
        !crate::text::is_ws(c),
        forall|i: int| 0 <= i < pieces.len() ==> crate::text::no_ws(#[trigger] pieces[i]),
    ensures
        crate::text::no_ws(join(pieces, c)),
    decreases pieces.len(),
{
    if pieces.len() >= 2 {
        let init = pieces.drop_last();
        assert forall|i: int| 0 <= i < init.len() implies crate::text::no_ws(#[trigger] init[i]) by {
            assert(init[i] == pieces[i]);
        }
        lemma_no_ws_join(init, c);
        let j = join(init, c);
        let l = pieces.last();
        assert(crate::text::no_ws(l));
        let r = j.push(c) + l;
        assert forall|i: int| 0 <= i < r.len() implies !crate::text::is_ws(#[trigger] r[i]) by {
            if i < j.len() {
                assert(r[i] == j[i]);
            } else if i == j.len() {
                assert(r[i] == c);
            } else {
                assert(r[i] == l[i - j.len() - 1]);
            }
        }
    } else if pieces.len() == 1 {
        assert(crate::text::no_ws(pieces[0]));
    }
}

proof fn lemma_no_ws_concat(a: Seq<char>, b: Seq<char>)
    requires
        crate::text::no_ws(a),
        crate::text::no_ws(b),
    ensures
        crate::text::no_ws(a + b),
{
    assert forall|i: int| 0 <= i < (a + b).len() implies !crate::text::is_ws(#[trigger] (a + b)[i]) by {
        if i < a.len() {
            assert((a + b)[i] == a[i]);
        } else {
            assert((a + b)[i] == b[i - a.len()]);
        }
    }
}

/// The side spec of a readable board holds no whitespace.
proof fn lemma_side_text_no_ws(b: BoardView, p: Player)
    requires
        b.readable_for(p),
        b.shaped(),
    ensures
        crate::text::no_ws(side_text(b, p)),
{
    lemma_side_segs_shape(b, p, 24);
    lemma_no_ws_join(side_segs(b, p, 24), ',');
}

/// The tokens written after `turn=`: the borne-off counts that are not zero
/// and the dice.
pub open spec fn extra_tokens(b: BoardView, dice: Option<[u8; 2]>) -> Seq<Seq<char>> {
    (if b.off[0] > 0 { seq!["white-off"@ + seq!['='] + dec_chars(b.off[0] as nat)] } else { Seq::empty() })
        + (if b.off[1] > 0 { seq!["black-off"@ + seq!['='] + dec_chars(b.off[1] as nat)] } else { Seq::empty() })
        + match dice {
            Some(d) => seq!["dice"@ + seq!['='] + (dec_chars(d[0] as nat) + seq![','] + dec_chars(d[1] as nat))],
            None => Seq::empty(),
        }
}

/// The token naming the side to move.
pub open spec fn turn_letter(turn: Player) -> Seq<char> {
    if turn == Player::White { "W"@ } else { "B"@ }
}

/// The dice part of a position line.
pub open spec fn dice_part(dice: Option<[u8; 2]>) -> Seq<char> {
    match dice {
        Some(d) => " dice="@ + dec_chars(d[0] as nat) + seq![','] + dec_chars(d[1] as nat),
        None => Seq::empty(),
    }
}

proof fn lemma_extra_spaced(b: BoardView, dice: Option<[u8; 2]>)
    ensures
        spaced(extra_tokens(b, dice)) == opt_field(" white-off="@, b.off[0]) + opt_field(" black-off="@, b.off[1])
            + dice_part(dice),
{
    lemma_line_literals();
    let o0 = if b.off[0] > 0 { seq!["white-off"@ + seq!['='] + dec_chars(b.off[0] as nat)] } else {
        Seq::<Seq<char>>::empty()
    };
    let o1 = if b.off[1] > 0 { seq!["black-off"@ + seq!['='] + dec_chars(b.off[1] as nat)] } else {
        Seq::<Seq<char>>::empty()
    };
    let od = match dice {
        Some(d) => seq!["dice"@ + seq!['='] + (dec_chars(d[0] as nat) + seq![','] + dec_chars(d[1] as nat))],
        None => Seq::<Seq<char>>::empty(),
    };
    assert(extra_tokens(b, dice) == o0 + o1 + od);
    lemma_spaced_append(o0 + o1, od);
    lemma_spaced_append(o0, o1);
    if b.off[0] > 0 {
        lemma_spaced_single(o0[0]);
        assert(spaced(o0) =~= opt_field(" white-off="@, b.off[0]));
    } else {
        assert(spaced(o0) == opt_field(" white-off="@, b.off[0]));
    }
    if b.off[1] > 0 {
        lemma_spaced_single(o1[0]);
        assert(spaced(o1) =~= opt_field(" black-off="@, b.off[1]));
    } else {
        assert(spaced(o1) == opt_field(" black-off="@, b.off[1]));
    }
    match dice {
        Some(d) => {
            lemma_spaced_single(od[0]);
            assert(spaced(od) =~= dice_part(dice));
        },
        None => {
            assert(spaced(od) == dice_part(dice));
        },
    }
}

proof fn lemma_extra_tokens_ok(b: BoardView, dice: Option<[u8; 2]>)
    ensures
        forall|i: int| 0 <= i < extra_tokens(b, dice).len() ==> (#[trigger] extra_tokens(b, dice)[i]).len() > 0
            && crate::text::no_ws(extra_tokens(b, dice)[i]),
{
    lemma_line_literals();
    let ex = extra_tokens(b, dice);
    crate::text::lemma_dec_chars(b.off[0] as nat);
    crate::text::lemma_dec_chars(b.off[1] as nat);
    lemma_no_ws_concat("white-off="@, dec_chars(b.off[0] as nat));
    lemma_no_ws_concat("black-off="@, dec_chars(b.off[1] as nat));
    assert(crate::text::no_ws(seq![','])) by {
        assert(seq![','][0] == ',');
    }
    match dice {
        Some(d) => {
            crate::text::lemma_dec_chars(d[0] as nat);
            crate::text::lemma_dec_chars(d[1] as nat);
            lemma_no_ws_concat(dec_chars(d[0] as nat), seq![',']);
            lemma_no_ws_concat(dec_chars(d[0] as nat) + seq![','], dec_chars(d[1] as nat));
            lemma_no_ws_concat("dice="@, dec_chars(d[0] as nat) + seq![','] + dec_chars(d[1] as nat));
        },
        None => {},
    }
    let o0 = if b.off[0] > 0 { seq!["white-off"@ + seq!['='] + dec_chars(b.off[0] as nat)] } else {
        Seq::<Seq<char>>::empty()
    };
    let o1 = if b.off[1] > 0 { seq!["black-off"@ + seq!['='] + dec_chars(b.off[1] as nat)] } else {
        Seq::<Seq<char>>::empty()
    };
    assert forall|i: int| 0 <= i < ex.len() implies (#[trigger] ex[i]).len() > 0 && crate::text::no_ws(ex[i]) by {
        if i < o0.len() {
            assert(ex[i] == o0[i]);
            assert(ex[i] == "white-off="@ + dec_chars(b.off[0] as nat));
        } else if i < o0.len() + o1.len() {
            assert(ex[i] == o1[i - o0.len()]);
            assert(ex[i] == "black-off="@ + dec_chars(b.off[1] as nat));
        } else {
            let d = dice->0;
            assert(ex[i] =~= "dice="@ + (dec_chars(d[0] as nat) + seq![','] + dec_chars(d[1] as nat)));
            assert(ex[i] =~= "dice="@ + dec_chars(d[0] as nat) + seq![','] + dec_chars(d[1] as nat));
        }
    }
}

proof fn lemma_spaced_two(t2: Seq<char>, t3: Seq<char>, ex: Seq<Seq<char>>)
    ensures
        spaced(seq![t2, t3] + ex) == seq![' '] + t2 + (seq![' '] + t3 + spaced(ex)),
{
    let rest = seq![t2, t3] + ex;
    assert(rest[0] == t2);
    assert(rest.drop_first() =~= seq![t3] + ex);
    let r2 = seq![t3] + ex;
    assert(r2[0] == t3);
    assert(r2.drop_first() =~= ex);
    assert(spaced(r2) == seq![' '] + t3 + spaced(ex));
    assert(spaced(rest) == seq![' '] + t2 + spaced(r2));
}

#[verifier::spinoff_prover]
#[verifier::rlimit(60)]
proof fn lemma_pos_line_tokens(b: BoardView, turn: Player, dice: Option<[u8; 2]>)
    requires
        b.shaped(),
        b.readable_for(Player::Black),
    ensures
        ws_tokens(pos_line(b, turn, dice)) == seq!["white"@ + seq!['='] + side_text(b, Player::White),
            "black"@ + seq!['='] + side_text(b, Player::Black), "turn"@ + seq!['='] + turn_letter(turn)]
            + extra_tokens(b, dice),
{
    lemma_line_literals();
    let w = side_text(b, Player::White);
    let k = side_text(b, Player::Black);
    lemma_side_text_no_ws(b, Player::White);
    lemma_side_text_no_ws(b, Player::Black);
    let t1 = "white"@ + seq!['='] + w;
    let t2 = "black"@ + seq!['='] + k;
    let t3 = "turn"@ + seq!['='] + turn_letter(turn);
    let ex = extra_tokens(b, dice);
    lemma_no_ws_concat("white="@, w);
    lemma_no_ws_concat("black="@, k);
    lemma_no_ws_concat("turn="@, turn_letter(turn));
    assert(t1.len() > 0 && t2.len() > 0 && t3.len() > 0) by {
        reveal_strlit("white");
        reveal_strlit("black");
        reveal_strlit("turn");
    }
    lemma_extra_spaced(b, dice);
    lemma_extra_tokens_ok(b, dice);
    lemma_spaced_two(t2, t3, ex);
    let rest = seq![t2, t3] + ex;
    assert(pos_line(b, turn, dice) =~= t1 + spaced(rest));
    assert forall|i: int| 0 <= i < rest.len() implies (#[trigger] rest[i]).len() > 0
        && crate::text::no_ws(rest[i]) by {
        if i >= 2 {
            assert(rest[i] == ex[i - 2]);
        }
    }
    lemma_ws_tokens_spaced(t1, rest);
    assert(seq![t1] + rest =~= seq![t1, t2, t3] + ex);
}

proof fn lemma_scan_push(toks: Seq<Seq<char>>, t: Seq<char>)
    ensures
        scan_tokens(toks.push(t)) == scan_token(scan_tokens(toks), t),
        scan_tokens(Seq::<Seq<char>>::empty()) == scan_start(),
{
    reveal(scan_tokens);
    assert(toks.push(t).drop_last() =~= toks);
}

proof fn lemma_scan_side_tokens(st: LineScan, w: Seq<char>, k: Seq<char>)
    ensures
        scan_token(st, "white"@ + seq!['='] + w) == (LineScan {
            board: apply_side(st.board, Player::White, split_on(w, ',')),
            saw_side: true,
            ..st
        }),
        scan_token(st, "black"@ + seq!['='] + k) == (LineScan {
            board: apply_side(st.board, Player::Black, split_on(k, ',')),
            saw_side: true,
            ..st
        }),
        key_val("black"@ + seq!['='] + k) == ("black"@, k),
{
    reveal(scan_token);
    lemma_line_literals();
    lemma_key_val("white"@, w);
    lemma_key_val("black"@, k);
}

proof fn lemma_scan_turn_token(st: LineScan, turn: Player)
    ensures
        scan_token(st, "turn"@ + seq!['='] + turn_letter(turn)) == (LineScan { turn, ..st }),
        key_val("turn"@ + seq!['='] + turn_letter(turn)).0 != "black"@,
{
    reveal(scan_token);
    lemma_line_literals();
    lemma_key_val("turn"@, turn_letter(turn));
}

proof fn lemma_scan_off_tokens(st: LineScan, n: u8)
    ensures
        scan_token(st, "white-off"@ + seq!['='] + dec_chars(n as nat)) == (LineScan {
            board: BoardView { off: st.board.off.update(0, n), ..st.board },
            ..st
        }),
        scan_token(st, "black-off"@ + seq!['='] + dec_chars(n as nat)) == (LineScan {
            board: BoardView { off: st.board.off.update(1, n), ..st.board },
            ..st
        }),
        key_val("white-off"@ + seq!['='] + dec_chars(n as nat)).0 != "black"@,
        key_val("black-off"@ + seq!['='] + dec_chars(n as nat)).0 != "black"@,
{
    reveal(scan_token);
    lemma_line_literals();
    lemma_key_val("white-off"@, dec_chars(n as nat));
    lemma_key_val("black-off"@, dec_chars(n as nat));
    crate::text::lemma_parse_dec(n);
}

proof fn lemma_scan_dice_token(st: LineScan, a: u8, b: u8)
    ensures
        scan_token(st, "dice"@ + seq!['='] + (dec_chars(a as nat) + seq![','] + dec_chars(b as nat)))
            == (LineScan { dice: Some((a, b)), ..st }),
        key_val("dice"@ + seq!['='] + (dec_chars(a as nat) + seq![','] + dec_chars(b as nat))).0 != "black"@,
{
    reveal(scan_token);
    lemma_line_literals();
    let da = dec_chars(a as nat);
    let db = dec_chars(b as nat);
    let v = da + seq![','] + db;
    lemma_key_val("dice"@, v);
    crate::text::lemma_dec_chars(a as nat);
    crate::text::lemma_dec_chars(b as nat);
    assert(crate::text::no_char(da, ','));
    assert(crate::text::no_char(db, ','));
    crate::text::lemma_split_cons(da, ',', db);
    crate::text::lemma_split_single(db, ',');
    let parts = split_on(v, ',');
    assert(parts == seq![da] + seq![db]);
    crate::text::lemma_trim_no_ws(da);
    crate::text::lemma_trim_no_ws(db);
    crate::text::lemma_parse_dec(a);
    crate::text::lemma_parse_dec(b);
    assert(parts.drop_last() =~= seq![da]);
    assert(parts.last() == db);
    assert(seq![da].drop_last() =~= Seq::<Seq<char>>::empty());
    assert(seq![da].last() == da);
    assert(numbers_of(Seq::<Seq<char>>::empty()) == Seq::<u8>::empty());
    assert(numbers_of(seq![da]) =~= seq![a]);
    assert(numbers_of(parts) =~= seq![a, b]);
}

/// Both overlays together give back every cell of a readable board.
proof fn lemma_overlays_restore(b: BoardView)
    requires
        b.shaped(),
        b.readable_for(Player::Black),
    ensures
        overlay(overlay(BoardView::empty_spec(), b, Player::White, 24), b, Player::Black, 24).points == b.points,
{
    let e = BoardView::empty_spec();
    let w = overlay(e, b, Player::White, 24);
    let r = overlay(w, b, Player::Black, 24);
    assert forall|c: int| 0 <= c < 24 implies #[trigger] r.points[c] == b.points[c] by {
        lemma_phys_round_trip(Player::White, 1, c);
        lemma_phys_round_trip(Player::Black, 1, c);
        let v = b.points[c];
        assert(v != i8::MIN);
    }
    assert(r.points =~= b.points);
}

/// The fixed first three tokens of a line.
pub open spec fn fixed_tokens(b: BoardView, turn: Player) -> Seq<Seq<char>> {
    seq!["white"@ + seq!['='] + side_text(b, Player::White), "black"@ + seq!['='] + side_text(b, Player::Black),
        "turn"@ + seq!['='] + turn_letter(turn)]
}

#[verifier::spinoff_prover]
#[verifier::rlimit(60)]
proof fn lemma_scan_fixed(b: BoardView, turn: Player)
    requires
        b.shaped(),
        b.readable_for(Player::Black),
    ensures
        scan_tokens(fixed_tokens(b, turn)).board.points == b.points,
        scan_tokens(fixed_tokens(b, turn)).board.off == seq![0u8, 0u8],
        scan_tokens(fixed_tokens(b, turn)).turn == turn,
        scan_tokens(fixed_tokens(b, turn)).dice is None,
        !scan_tokens(fixed_tokens(b, turn)).first,
        scan_tokens(fixed_tokens(b, turn)).saw_side,
{
    let w = side_text(b, Player::White);
    let k = side_text(b, Player::Black);
    let t1 = "white"@ + seq!['='] + w;
    let t2 = "black"@ + seq!['='] + k;
    let t3 = "turn"@ + seq!['='] + turn_letter(turn);
    let e = BoardView::empty_spec();
    let st0 = scan_start();
    lemma_scan_push(Seq::<Seq<char>>::empty(), t1);
    assert(Seq::<Seq<char>>::empty().push(t1) =~= seq![t1]);
    lemma_scan_side_tokens(st0, w, k);
    lemma_side_round_trip(e, b, Player::White);
    let st1 = scan_tokens(seq![t1]);
    assert(st1.board == overlay(e, b, Player::White, 24));
    lemma_scan_push(seq![t1], t2);
    assert(seq![t1].push(t2) =~= seq![t1, t2]);
    lemma_scan_side_tokens(st1, w, k);
    lemma_side_round_trip(st1.board, b, Player::Black);
    let st2 = scan_tokens(seq![t1, t2]);
    assert(st2.board == overlay(overlay(e, b, Player::White, 24), b, Player::Black, 24));
    lemma_scan_push(seq![t1, t2], t3);
    assert(seq![t1, t2].push(t3) =~= fixed_tokens(b, turn));
    lemma_scan_turn_token(st2, turn);
    lemma_overlays_restore(b);
}

pub open spec fn off_token(which: int, n: u8) -> Seq<Seq<char>> {
    if n > 0 {
        seq![(if which == 0 { "white-off"@ } else { "black-off"@ }) + seq!['='] + dec_chars(n as nat)]
    } else {
        Seq::empty()
    }
}

pub open spec fn dice_token(dice: Option<[u8; 2]>) -> Seq<Seq<char>> {
    match dice {
        Some(d) => seq!["dice"@ + seq!['='] + (dec_chars(d[0] as nat) + seq![','] + dec_chars(d[1] as nat))],
        None => Seq::empty(),
    }
}

proof fn lemma_scan_off_step(s: Seq<Seq<char>>, which: int, n: u8)
    requires
        which == 0 || which == 1,
    ensures
        scan_tokens(s + off_token(which, n)) == (if n > 0 {
            LineScan {
                board: BoardView { off: scan_tokens(s).board.off.update(which, n), ..scan_tokens(s).board },
                ..scan_tokens(s)
            }
        } else {
            scan_tokens(s)
        }),
{
    if n > 0 {
        let t = off_token(which, n)[0];
        assert(s + off_token(which, n) =~= s.push(t));
        lemma_scan_push(s, t);
        lemma_scan_off_tokens(scan_tokens(s), n);
    } else {
        assert(s + off_token(which, n) =~= s);
    }
}

proof fn lemma_scan_dice_step(s: Seq<Seq<char>>, dice: Option<[u8; 2]>)
    ensures
        scan_tokens(s + dice_token(dice)) == (match dice {
            Some(d) => LineScan { dice: Some((d[0], d[1])), ..scan_tokens(s) },
            None => scan_tokens(s),
        }),
{
    match dice {
        Some(d) => {
            let t = dice_token(dice)[0];
            assert(s + dice_token(dice) =~= s.push(t));
            lemma_scan_push(s, t);
            lemma_scan_dice_token(scan_tokens(s), d[0], d[1]);
        },
        None => {
            assert(s + dice_token(dice) =~= s);
        },
    }
}

proof fn lemma_scan_extra(b: BoardView, turn: Player, dice: Option<[u8; 2]>)
    requires
        b.shaped(),
        b.readable_for(Player::Black),
    ensures
        scan_tokens(fixed_tokens(b, turn) + extra_tokens(b, dice)).board == b,
        scan_tokens(fixed_tokens(b, turn) + extra_tokens(b, dice)).turn == turn,
        scan_tokens(fixed_tokens(b, turn) + extra_tokens(b, dice)).dice == (match dice {
            Some(d) => Some((d[0], d[1])),
            None => None,
        }),
        !scan_tokens(fixed_tokens(b, turn) + extra_tokens(b, dice)).first,
        scan_tokens(fixed_tokens(b, turn) + extra_tokens(b, dice)).saw_side,
{
    lemma_scan_fixed(b, turn);
    let s3 = fixed_tokens(b, turn);
    let s4 = s3 + off_token(0, b.off[0]);
    let s5 = s4 + off_token(1, b.off[1]);
    let s6 = s5 + dice_token(dice);
    lemma_scan_off_step(s3, 0, b.off[0]);
    lemma_scan_off_step(s4, 1, b.off[1]);
    lemma_scan_dice_step(s5, dice);
    assert(scan_tokens(s5).board.off =~= b.off);
    assert(scan_tokens(s6).board =~= b);
    assert(extra_tokens(b, dice) =~= off_token(0, b.off[0]) + off_token(1, b.off[1]) + dice_token(dice));
    assert(s6 =~= s3 + extra_tokens(b, dice));
}

#[verifier::spinoff_prover]
#[verifier::rlimit(60)]
proof fn lemma_line_placeable(b: BoardView, turn: Player, dice: Option<[u8; 2]>)
    requires
        b.shaped(),
        b.readable_for(Player::Black),
    ensures
        line_placeable(pos_line(b, turn, dice)),
{
    let line = pos_line(b, turn, dice);
    lemma_pos_line_tokens(b, turn, dice);
    let w = side_text(b, Player::White);
    let k = side_text(b, Player::Black);
    let toks = fixed_tokens(b, turn) + extra_tokens(b, dice);
    assert(ws_tokens(line) == toks);
    let ex = extra_tokens(b, dice);
    let st0 = scan_start();
    lemma_side_round_trip(st0.board, b, Player::Black);
    let o0 = if b.off[0] > 0 { seq!["white-off"@ + seq!['='] + dec_chars(b.off[0] as nat)] } else {
        Seq::<Seq<char>>::empty()
    };
    let o1 = if b.off[1] > 0 { seq!["black-off"@ + seq!['='] + dec_chars(b.off[1] as nat)] } else {
        Seq::<Seq<char>>::empty()
    };
    let od = match dice {
        Some(d) => seq!["dice"@ + seq!['='] + (dec_chars(d[0] as nat) + seq![','] + dec_chars(d[1] as nat))],
        None => Seq::<Seq<char>>::empty(),
    };
    assert(ex == o0 + o1 + od);
    assert forall|i: int| 0 <= i < ws_tokens(line).len() implies ({
        let (kk, v) = key_val(#[trigger] ws_tokens(line)[i]);
        kk == "black"@ ==> side_placeable(split_on(v, ','), Player::Black)
    }) by {
        let tok = toks[i];
        if i == 0 {
            lemma_line_literals();
            lemma_key_val("white"@, w);
        } else if i == 1 {
            lemma_scan_side_tokens(st0, w, k);
        } else if i == 2 {
            lemma_scan_turn_token(st0, turn);
        } else {
            let j = i - 3;
            assert(tok == ex[j]);
            if j < o0.len() {
                assert(tok == o0[j]);
                lemma_scan_off_tokens(st0, b.off[0]);
            } else if j < o0.len() + o1.len() {
                assert(tok == o1[j - o0.len()]);
                lemma_scan_off_tokens(st0, b.off[1]);
            } else {
                let d = dice->0;
                assert(tok == od[j - o0.len() - o1.len()]);
                lemma_scan_dice_token(st0, d[0], d[1]);
            }
        }
    }
}

/// Writing a position line and reading it back gives the position, the side
/// to move and the dice again (the first-turn flag reads as unset), for every
/// board whose cells can all be read.
pub proof fn lemma_pos_line_round_trip(b: BoardView, turn: Player, dice: Option<[u8; 2]>)
    requires
        b.shaped(),
        b.readable_for(Player::Black),
    ensures
        line_placeable(pos_line(b, turn, dice)),
        scan_line(pos_line(b, turn, dice)).board == b,
        scan_line(pos_line(b, turn, dice)).turn == turn,
        scan_line(pos_line(b, turn, dice)).dice == (match dice {
            Some(d) => Some((d[0], d[1])),
            None => None,
        }),
        !scan_line(pos_line(b, turn, dice)).first,
        scan_line(pos_line(b, turn, dice)).saw_side,
{
    lemma_pos_line_tokens(b, turn, dice);
    assert(ws_tokens(pos_line(b, turn, dice)) == fixed_tokens(b, turn) + extra_tokens(b, dice));
    lemma_scan_extra(b, turn, dice);
    lemma_line_placeable(b, turn, dice);
}
// ---------------------------------------------------------------------------
// A turn key fixes the resulting board
// ---------------------------------------------------------------------------

/// The `(from, to)` a sub-move key names.
pub open spec fn key_pair(k: Seq<char>) -> Option<(u8, u8)> {
    match split_once_on(k, '>') {
        Some((a, b)) => match (parse_u8_spec(a), parse_u8_spec(b)) {
            (Some(x), Some(y)) => Some((x, y)),
            _ => None,
        },
        None => None,
    }
}

/// What the sub-move named by a key does to position `q` (0: borne off).
pub open spec fn key_weight(k: Seq<char>, q: int) -> int {
    match key_pair(k) {
        Some((f, d)) => (if d == q { 1int } else { 0int }) - (if f == q { 1int } else { 0int }),
        None => 0,
    }
}

pub open spec fn weigher(q: int) -> spec_fn(Seq<char>, int) -> int {
    |k: Seq<char>, acc: int| acc + key_weight(k, q)
}

/// The summed weights of the keys.
pub open spec fn sum_weights(ks: Seq<Seq<char>>, q: int) -> int
    decreases ks.len(),
{
    if ks.len() == 0 {
        0
    } else {
        sum_weights(ks.drop_last(), q) + key_weight(ks.last(), q)
    }
}

proof fn lemma_move_key(m: CheckerMove)
    ensures
        key_pair(move_key(m)) == Some((m.from, if m.bear_off { 0u8 } else { m.to })),
        forall|q: int| #[trigger] key_weight(move_key(m), q) == (if dest(m) == q { 1int } else { 0int }) - (if m.from
            == q { 1int } else { 0int }),
        move_key(m).len() > 0,
        crate::text::is_digit(move_key(m)[0]),
        crate::text::no_char(move_key(m), ','),
{
    let d: u8 = if m.bear_off { 0u8 } else { m.to };
    let a = dec_chars(m.from as nat);
    let z = dec_chars(d as nat);
    crate::text::lemma_dec_chars(m.from as nat);
    crate::text::lemma_dec_chars(d as nat);
    assert(crate::text::no_char(a, '>'));
    crate::text::lemma_split_cons(a, '>', z);
    crate::text::lemma_parse_dec(m.from);
    crate::text::lemma_parse_dec(d);
    let k = move_key(m);
    assert(k == a + seq!['>'] + z);
    assert(k[0] == a[0]);
    assert forall|i: int| 0 <= i < k.len() implies #[trigger] k[i] != ',' by {
        if i < a.len() {
            assert(k[i] == a[i]);
        } else if i > a.len() {
            assert(k[i] == z[i - a.len() - 1]);
        }
    }
}

proof fn lemma_fold_weights(ks: Seq<Seq<char>>, q: int, v: int)
    ensures
        ks.fold_right(weigher(q), v) == v + sum_weights(ks, q),
    decreases ks.len(),
{
    if ks.len() > 0 {
        lemma_fold_weights(ks.drop_last(), q, v + key_weight(ks.last(), q));
    }
}

proof fn lemma_weights_of_moves(s: Seq<CheckerMove>, q: int)
    ensures
        sum_weights(keys_of(s), q) == net_at(s, q),
    decreases s.len(),
{
    let ks = keys_of(s);
    if s.len() > 0 {
        lemma_weights_of_moves(s.drop_last(), q);
        assert(ks.drop_last() =~= keys_of(s.drop_last()));
        assert(ks.last() == move_key(s.last()));
        lemma_move_key(s.last());
        lemma_net_at_last(s, q);
    } else {
        assert(ks.len() == 0);
    }
}

/// The keys of a non-pass turn, sorted: a non-empty list of keys.
proof fn lemma_sorted_keys(s: Seq<CheckerMove>)
    requires
        s.len() > 0,
    ensures
        sorted_keys(s).len() == s.len(),
        sorted_keys(s).to_multiset() == keys_of(s).to_multiset(),
        forall|i: int| 0 <= i < s.len() ==> crate::text::no_char(#[trigger] sorted_keys(s)[i], ',')
            && sorted_keys(s)[i].len() > 0 && crate::text::is_digit(sorted_keys(s)[i][0]),
{
    let ks = keys_of(s);
    let st = sorted_keys(s);
    lemma_lex_order();
    ks.lemma_sort_by_ensures(lex_order());
    vstd::seq_lib::to_multiset_len(ks);
    vstd::seq_lib::to_multiset_len(st);
    assert forall|i: int| 0 <= i < s.len() implies crate::text::no_char(#[trigger] st[i], ',') && st[i].len() > 0
        && crate::text::is_digit(st[i][0]) by {
        vstd::seq_lib::to_multiset_contains(st, st[i]);
        vstd::seq_lib::to_multiset_contains(ks, st[i]);
        assert(st.contains(st[i]));
        assert(ks.contains(st[i]));
        let j = choose|j: int| 0 <= j < ks.len() && ks[j] == st[i];
        lemma_move_key(s[j]);
    }
}

proof fn lemma_join_first(ps: Seq<Seq<char>>)
    requires
        ps.len() >= 1,
        ps[0].len() > 0,
    ensures
        join(ps, ',').len() > 0,
        join(ps, ',')[0] == ps[0][0],
{
    if ps.len() >= 2 {
        crate::text::lemma_join_front(ps, ',');
    }
}

/// Equal turn keys mean equal net effects on every position.
proof fn lemma_keys_fix_net(s1: Seq<CheckerMove>, s2: Seq<CheckerMove>)
    requires
        turn_key_spec(s1) == turn_key_spec(s2),
    ensures
        forall|q: int| #[trigger] net_at(s1, q) == net_at(s2, q),
{
    reveal_strlit("pass");
    if s1.len() > 0 {
        lemma_sorted_keys(s1);
        let st1 = sorted_keys(s1);
        lemma_join_first(st1);
        assert(turn_key_spec(s1)[0] == st1[0][0]);
        assert(!crate::text::is_digit("pass"@[0]));
    }
    if s2.len() > 0 {
        lemma_sorted_keys(s2);
        let st2 = sorted_keys(s2);
        lemma_join_first(st2);
        assert(turn_key_spec(s2)[0] == st2[0][0]);
        assert(!crate::text::is_digit("pass"@[0]));
    }
    if s1.len() == 0 || s2.len() == 0 {
        assert(s1.len() == 0 && s2.len() == 0);
        assert forall|q: int| #[trigger] net_at(s1, q) == net_at(s2, q) by {}
    } else {
        let ks1 = keys_of(s1);
        let ks2 = keys_of(s2);
        let st1 = sorted_keys(s1);
        let st2 = sorted_keys(s2);
        lemma_sorted_keys(s1);
        lemma_sorted_keys(s2);
        crate::text::lemma_split_join(st1, ',');
        crate::text::lemma_split_join(st2, ',');
        assert(st1 == st2);
        assert forall|q: int| #[trigger] net_at(s1, q) == net_at(s2, q) by {
            let f = weigher(q);
            assert(vstd::seq_lib::commutative_foldr(f)) by {
                assert forall|x: Seq<char>, y: Seq<char>, v: int| #[trigger] f(x, f(y, v)) == f(y, f(x, v)) by {}
            }
            vstd::seq_lib::lemma_fold_right_permutation(ks1, st1, f, 0);
            vstd::seq_lib::lemma_fold_right_permutation(ks2, st2, f, 0);
            lemma_fold_weights(ks1, q, 0);
            lemma_fold_weights(ks2, q, 0);
            lemma_fold_weights(st1, q, 0);
            lemma_weights_of_moves(s1, q);
            lemma_weights_of_moves(s2, q);
        }
    }
}

/// Two legal turns of a roll with the same key end on the same board, so
/// turns with different resulting boards always get different keys.
pub proof fn lemma_turn_key_fixes_board(b: BoardView, p: Player, dice: [u8; 2], bu: int, s1: Seq<CheckerMove>,
    e1: BoardView, s2: Seq<CheckerMove>, e2: BoardView)
    requires
        b.wf(),
        turn_spec(b, p, dice, bu, s1, e1),
        turn_spec(b, p, dice, bu, s2, e2),
        turn_key_spec(s1) == turn_key_spec(s2),
    ensures
        e1 == e2,
{
    reveal(is_play);
    lemma_play_effect(b, p, initial_counts(dice), 0, bu, s1, e1);
    lemma_play_effect(b, p, initial_counts(dice), 0, bu, s2, e2);
    lemma_keys_fix_net(s1, s2);
    let o = p.spec_opponent();
    assert forall|q: int| 1 <= q <= 24 implies #[trigger] e1.own(p, q) == e2.own(p, q) by {
        assert(net_at(s1, q) == net_at(s2, q));
    }
    assert forall|q: int| 1 <= q <= 24 implies #[trigger] e1.own(o, q) == e2.own(o, q) by {}
    assert(net_at(s1, 0) == net_at(s2, 0));
    assert forall|q: int| 1 <= q <= 24 implies #[trigger] e1.own(Player::White, q) == e2.own(Player::White, q) by {
        if p == Player::White {
            assert(e1.own(p, q) == e2.own(p, q));
        } else {
            assert(e1.own(o, q) == e2.own(o, q));
        }
    }
    assert forall|q: int| 1 <= q <= 24 implies #[trigger] e1.own(Player::Black, q) == e2.own(Player::Black, q) by {
        if p == Player::Black {
            assert(e1.own(p, q) == e2.own(p, q));
        } else {
            assert(e1.own(o, q) == e2.own(o, q));
        }
    }
    BoardView::lemma_board_by_counts(e1, e2);
}

} // verus!
