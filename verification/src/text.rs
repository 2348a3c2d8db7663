//! Character-level text handling behind the plain-text notations: splitting,
//! trimming, decimal numbers and ASCII case-insensitive comparison, each
//! stated over sequences of characters.
use vstd::prelude::*;

verus! {

// ---------------------------------------------------------------------------
// Characters
// ---------------------------------------------------------------------------

/// Unicode `White_Space`, the characters `char::is_whitespace` accepts.
pub open spec fn is_ws(c: char) -> bool {
    let u = c as u32;
    ||| 0x9 <= u <= 0xD
    ||| u == 0x20
    ||| u == 0x85
    ||| u == 0xA0
    ||| u == 0x1680
    ||| 0x2000 <= u <= 0x200A
    ||| u == 0x2028
    ||| u == 0x2029
    ||| u == 0x202F
    ||| u == 0x205F
    ||| u == 0x3000
}

/// An ASCII decimal digit.
pub open spec fn is_digit(c: char) -> bool {
    '0' <= c <= '9'
}

/// Value of an ASCII digit.
pub open spec fn digit_of(c: char) -> nat {
    ((c as u32) - ('0' as u32)) as nat
}

/// The ASCII digit for `d` in `0..10`.
pub open spec fn digit_char(d: nat) -> char {
    if d == 0 { '0' } else if d == 1 { '1' } else if d == 2 { '2' } else if d == 3 { '3' }
    else if d == 4 { '4' } else if d == 5 { '5' } else if d == 6 { '6' } else if d == 7 { '7' }
    else if d == 8 { '8' } else { '9' }
}

/// An ASCII upper-case letter.
pub open spec fn is_upper(c: char) -> bool {
    'A' <= c <= 'Z'
}

/// Equal after folding ASCII upper case to lower case.
pub open spec fn ieq_char(a: char, b: char) -> bool {
    ||| a == b
    ||| is_upper(a) && (a as u32) + 32 == (b as u32)
    ||| is_upper(b) && (b as u32) + 32 == (a as u32)
}

/// Equal ignoring ASCII case (what `str::eq_ignore_ascii_case` decides).
pub open spec fn ieq(a: Seq<char>, b: Seq<char>) -> bool {
    a.len() == b.len() && forall|i: int| 0 <= i < a.len() ==> #[trigger] ieq_char(a[i], b[i])
}

pub fn is_ws_char(c: char) -> (r: bool)
    ensures
        r == is_ws(c),
{
    let u = c as u32;
    (0x9 <= u && u <= 0xD) || u == 0x20 || u == 0x85 || u == 0xA0 || u == 0x1680
        || (0x2000 <= u && u <= 0x200A) || u == 0x2028 || u == 0x2029 || u == 0x202F
        || u == 0x205F || u == 0x3000
}

fn ieq_char_exec(a: char, b: char) -> (r: bool)
    ensures
        r == ieq_char(a, b),
{
    let x = a as u32;
    let y = b as u32;
    x == y || ('A' <= a && a <= 'Z' && x + 32 == y) || ('A' <= b && b <= 'Z' && y + 32 == x)
}

// ---------------------------------------------------------------------------
// Searching
// ---------------------------------------------------------------------------

/// `i` is the first position of `s` whose character satisfies `p`.
pub open spec fn is_first_where(s: Seq<char>, p: spec_fn(char) -> bool, i: int) -> bool {
    &&& 0 <= i < s.len()
    &&& p(s[i])
    &&& forall|j: int| 0 <= j < i ==> !p(#[trigger] s[j])
}

/// First position of `s` whose character satisfies `p`; `s.len()` if none.
pub open spec fn first_where(s: Seq<char>, p: spec_fn(char) -> bool) -> int {
    if exists|i: int| is_first_where(s, p, i) {
        choose|i: int| is_first_where(s, p, i)
    } else {
        s.len() as int
    }
}

pub open spec fn char_is(c: char) -> spec_fn(char) -> bool {
    |x: char| x == c
}

pub open spec fn ws_fn() -> spec_fn(char) -> bool {
    |x: char| is_ws(x)
}

pub open spec fn non_ws_fn() -> spec_fn(char) -> bool {
    |x: char| !is_ws(x)
}

/// `first_where` is pinned by the position it describes.
pub proof fn lemma_first_where(s: Seq<char>, p: spec_fn(char) -> bool, k: int)
    requires
        0 <= k <= s.len(),
        forall|j: int| 0 <= j < k ==> !p(#[trigger] s[j]),
        k < s.len() ==> p(s[k]),
    ensures
        first_where(s, p) == k,
{
    if k < s.len() {
        assert(is_first_where(s, p, k));
        let i = choose|i: int| is_first_where(s, p, i);
        if i < k {
            assert(!p(s[i]));
        }
        if i > k {
            assert(!p(s[k]));
        }
    } else {
        if exists|i: int| is_first_where(s, p, i) {
            let i = choose|i: int| is_first_where(s, p, i);
            assert(!p(s[i]));
        }
    }
}

/// Pieces of `s` between occurrences of `c` (what `str::split` yields).
pub open spec fn split_on(s: Seq<char>, c: char) -> Seq<Seq<char>>
    decreases s.len(),
{
    let k = first_where(s, char_is(c));
    if 0 <= k < s.len() {
        seq![s.subrange(0, k)] + split_on(s.subrange(k + 1, s.len() as int), c)
    } else {
        seq![s]
    }
}

/// Around the first occurrence of `c` (what `str::split_once` yields).
pub open spec fn split_once_on(s: Seq<char>, c: char) -> Option<(Seq<char>, Seq<char>)> {
    let k = first_where(s, char_is(c));
    if 0 <= k < s.len() {
        Some((s.subrange(0, k), s.subrange(k + 1, s.len() as int)))
    } else {
        None
    }
}

/// Maximal runs of non-whitespace (what `str::split_whitespace` yields).
pub open spec fn ws_tokens(s: Seq<char>) -> Seq<Seq<char>>
    decreases s.len(),
{
    if s.len() == 0 {
        Seq::empty()
    } else if is_ws(s[0]) {
        ws_tokens(s.drop_first())
    } else {
        let k = first_where(s, ws_fn());
        if 1 <= k <= s.len() {
            seq![s.subrange(0, k)] + ws_tokens(s.subrange(k, s.len() as int))
        } else {
            seq![s]
        }
    }
}

/// `s` without leading whitespace.
pub open spec fn trim_start(s: Seq<char>) -> Seq<char> {
    s.subrange(first_where(s, non_ws_fn()), s.len() as int)
}

/// `s` without trailing whitespace.
pub open spec fn trim_end(s: Seq<char>) -> Seq<char>
    decreases s.len(),
{
    if s.len() > 0 && is_ws(s.last()) {
        trim_end(s.drop_last())
    } else {
        s
    }
}

/// `s` without leading and trailing whitespace (`str::trim`).
pub open spec fn trim_spec(s: Seq<char>) -> Seq<char> {
    trim_end(trim_start(s))
}

// ---------------------------------------------------------------------------
// Decimal numbers
// ---------------------------------------------------------------------------

pub open spec fn all_digits(s: Seq<char>) -> bool {
    forall|i: int| 0 <= i < s.len() ==> is_digit(#[trigger] s[i])
}

/// Value of a string of decimal digits.
pub open spec fn dec_value(s: Seq<char>) -> nat
    decreases s.len(),
{
    if s.len() == 0 {
        0
    } else {
        dec_value(s.drop_last()) * 10 + digit_of(s.last())
    }
}

/// What `str::parse::<u8>` accepts: an optional `+`, then at least one
/// decimal digit, with a value of at most 255.
pub open spec fn parse_u8_spec(s: Seq<char>) -> Option<u8> {
    let d = if s.len() > 0 && s[0] == '+' { s.drop_first() } else { s };
    if d.len() > 0 && all_digits(d) && dec_value(d) <= 255 {
        Some(dec_value(d) as u8)
    } else {
        None
    }
}

/// Decimal notation of `n` without leading zeros.
pub open spec fn dec_chars(n: nat) -> Seq<char>
    decreases n,
{
    if n < 10 {
        seq![digit_char(n)]
    } else {
        dec_chars(n / 10).push(digit_char(n % 10))
    }
}

/// Joining pieces with a separator.
pub open spec fn join(pieces: Seq<Seq<char>>, sep: char) -> Seq<char>
    decreases pieces.len(),
{
    if pieces.len() == 0 {
        Seq::empty()
    } else if pieces.len() == 1 {
        pieces[0]
    } else {
        join(pieces.drop_last(), sep).push(sep) + pieces.last()
    }
}

// ---------------------------------------------------------------------------
// Conversions
// ---------------------------------------------------------------------------

/// `String::push`: appends `c` to the end of `s`.
#[verifier::external_body]
fn push_char(s: &mut String, c: char)
    ensures
        final(s)@ == old(s)@.push(c),
{
    s.push(c);
}

/// The characters of `s`.
pub fn chars_of(s: &str) -> (v: Vec<char>)
    ensures
        v@ == s@,
{
    let n = s.unicode_len();
    let mut v: Vec<char> = Vec::new();
    let mut i: usize = 0;
    while i < n
        invariant
            n == s@.len(),
            i <= n,
            v@ == s@.subrange(0, i as int),
        decreases n - i,
    {
        let c = s.get_char(i);
        v.push(c);
        i += 1;
        assert(v@ =~= s@.subrange(0, i as int));
    }
    assert(v@ =~= s@);
    v
}

/// A `String` holding the characters `v`.
pub fn string_of(v: &Vec<char>) -> (s: String)
    ensures
        s@ == v@,
{
    let mut s = String::new();
    let mut i: usize = 0;
    while i < v.len()
        invariant
            i <= v.len(),
            s@ == v@.subrange(0, i as int),
        decreases v.len() - i,
    {
        push_char(&mut s, v[i]);
        i += 1;
        assert(s@ =~= v@.subrange(0, i as int));
    }
    assert(s@ =~= v@);
    s
}

/// The characters `lo..hi` of `s`.
pub fn slice_of(s: &Vec<char>, lo: usize, hi: usize) -> (r: Vec<char>)
    requires
        lo <= hi <= s.len(),
    ensures
        r@ == s@.subrange(lo as int, hi as int),
{
    let mut r: Vec<char> = Vec::new();
    let mut i: usize = lo;
    while i < hi
        invariant
            lo <= i <= hi <= s.len(),
            r@ == s@.subrange(lo as int, i as int),
        decreases hi - i,
    {
        r.push(s[i]);
        i += 1;
        assert(r@ =~= s@.subrange(lo as int, i as int));
    }
    r
}

/// Append the characters of `lit`.
pub fn push_lit(out: &mut Vec<char>, lit: &str)
    ensures
        final(out)@ == old(out)@ + lit@,
{
    let n = lit.unicode_len();
    let mut i: usize = 0;
    while i < n
        invariant
            n == lit@.len(),
            i <= n,
            out@ == old(out)@ + lit@.subrange(0, i as int),
        decreases n - i,
    {
        let c = lit.get_char(i);
        out.push(c);
        i += 1;
        assert(out@ =~= old(out)@ + lit@.subrange(0, i as int));
    }
    assert(lit@.subrange(0, n as int) =~= lit@);
}

/// Append `v` itself.
pub fn push_all(out: &mut Vec<char>, v: &Vec<char>)
    ensures
        final(out)@ == old(out)@ + v@,
{
    let mut i: usize = 0;
    while i < v.len()
        invariant
            i <= v.len(),
            out@ == old(out)@ + v@.subrange(0, i as int),
        decreases v.len() - i,
    {
        out.push(v[i]);
        i += 1;
        assert(out@ =~= old(out)@ + v@.subrange(0, i as int));
    }
    assert(v@.subrange(0, v.len() as int) =~= v@);
}

/// Append the decimal notation of `n`.
pub fn push_dec(out: &mut Vec<char>, n: u8)
    ensures
        final(out)@ == old(out)@ + dec_chars(n as nat),
{
    if n >= 100 {
        let h = (n / 100) as u32;
        let t = ((n / 10) % 10) as u32;
        let u = (n % 10) as u32;
        let ghost o0 = out@;
        out.push(char_from_digit(h));
        out.push(char_from_digit(t));
        out.push(char_from_digit(u));
        proof {
            assert(out@ =~= o0 + seq![digit_char(h as nat), digit_char(t as nat), digit_char(u as nat)]);
            assert(dec_chars(n as nat) == dec_chars((n / 10) as nat).push(digit_char((n % 10) as nat)));
            assert(dec_chars((n / 10) as nat) == dec_chars((n / 100) as nat).push(digit_char(((n / 10) % 10) as nat)));
            assert(dec_chars((n / 100) as nat) == seq![digit_char((n / 100) as nat)]);
        }
    } else if n >= 10 {
        let t = (n / 10) as u32;
        let u = (n % 10) as u32;
        let ghost o0 = out@;
        out.push(char_from_digit(t));
        out.push(char_from_digit(u));
        proof {
            assert(out@ =~= o0 + seq![digit_char(t as nat), digit_char(u as nat)]);
            assert(dec_chars(n as nat) == dec_chars((n / 10) as nat).push(digit_char((n % 10) as nat)));
            assert(dec_chars((n / 10) as nat) == seq![digit_char((n / 10) as nat)]);
        }
    } else {
        let ghost o0 = out@;
        out.push(char_from_digit(n as u32));
        assert(out@ =~= o0 + seq![digit_char(n as nat)]);
    }
}

/// The ASCII digit `d` (`0..10`).
fn char_from_digit(d: u32) -> (c: char)
    requires
        d < 10,
    ensures
        c == digit_char(d as nat),
{
    match d {
        0 => '0',
        1 => '1',
        2 => '2',
        3 => '3',
        4 => '4',
        5 => '5',
        6 => '6',
        7 => '7',
        8 => '8',
        _ => '9',
    }
}

// ---------------------------------------------------------------------------
// Searching and splitting
// ---------------------------------------------------------------------------

/// The contents of a list of character vectors.
pub open spec fn pieces_view(v: Seq<Vec<char>>) -> Seq<Seq<char>> {
    v.map_values(|x: Vec<char>| x@)
}

/// The views of a list of pieces grow with the list.
pub proof fn lemma_pieces_push(v: Seq<Vec<char>>, x: Vec<char>)
    ensures
        pieces_view(v.push(x)) == pieces_view(v).push(x@),
{
    assert(pieces_view(v.push(x)) =~= pieces_view(v).push(x@));
}

/// First position at or after `lo` holding `c`; `s.len()` if none.
fn find_char_from(s: &Vec<char>, lo: usize, c: char) -> (k: usize)
    requires
        lo <= s.len(),
    ensures
        lo <= k <= s.len(),
        k - lo == first_where(s@.subrange(lo as int, s.len() as int), char_is(c)),
{
    let mut i = lo;
    while i < s.len() && s[i] != c
        invariant
            lo <= i <= s.len(),
            forall|j: int| lo <= j < i ==> s@[j] != c,
        decreases s.len() - i,
    {
        i += 1;
    }
    proof {
        let t = s@.subrange(lo as int, s.len() as int);
        assert forall|j: int| 0 <= j < i - lo implies !char_is(c)(#[trigger] t[j]) by {
            assert(t[j] == s@[lo + j]);
        }
        if i < s.len() {
            assert(t[i - lo] == s@[i as int]);
        }
        lemma_first_where(t, char_is(c), i - lo);
    }
    i
}

/// First position at or after `lo` whose character is (`want_ws`) or is
/// not (`!want_ws`) whitespace; `s.len()` if none.
fn find_ws_from(s: &Vec<char>, lo: usize, want_ws: bool) -> (k: usize)
    requires
        lo <= s.len(),
    ensures
        lo <= k <= s.len(),
        k - lo == first_where(s@.subrange(lo as int, s.len() as int), if want_ws { ws_fn() } else { non_ws_fn() }),
{
    let mut i = lo;
    while i < s.len() && is_ws_char(s[i]) != want_ws
        invariant
            lo <= i <= s.len(),
            forall|j: int| lo <= j < i ==> is_ws(s@[j]) != want_ws,
        decreases s.len() - i,
    {
        i += 1;
    }
    proof {
        let t = s@.subrange(lo as int, s.len() as int);
        let p = if want_ws { ws_fn() } else { non_ws_fn() };
        assert forall|j: int| 0 <= j < i - lo implies !p(#[trigger] t[j]) by {
            assert(t[j] == s@[lo + j]);
        }
        if i < s.len() {
            assert(t[i - lo] == s@[i as int]);
        }
        lemma_first_where(t, p, i - lo);
    }
    i
}

/// The pieces of `s` between occurrences of `c`.
pub fn split_char(s: &Vec<char>, c: char) -> (r: Vec<Vec<char>>)
    ensures
        pieces_view(r@) == split_on(s@, c),
{
    let mut out: Vec<Vec<char>> = Vec::new();
    let mut st: usize = 0;
    let n = s.len();
    proof {
        assert(s@.subrange(0, n as int) =~= s@);
        assert(pieces_view(out@) + split_on(s@, c) =~= split_on(s@, c));
    }
    loop
        invariant
            n == s.len(),
            st <= n,
            split_on(s@, c) == pieces_view(out@) + split_on(s@.subrange(st as int, n as int), c),
        decreases n - st,
    {
        let k = find_char_from(s, st, c);
        let ghost t = s@.subrange(st as int, n as int);
        let piece = slice_of(s, st, k);
        let ghost before = out@;
        proof { lemma_pieces_push(before, piece); }
        out.push(piece);
        if k < n {
            proof {
                assert(t.subrange(0, k - st) =~= s@.subrange(st as int, k as int));
                assert(t.subrange(k - st + 1, t.len() as int) =~= s@.subrange(k + 1, n as int));
                assert(split_on(t, c) == seq![t.subrange(0, k - st)]
                    + split_on(t.subrange(k - st + 1, t.len() as int), c));
                assert(pieces_view(out@) + split_on(s@.subrange(k + 1, n as int), c)
                    =~= pieces_view(before) + split_on(t, c));
            }
            st = k + 1;
        } else {
            proof {
                assert(split_on(t, c) == seq![t]);
                assert(pieces_view(out@) =~= pieces_view(before) + split_on(t, c));
            }
            return out;
        }
    }
}

/// `s` around the first occurrence of `c`, if any.
pub fn split_once_char(s: &Vec<char>, c: char) -> (r: Option<(Vec<char>, Vec<char>)>)
    ensures
        match split_once_on(s@, c) {
            None => r is None,
            Some((a, b)) => r matches Some((x, y)) && x@ == a && y@ == b,
        },
{
    let k = find_char_from(s, 0, c);
    proof { assert(s@.subrange(0, s.len() as int) =~= s@); }
    if k < s.len() {
        let a = slice_of(s, 0, k);
        let b = slice_of(s, k + 1, s.len());
        Some((a, b))
    } else {
        None
    }
}

/// The maximal runs of non-whitespace characters of `s`.
pub fn split_ws(s: &Vec<char>) -> (r: Vec<Vec<char>>)
    ensures
        pieces_view(r@) == ws_tokens(s@),
{
    let mut out: Vec<Vec<char>> = Vec::new();
    let mut st: usize = 0;
    let n = s.len();
    proof {
        assert(s@.subrange(0, n as int) =~= s@);
        assert(pieces_view(out@) + ws_tokens(s@) =~= ws_tokens(s@));
    }
    while st < n
        invariant
            n == s.len(),
            st <= n,
            ws_tokens(s@) == pieces_view(out@) + ws_tokens(s@.subrange(st as int, n as int)),
        decreases n - st,
    {
        let ghost t = s@.subrange(st as int, n as int);
        if is_ws_char(s[st]) {
            proof {
                assert(t.drop_first() =~= s@.subrange(st + 1, n as int));
            }
            st += 1;
        } else {
            let k = find_ws_from(s, st, true);
            let piece = slice_of(s, st, k);
            let ghost before = out@;
            proof {
                lemma_pieces_push(before, piece);
                assert(t.subrange(0, k - st) =~= s@.subrange(st as int, k as int));
                assert(t.subrange(k - st, t.len() as int) =~= s@.subrange(k as int, n as int));
                assert(ws_tokens(t) == seq![t.subrange(0, k - st)] + ws_tokens(t.subrange(k - st, t.len() as int)));
            }
            out.push(piece);
            proof {
                assert(pieces_view(out@) + ws_tokens(s@.subrange(k as int, n as int))
                    =~= pieces_view(before) + ws_tokens(t));
            }
            st = k;
        }
    }
    proof {
        assert(s@.subrange(st as int, n as int) =~= Seq::<char>::empty());
        assert(pieces_view(out@) + Seq::<Seq<char>>::empty() =~= pieces_view(out@));
    }
    out
}

/// `s` without leading and trailing whitespace.
pub fn trim(s: &Vec<char>) -> (r: Vec<char>)
    ensures
        r@ == trim_spec(s@),
{
    let n = s.len();
    let lo = find_ws_from(s, 0, false);
    proof { assert(s@.subrange(0, n as int) =~= s@); }
    let ghost ts = s@.subrange(lo as int, n as int);
    assert(ts == trim_start(s@));
    let mut hi = n;
    while hi > lo && is_ws_char(s[hi - 1])
        invariant
            lo <= hi <= n == s.len(),
            trim_end(ts) == trim_end(s@.subrange(lo as int, hi as int)),
        decreases hi,
    {
        proof {
            let u = s@.subrange(lo as int, hi as int);
            assert(u.last() == s@[hi - 1]);
            assert(u.drop_last() =~= s@.subrange(lo as int, hi - 1));
        }
        hi -= 1;
    }
    proof {
        let u = s@.subrange(lo as int, hi as int);
        if hi > lo {
            assert(u.last() == s@[hi - 1]);
        }
    }
    slice_of(s, lo, hi)
}

/// `a` equals the literal `lit`.
pub fn eq_lit(a: &Vec<char>, lit: &str) -> (r: bool)
    ensures
        r == (a@ == lit@),
{
    let n = lit.unicode_len();
    if a.len() != n {
        return false;
    }
    let mut i: usize = 0;
    while i < n
        invariant
            n == lit@.len() == a.len(),
            i <= n,
            forall|j: int| 0 <= j < i ==> a@[j] == lit@[j],
        decreases n - i,
    {
        if a[i] != lit.get_char(i) {
            return false;
        }
        i += 1;
    }
    assert(a@ =~= lit@);
    true
}

/// `a` equals the literal `lit` ignoring ASCII case.
pub fn ieq_lit(a: &Vec<char>, lit: &str) -> (r: bool)
    ensures
        r == ieq(a@, lit@),
{
    let n = lit.unicode_len();
    if a.len() != n {
        return false;
    }
    let mut i: usize = 0;
    while i < n
        invariant
            n == lit@.len() == a.len(),
            i <= n,
            forall|j: int| 0 <= j < i ==> #[trigger] ieq_char(a@[j], lit@[j]),
        decreases n - i,
    {
        if !ieq_char_exec(a[i], lit.get_char(i)) {
            return false;
        }
        i += 1;
    }
    true
}

proof fn lemma_dec_value_grows(p: Seq<char>, q: Seq<char>)
    requires
        all_digits(q),
    ensures
        dec_value(p + q) >= dec_value(p),
    decreases q.len(),
{
    if q.len() > 0 {
        assert((p + q).drop_last() =~= p + q.drop_last());
        lemma_dec_value_grows(p, q.drop_last());
    } else {
        assert(p + q =~= p);
    }
}

/// Parse a `u8` the way `str::parse::<u8>` does.
pub fn parse_u8(s: &Vec<char>) -> (r: Option<u8>)
    ensures
        r == parse_u8_spec(s@),
{
    let n = s.len();
    let start: usize = if n > 0 && s[0] == '+' { 1 } else { 0 };
    let ghost d = if s@.len() > 0 && s@[0] == '+' { s@.drop_first() } else { s@ };
    proof {
        assert(d =~= s@.subrange(start as int, n as int));
    }
    if start == n {
        return None;
    }
    let mut v: u32 = 0;
    let mut i: usize = start;
    while i < n
        invariant
            start <= i <= n == s.len(),
            start < n,
            d == s@.subrange(start as int, n as int),
            d == (if s@.len() > 0 && s@[0] == '+' { s@.drop_first() } else { s@ }),
            all_digits(s@.subrange(start as int, i as int)),
            v as nat == dec_value(s@.subrange(start as int, i as int)),
            v <= 255,
        decreases n - i,
    {
        let c = s[i];
        if !('0' <= c && c <= '9') {
            proof {
                assert(d[i - start] == c);
                assert(!is_digit(d[i - start]));
            }
            return None;
        }
        let ghost pre = s@.subrange(start as int, i as int);
        let ghost nxt = s@.subrange(start as int, i + 1);
        proof {
            assert(nxt.drop_last() =~= pre);
            assert(nxt.last() == c);
            assert forall|j: int| 0 <= j < nxt.len() implies is_digit(#[trigger] nxt[j]) by {
                if j < pre.len() {
                    assert(nxt[j] == pre[j]);
                }
            }
        }
        v = v * 10 + ((c as u32) - ('0' as u32));
        if v > 255 {
            proof {
                assert(v as nat == dec_value(nxt));
                if all_digits(d) {
                    let rest = s@.subrange(i + 1, n as int);
                    assert(d =~= nxt + rest);
                    assert forall|j: int| 0 <= j < rest.len() implies is_digit(#[trigger] rest[j]) by {
                        assert(rest[j] == d[i + 1 - start + j]);
                    }
                    lemma_dec_value_grows(nxt, rest);
                    assert(dec_value(d) > 255);
                }
            }
            return None;
        }
        i += 1;
    }
    proof {
        assert(s@.subrange(start as int, n as int) == d);
    }
    Some(v as u8)
}

/// `a` and `b` hold the same characters.
pub fn eq_chars(a: &Vec<char>, b: &Vec<char>) -> (r: bool)
    ensures
        r == (a@ == b@),
{
    if a.len() != b.len() {
        return false;
    }
    let mut i: usize = 0;
    while i < a.len()
        invariant
            a.len() == b.len(),
            i <= a.len(),
            forall|j: int| 0 <= j < i ==> a@[j] == b@[j],
        decreases a.len() - i,
    {
        if a[i] != b[i] {
            return false;
        }
        i += 1;
    }
    assert(a@ =~= b@);
    true
}

/// First position of `c` in `s`; `s.len()` if absent.
pub fn find_char(s: &Vec<char>, c: char) -> (k: usize)
    ensures
        k <= s.len(),
        k < s.len() ==> s@[k as int] == c,
        forall|j: int| 0 <= j < k ==> s@[j] != c,
{
    let mut i: usize = 0;
    while i < s.len() && s[i] != c
        invariant
            i <= s.len(),
            forall|j: int| 0 <= j < i ==> s@[j] != c,
        decreases s.len() - i,
    {
        i += 1;
    }
    i
}

// ---------------------------------------------------------------------------
// Laws of the notations' building blocks
// ---------------------------------------------------------------------------

/// `s` holds no whitespace.
pub open spec fn no_ws(s: Seq<char>) -> bool {
    forall|i: int| 0 <= i < s.len() ==> !is_ws(#[trigger] s[i])
}

/// `s` does not hold `c`.
pub open spec fn no_char(s: Seq<char>, c: char) -> bool {
    forall|i: int| 0 <= i < s.len() ==> #[trigger] s[i] != c
}

/// Decimal notation is a non-empty run of digits whose value is the number.
pub proof fn lemma_dec_chars(n: nat)
    ensures
        dec_chars(n).len() >= 1,
        all_digits(dec_chars(n)),
        dec_value(dec_chars(n)) == n,
        no_ws(dec_chars(n)),
        forall|c: char| !is_digit(c) ==> no_char(dec_chars(n), c),
    decreases n,
{
    let d = dec_chars(n);
    lemma_digit(n % 10);
    if n < 10 {
        assert(d == seq![digit_char(n)]);
        assert(d.drop_last() =~= Seq::<char>::empty());
        assert(n % 10 == n);
        assert(dec_value(d) == dec_value(d.drop_last()) * 10 + digit_of(d.last()));
    } else {
        lemma_dec_chars(n / 10);
        let p = dec_chars(n / 10);
        assert(d == p.push(digit_char(n % 10)));
        assert(d.drop_last() =~= p);
        assert(d.last() == digit_char(n % 10));
        assert(dec_value(d) == dec_value(p) * 10 + digit_of(d.last()));
        assert((n / 10) * 10 + n % 10 == n) by (nonlinear_arith);
        assert forall|i: int| 0 <= i < d.len() implies is_digit(#[trigger] d[i]) by {
            if i < p.len() {
                assert(d[i] == p[i]);
            }
        }
        assert forall|i: int| 0 <= i < d.len() implies !is_ws(#[trigger] d[i]) by {
            if i < p.len() {
                assert(d[i] == p[i]);
            }
        }
        assert forall|c: char| !is_digit(c) implies no_char(d, c) by {
            assert forall|i: int| 0 <= i < d.len() implies #[trigger] d[i] != c by {
                if i < p.len() {
                    assert(d[i] == p[i]);
                    assert(no_char(p, c));
                }
            }
        }
    }
}

proof fn lemma_digit(d: nat)
    requires
        d < 10,
    ensures
        digit_of(digit_char(d)) == d,
        is_digit(digit_char(d)),
        !is_ws(digit_char(d)),
{
}

/// Parsing the decimal notation of a byte gives the byte back.
pub proof fn lemma_parse_dec(n: u8)
    ensures
        parse_u8_spec(dec_chars(n as nat)) == Some(n),
{
    lemma_dec_chars(n as nat);
    let d = dec_chars(n as nat);
    assert(is_digit(d[0]));
}

/// Trimming text without whitespace changes nothing.
pub proof fn lemma_trim_no_ws(s: Seq<char>)
    requires
        no_ws(s),
    ensures
        trim_spec(s) == s,
{
    if s.len() > 0 {
        lemma_first_where(s, non_ws_fn(), 0);
    } else {
        lemma_first_where(s, non_ws_fn(), 0);
    }
    assert(trim_start(s) =~= s);
}

/// Text without whitespace is a single token.
pub proof fn lemma_ws_tokens_single(t: Seq<char>)
    requires
        t.len() > 0,
        no_ws(t),
    ensures
        ws_tokens(t) == seq![t],
{
    lemma_first_where(t, ws_fn(), t.len() as int);
    assert(t.subrange(0, t.len() as int) =~= t);
    assert(ws_tokens(t.subrange(t.len() as int, t.len() as int)) == Seq::<Seq<char>>::empty());
    assert(seq![t] + Seq::<Seq<char>>::empty() =~= seq![t]);
}

/// A token followed by a space and more text.
pub proof fn lemma_ws_tokens_cons(t: Seq<char>, rest: Seq<char>)
    requires
        t.len() > 0,
        no_ws(t),
    ensures
        ws_tokens(t + seq![' '] + rest) == seq![t] + ws_tokens(rest),
{
    let s = t + seq![' '] + rest;
    assert(s[t.len() as int] == ' ');
    assert(!is_ws(s[0])) by { assert(s[0] == t[0]); }
    assert(is_ws(' '));
    assert forall|j: int| 0 <= j < t.len() implies !ws_fn()(#[trigger] s[j]) by {
        assert(s[j] == t[j]);
    }
    lemma_first_where(s, ws_fn(), t.len() as int);
    assert(s.subrange(0, t.len() as int) =~= t);
    let after = s.subrange(t.len() as int, s.len() as int);
    assert(after.drop_first() =~= rest);
    assert(after[0] == ' ');
    assert(ws_tokens(after) == ws_tokens(after.drop_first()));
    assert(!no_ws(t) || s[0] == t[0]);
}

/// Text without `c` is a single piece.
pub proof fn lemma_split_single(s: Seq<char>, c: char)
    requires
        no_char(s, c),
    ensures
        split_on(s, c) == seq![s],
        split_once_on(s, c) is None,
{
    lemma_first_where(s, char_is(c), s.len() as int);
}

/// Text up to the first `c`, then the rest.
pub proof fn lemma_split_cons(a: Seq<char>, c: char, rest: Seq<char>)
    requires
        no_char(a, c),
    ensures
        split_on(a + seq![c] + rest, c) == seq![a] + split_on(rest, c),
        split_once_on(a + seq![c] + rest, c) == Some((a, rest)),
{
    let s = a + seq![c] + rest;
    assert forall|j: int| 0 <= j < a.len() implies !char_is(c)(#[trigger] s[j]) by {
        assert(s[j] == a[j]);
    }
    assert(s[a.len() as int] == c);
    lemma_first_where(s, char_is(c), a.len() as int);
    assert(s.subrange(0, a.len() as int) =~= a);
    assert(s.subrange(a.len() as int + 1, s.len() as int) =~= rest);
}

/// Joining with the separator, taken from the front.
pub proof fn lemma_join_front(pieces: Seq<Seq<char>>, c: char)
    requires
        pieces.len() >= 2,
    ensures
        join(pieces, c) == pieces[0] + seq![c] + join(pieces.drop_first(), c),
    decreases pieces.len(),
{
    if pieces.len() == 2 {
        assert(pieces.drop_last() =~= seq![pieces[0]]);
        assert(join(pieces.drop_last(), c) == pieces[0]);
        assert(pieces.drop_first() =~= seq![pieces[1]]);
        assert(join(pieces, c) =~= pieces[0].push(c) + pieces[1]);
    } else {
        lemma_join_front(pieces.drop_last(), c);
        assert(pieces.drop_last().drop_first() =~= pieces.drop_first().drop_last());
        assert(pieces.drop_first().last() == pieces.last());
        assert(join(pieces, c) =~= pieces[0] + seq![c] + join(pieces.drop_first(), c));
    }
}

/// Splitting a join at its separator gives the pieces back.
pub proof fn lemma_split_join(pieces: Seq<Seq<char>>, c: char)
    requires
        pieces.len() >= 1,
        forall|i: int| 0 <= i < pieces.len() ==> no_char(#[trigger] pieces[i], c),
    ensures
        split_on(join(pieces, c), c) == pieces,
    decreases pieces.len(),
{
    if pieces.len() == 1 {
        lemma_split_single(pieces[0], c);
        assert(seq![pieces[0]] =~= pieces);
    } else {
        lemma_join_front(pieces, c);
        let rest = pieces.drop_first();
        assert forall|i: int| 0 <= i < rest.len() implies no_char(#[trigger] rest[i], c) by {
            assert(rest[i] == pieces[i + 1]);
        }
        lemma_split_join(rest, c);
        assert(no_char(pieces[0], c));
        lemma_split_cons(pieces[0], c, join(rest, c));
        assert(seq![pieces[0]] + rest =~= pieces);
    }
}

/// Text that starts and ends with something other than whitespace is its
/// own trim.
pub proof fn lemma_trim_ends(s: Seq<char>)
    requires
        s.len() > 0,
        !is_ws(s[0]),
        !is_ws(s.last()),
    ensures
        trim_spec(s) == s,
{
    lemma_first_where(s, non_ws_fn(), 0);
    assert(trim_start(s) =~= s);
}

} // verus!
