//! Board model and coordinate system.
//!
//! The physical board is a loop of 24 cells `0..24`. Each player numbers the
//! same cells with their own path positions `1..=24`: 24 is the head, `1..=6`
//! is home, and a checker bears off by moving past position 1. White's head is
//! physical cell 0, Black's is cell 12.
use vstd::prelude::*;
use crate::player::Player;

verus! {

/// Number of physical points on the board.
pub const N_POINTS: usize = 24;
/// Checkers per side.
pub const N_CHECKERS: u8 = 15;
/// Path position of the head.
pub const HEAD_POS: u8 = 24;
/// Highest home position; home is `1..=HOME_HIGH`.
pub const HOME_HIGH: u8 = 6;
/// Starting pip count per side (`15 * 24`).
pub const START_PIP: u16 = 360;

/// Physical cell of `player`'s path position `pos` (for `pos` in `1..=24`).
pub open spec fn phys_spec(player: Player, pos: int) -> int {
    match player {
        Player::White => if pos == 24 { 0 } else { 24 - pos },
        Player::Black => if pos <= 12 { 12 - pos } else { 36 - pos },
    }
}

/// Path position of physical cell `cell` (in `0..24`) for `player`.
pub open spec fn pos_of_phys_spec(player: Player, cell: int) -> int {
    match player {
        Player::White => if cell == 0 { 24 } else { 24 - cell },
        Player::Black => if cell < 12 { 12 - cell } else { 36 - cell },
    }
}

/// Physical cell index (`0..24`) of `player`'s path position `pos` (`1..=24`).
#[inline]
pub fn phys(player: Player, pos: u8) -> (cell: usize)
    requires
        1 <= pos <= HEAD_POS,
    ensures
        cell == phys_spec(player, pos as int),
        cell < N_POINTS,
{
    let base: u8 = match player {
        Player::White => 24,
        Player::Black => 36,
    };
    ((base - pos) % 24) as usize
}

/// Inverse of [`phys`]: the path position (`1..=24`) of physical cell `cell`
/// for `player`.
#[inline]
pub fn pos_of_phys(player: Player, cell: usize) -> (pos: u8)
    requires
        cell < N_POINTS,
    ensures
        pos == pos_of_phys_spec(player, cell as int),
        1 <= pos <= HEAD_POS,
{
    let base: usize = match player {
        Player::White => 24,
        Player::Black => 36,
    };
    let v = (base - cell) % 24;
    if v == 0 {
        HEAD_POS
    } else {
        v as u8
    }
}

/// The two coordinate maps are mutually inverse bijections between the path
/// positions `1..=24` and the physical cells `0..24`, for either player.
pub proof fn lemma_phys_round_trip(player: Player, pos: int, cell: int)
    ensures
        1 <= pos <= 24 ==> 0 <= phys_spec(player, pos) < 24
            && pos_of_phys_spec(player, phys_spec(player, pos)) == pos,
        0 <= cell < 24 ==> 1 <= pos_of_phys_spec(player, cell) <= 24
            && phys_spec(player, pos_of_phys_spec(player, cell)) == cell,
{
}

/// Number of `p`'s checkers encoded by the signed cell value `v`
/// (positive = White, negative = Black).
pub open spec fn cell_count(v: i8, p: Player) -> int {
    match p {
        Player::White => if v > 0 { v as int } else { 0 },
        Player::Black => if v < 0 { -(v as int) } else { 0 },
    }
}

/// The board: occupancy of every physical cell plus borne-off counts.
///
/// A cell holds checkers of at most one colour: positive = White count,
/// negative = Black count, zero = empty.
#[derive(Clone, Copy, PartialEq, Eq, Hash, Debug)]
pub struct Board {
    /// Sign-encoded occupancy per physical cell.
    pub points: [i8; N_POINTS],
    /// Borne-off checkers indexed by [`Player::index`].
    pub off: [u8; 2],
}

/// Mathematical model of a board: the 24 signed cells and the two borne-off
/// counters.
#[verifier::ext_equal]
pub struct BoardView {
    pub points: Seq<i8>,
    pub off: Seq<u8>,
}

impl View for Board {
    type V = BoardView;

    open spec fn view(&self) -> BoardView {
        BoardView { points: self.points@, off: self.off@ }
    }
}

impl BoardView {
    /// `p`'s checkers at `p`'s path position `pos`.
    pub open spec fn own(self, p: Player, pos: int) -> int {
        cell_count(self.points[phys_spec(p, pos)], p)
    }

    /// The opponent's checkers on the cell of `p`'s path position `pos`.
    pub open spec fn opp(self, p: Player, pos: int) -> int {
        cell_count(self.points[phys_spec(p, pos)], p.spec_opponent())
    }

    /// Borne-off checkers of `p`.
    pub open spec fn off_of(self, p: Player) -> int {
        self.off[p.spec_index() as int] as int
    }

    /// `p`'s checkers on path positions `1..=n`.
    pub open spec fn count_upto(self, p: Player, n: int) -> int
        decreases n,
    {
        if n <= 0 {
            0
        } else {
            self.count_upto(p, n - 1) + self.own(p, n)
        }
    }

    /// `p`'s pips on path positions `1..=n` (a checker on `pos` is worth `pos`).
    pub open spec fn pip_upto(self, p: Player, n: int) -> int
        decreases n,
    {
        if n <= 0 {
            0
        } else {
            self.pip_upto(p, n - 1) + n * self.own(p, n)
        }
    }

    /// All of `p`'s checkers still on the board.
    pub open spec fn total(self, p: Player) -> int {
        self.count_upto(p, 24)
    }

    /// `p`'s pip count.
    pub open spec fn pip_spec(self, p: Player) -> int {
        self.pip_upto(p, 24)
    }

    /// Reading `p`'s counts never meets the cell value -128, whose negation
    /// does not fit a signed byte.
    pub open spec fn readable_for(self, p: Player) -> bool {
        p == Player::Black ==> forall|c: int| 0 <= c < 24 ==> self.points[c] != i8::MIN
    }

    /// The shape of a board: 24 cells, two counters.
    pub open spec fn shaped(self) -> bool {
        self.points.len() == 24 && self.off.len() == 2
    }

    /// Each side has at most 127 checkers, on the board plus borne off. Move
    /// generation requires it: checkers gather on signed-byte cells and are
    /// counted off in a byte, and with at most 127 per side no move can push a
    /// cell past 127 or a count past 255 whatever is played. Every position of
    /// the game (15 per side) meets it; [`Board::is_wf`] tests it.
    pub open spec fn wf(self) -> bool {
        &&& self.shaped()
        &&& self.total(Player::White) + self.off_of(Player::White) <= 127
        &&& self.total(Player::Black) + self.off_of(Player::Black) <= 127
    }

    /// No checker of `p` stands outside the home board `1..=6`.
    pub open spec fn all_home_spec(self, p: Player) -> bool {
        forall|pos: int| 7 <= pos <= 24 ==> self.own(p, pos) == 0
    }

    /// Highest path position occupied by `p`, looking at `1..=n` (0 if none).
    pub open spec fn highest_upto(self, p: Player, n: int) -> int
        decreases n,
    {
        if n <= 0 {
            0
        } else if self.own(p, n) > 0 {
            n
        } else {
            self.highest_upto(p, n - 1)
        }
    }

    /// Highest path position occupied by `p` (0 if none on the board).
    pub open spec fn highest_spec(self, p: Player) -> int {
        self.highest_upto(p, 24)
    }

    /// No checkers anywhere, none borne off.
    pub open spec fn empty_spec() -> BoardView {
        BoardView { points: Seq::new(24, |c: int| 0i8), off: seq![0u8, 0u8] }
    }

    /// The standard start: each side's 15 checkers on its head (White on
    /// cell 0, Black on cell 12).
    pub open spec fn starting_spec() -> BoardView {
        BoardView {
            points: Seq::new(24, |c: int| if c == 0 { 15i8 } else if c == 12 { -15i8 } else { 0i8 }),
            off: seq![0u8, 0u8],
        }
    }

    /// The хачапури start: 4 on each head, 11 on each side's point 6
    /// (White's is cell 18, Black's cell 6).
    pub open spec fn hachapuri_spec() -> BoardView {
        BoardView {
            points: Seq::new(24, |c: int| if c == 0 { 4i8 } else if c == 18 { 11i8 } else if c == 12 { -4i8 }
                else if c == 6 { -11i8 } else { 0i8 }),
            off: seq![0u8, 0u8],
        }
    }
}

impl BoardView {
    // ---- lemmas about the counting functions ----

    /// The standard start is a well-formed position with all fifteen
    /// checkers of each side on the board.
    pub proof fn lemma_starting_wf()
        ensures
            BoardView::starting_spec().wf(),
            BoardView::starting_spec().total(Player::White) == 15,
            BoardView::starting_spec().total(Player::Black) == 15,
    {
        let b = BoardView::starting_spec();
        assert(b.count_upto(Player::White, 23) == 0) by {
            b.lemma_zero_upto(Player::White, 23);
        }
        assert(b.count_upto(Player::Black, 23) == 0) by {
            b.lemma_zero_upto(Player::Black, 23);
        }
    }

    /// A board is fixed by both sides' counts on every path position and by
    /// the borne-off counters.
    pub proof fn lemma_board_by_counts(x: BoardView, y: BoardView)
        requires
            x.shaped(),
            y.shaped(),
            forall|q: int| 1 <= q <= 24 ==> #[trigger] x.own(Player::White, q) == y.own(Player::White, q),
            forall|q: int| 1 <= q <= 24 ==> #[trigger] x.own(Player::Black, q) == y.own(Player::Black, q),
            x.off_of(Player::White) == y.off_of(Player::White),
            x.off_of(Player::Black) == y.off_of(Player::Black),
        ensures
            x == y,
    {
        assert forall|c: int| 0 <= c < 24 implies #[trigger] x.points[c] == y.points[c] by {
            lemma_phys_round_trip(Player::White, 1, c);
            lemma_phys_round_trip(Player::Black, 1, c);
            let qw = pos_of_phys_spec(Player::White, c);
            let qb = pos_of_phys_spec(Player::Black, c);
            assert(x.own(Player::White, qw) == y.own(Player::White, qw));
            assert(x.own(Player::Black, qb) == y.own(Player::Black, qb));
        }
        assert(x.points =~= y.points);
        assert(x.off =~= y.off);
    }

    /// No checker of `p` on `1..=n` of a board that holds none there.
    pub proof fn lemma_zero_upto(self, p: Player, n: int)
        requires
            forall|q: int| 1 <= q <= n ==> #[trigger] self.own(p, q) == 0,
        ensures
            self.count_upto(p, n) == 0,
        decreases n,
    {
        if n > 0 {
            self.lemma_zero_upto(p, n - 1);
        }
    }

    /// A count is never negative.
    pub proof fn lemma_count_nonneg(self, p: Player, n: int)
        ensures
            self.count_upto(p, n) >= 0,
        decreases n,
    {
        if n > 0 {
            self.lemma_count_nonneg(p, n - 1);
        }
    }

    /// Counting over more positions never gives less.
    pub proof fn lemma_count_mono(self, p: Player, m: int, n: int)
        requires
            m <= n,
        ensures
            self.count_upto(p, m) + (if 1 <= m { self.own(p, m) } else { 0 }) <= self.count_upto(p, n) + (if 1 <= m { self.own(p, m) } else { 0 }),
            1 <= m <= n ==> self.count_upto(p, m - 1) + self.own(p, m) <= self.count_upto(p, n),
        decreases n - m,
    {
        if m < n {
            self.lemma_count_mono(p, m, n - 1);
        }
        if 1 <= m && m < n {
            self.lemma_count_mono(p, m, n - 1);
        }
    }

    /// A readable cell holds at most 127 of `p`'s checkers.
    pub proof fn lemma_own_le_127(self, p: Player, pos: int)
        requires
            self.readable_for(p),
            1 <= pos <= 24,
        ensures
            0 <= self.own(p, pos) <= 127,
    {
        lemma_phys_round_trip(p, pos, 0);
    }

    /// At most 127 of `p`'s checkers stand on each of positions `1..=n`.
    pub proof fn lemma_count_le(self, p: Player, n: int)
        requires
            self.readable_for(p),
            0 <= n <= 24,
        ensures
            0 <= self.count_upto(p, n) <= 127 * n,
        decreases n,
    {
        if n > 0 {
            self.lemma_count_le(p, n - 1);
            self.lemma_own_le_127(p, n);
        }
    }
}

/// The signed step of one of `p`'s checkers: +1 for White, -1 for Black.
pub open spec fn delta_of(p: Player) -> int {
    if p == Player::White { 1 } else { -1 }
}

impl BoardView {
    /// The board after one of `p`'s checkers moves from path position `from`
    /// to path position `to` (taken off the source cell, then put on the target).
    pub open spec fn moved(self, p: Player, from: int, to: int) -> BoardView {
        let cf = phys_spec(p, from);
        let ct = phys_spec(p, to);
        let pts = self.points.update(cf, (self.points[cf] - delta_of(p)) as i8);
        BoardView { points: pts.update(ct, (pts[ct] + delta_of(p)) as i8), off: self.off }
    }

    /// The board after one of `p`'s checkers on `from` is borne off.
    pub open spec fn borne(self, p: Player, from: int) -> BoardView {
        let cf = phys_spec(p, from);
        let i = p.spec_index() as int;
        BoardView {
            points: self.points.update(cf, (self.points[cf] - delta_of(p)) as i8),
            off: self.off.update(i, (self.off[i] + 1) as u8),
        }
    }

    /// Counting over positions: if two boards agree on `p`'s counts at every
    /// position of `1..=n` except possibly `k`, their counts and pips differ
    /// exactly by the difference at `k`.
    pub proof fn lemma_upto_diff(self, other: BoardView, p: Player, n: int, k: int)
        requires
            1 <= k,
            forall|q: int| 1 <= q <= n && q != k ==> self.own(p, q) == other.own(p, q),
        ensures
            k <= n ==> other.count_upto(p, n) - self.count_upto(p, n) == other.own(p, k) - self.own(p, k),
            k <= n ==> other.pip_upto(p, n) - self.pip_upto(p, n) == k * (other.own(p, k) - self.own(p, k)),
            k > n ==> other.count_upto(p, n) == self.count_upto(p, n),
            k > n ==> other.pip_upto(p, n) == self.pip_upto(p, n),
        decreases n,
    {
        if n > 0 {
            self.lemma_upto_diff(other, p, n - 1, k);
            if k == n {
                assert(n * other.own(p, k) - n * self.own(p, k) == n * (other.own(p, k) - self.own(p, k))) by (nonlinear_arith);
            }
        }
    }

    /// Two different positions never hold more than all of `p`'s checkers.
    pub proof fn lemma_two_le_total(self, p: Player, a: int, b: int, n: int)
        requires
            1 <= a <= 24,
            1 <= b <= 24,
            a != b,
        ensures
            (if a <= n { self.own(p, a) } else { 0 }) + (if b <= n { self.own(p, b) } else { 0 }) <= self.count_upto(p, n),
        decreases n,
    {
        if n > 0 {
            self.lemma_two_le_total(p, a, b, n - 1);
            self.lemma_count_nonneg(p, n - 1);
        }
    }

    /// On a well-formed board every cell holds at most 127 checkers and every
    /// count is readable.
    pub proof fn lemma_wf_cells(self)
        requires
            self.wf(),
        ensures
            forall|c: int| 0 <= c < 24 ==> -127 <= #[trigger] self.points[c] <= 127,
            self.readable_for(Player::White),
            self.readable_for(Player::Black),
            forall|p: Player, pos: int| 1 <= pos <= 24 ==> 0 <= #[trigger] self.own(p, pos) <= self.total(p),
    {
        assert forall|p: Player, pos: int| 1 <= pos <= 24 implies 0 <= #[trigger] self.own(p, pos) <= self.total(p) by {
            self.lemma_count_mono(p, pos, 24);
            self.lemma_count_nonneg(p, pos - 1);
        }
        assert forall|c: int| 0 <= c < 24 implies -127 <= #[trigger] self.points[c] <= 127 by {
            lemma_phys_round_trip(Player::White, 1, c);
            lemma_phys_round_trip(Player::Black, 1, c);
            let pw = pos_of_phys_spec(Player::White, c);
            let pb = pos_of_phys_spec(Player::Black, c);
            assert(0 <= self.own(Player::White, pw) <= self.total(Player::White));
            assert(0 <= self.own(Player::Black, pb) <= self.total(Player::Black));
            self.lemma_count_nonneg(Player::White, 24);
            self.lemma_count_nonneg(Player::Black, 24);
        }
    }

    /// The highest occupied position lies in `0..=n`.
    pub proof fn lemma_highest_range(self, p: Player, n: int)
        requires
            n >= 0,
        ensures
            0 <= self.highest_upto(p, n) <= n,
        decreases n,
    {
        if n > 0 {
            self.lemma_highest_range(p, n - 1);
        }
    }

    /// Moving one checker keeps every side's checker total, leaves the
    /// opponent's position untouched, and lowers the mover's pips by the
    /// distance travelled.
    pub proof fn lemma_moved(self, p: Player, from: int, to: int)
        requires
            self.wf(),
            1 <= to < from <= 24,
            self.own(p, from) > 0,
            self.opp(p, to) == 0,
        ensures
            self.moved(p, from, to).shaped(),
            self.moved(p, from, to).total(p) == self.total(p),
            self.moved(p, from, to).pip_spec(p) == self.pip_spec(p) - (from - to),
            self.moved(p, from, to).own(p, from) == self.own(p, from) - 1,
            self.moved(p, from, to).own(p, to) == self.own(p, to) + 1,
            forall|q: int| 1 <= q <= 24 && q != from && q != to ==> #[trigger] self.moved(p, from, to).own(p, q) == self.own(p, q),
            forall|q: int| 1 <= q <= 24 ==> #[trigger] self.moved(p, from, to).own(p.spec_opponent(), q) == self.own(p.spec_opponent(), q),
            self.moved(p, from, to).off == self.off,
            self.moved(p, from, to).wf(),
    {
        self.lemma_wf_cells();
        let o = p.spec_opponent();
        let cf = phys_spec(p, from);
        let ct = phys_spec(p, to);
        let mid = BoardView { points: self.points.update(cf, (self.points[cf] - delta_of(p)) as i8), off: self.off };
        let nb = self.moved(p, from, to);
        self.lemma_two_le_total(p, from, to, 24);
        assert forall|q: int| 1 <= q <= 24 && q != from implies self.own(p, q) == mid.own(p, q) by {
            lemma_phys_round_trip(p, q, 0);
        }
        assert forall|q: int| 1 <= q <= 24 && q != to implies mid.own(p, q) == nb.own(p, q) by {
            lemma_phys_round_trip(p, q, 0);
        }
        self.lemma_upto_diff(mid, p, 24, from);
        mid.lemma_upto_diff(nb, p, 24, to);
        assert(from * (mid.own(p, from) - self.own(p, from)) == -from) by (nonlinear_arith)
            requires mid.own(p, from) - self.own(p, from) == -1;
        assert(to * (nb.own(p, to) - mid.own(p, to)) == to) by (nonlinear_arith)
            requires nb.own(p, to) - mid.own(p, to) == 1;
        assert forall|q: int| 1 <= q <= 24 implies #[trigger] nb.own(o, q) == self.own(o, q) by {
            lemma_phys_round_trip(o, q, 0);
        }
        assert forall|q: int| 1 <= q <= 24 && q != 25 implies self.own(o, q) == nb.own(o, q) by {}
        self.lemma_upto_diff(nb, o, 24, 25);
    }

    /// Bearing a checker off keeps the mover's total on board plus borne off,
    /// leaves the opponent untouched and lowers the mover's pips by `from`.
    pub proof fn lemma_borne(self, p: Player, from: int)
        requires
            self.wf(),
            1 <= from <= 24,
            self.own(p, from) > 0,
        ensures
            self.borne(p, from).shaped(),
            self.borne(p, from).total(p) == self.total(p) - 1,
            self.borne(p, from).off_of(p) == self.off_of(p) + 1,
            self.borne(p, from).off_of(p.spec_opponent()) == self.off_of(p.spec_opponent()),
            self.borne(p, from).pip_spec(p) == self.pip_spec(p) - from,
            self.borne(p, from).own(p, from) == self.own(p, from) - 1,
            forall|q: int| 1 <= q <= 24 && q != from ==> #[trigger] self.borne(p, from).own(p, q) == self.own(p, q),
            forall|q: int| 1 <= q <= 24 ==> #[trigger] self.borne(p, from).own(p.spec_opponent(), q) == self.own(p.spec_opponent(), q),
            self.borne(p, from).wf(),
    {
        self.lemma_wf_cells();
        let o = p.spec_opponent();
        let nb = self.borne(p, from);
        assert forall|q: int| 1 <= q <= 24 && q != from implies self.own(p, q) == nb.own(p, q) by {
            lemma_phys_round_trip(p, q, 0);
        }
        self.lemma_upto_diff(nb, p, 24, from);
        assert(from * (nb.own(p, from) - self.own(p, from)) == -from) by (nonlinear_arith)
            requires nb.own(p, from) - self.own(p, from) == -1;
        assert forall|q: int| 1 <= q <= 24 implies #[trigger] nb.own(o, q) == self.own(o, q) by {
            lemma_phys_round_trip(o, q, 0);
        }
        assert forall|q: int| 1 <= q <= 24 && q != 25 implies self.own(o, q) == nb.own(o, q) by {}
        self.lemma_upto_diff(nb, o, 24, 25);
        self.lemma_count_nonneg(p, 24);
    }
}

impl Board {
    #[inline]
    fn delta(player: Player) -> (d: i8)
        ensures
            d == (if player == Player::White { 1i8 } else { -1i8 }),
    {
        match player {
            Player::White => 1,
            Player::Black => -1,
        }
    }

    /// The standard starting position: all 15 checkers of each side on their head.
    pub fn starting() -> (b: Board)
        ensures
            b@ == BoardView::starting_spec(),
    {
        let mut b = Board::empty();
        b.points[phys(Player::White, HEAD_POS)] = N_CHECKERS as i8;
        b.points[phys(Player::Black, HEAD_POS)] = -(N_CHECKERS as i8);
        assert(b@ =~= BoardView::starting_spec());
        b
    }

    /// An empty board (no checkers placed, none borne off).
    pub fn empty() -> (b: Board)
        ensures
            b@ == BoardView::empty_spec(),
    {
        let b = Board { points: [0; N_POINTS], off: [0, 0] };
        assert(b@ =~= BoardView::empty_spec());
        b
    }

    /// The хачапури preset: 4 checkers on the head and 11 on home point 6 for
    /// each side (played with the head rule disabled).
    pub fn starting_hachapuri() -> (b: Board)
        ensures
            b@ == BoardView::hachapuri_spec(),
            forall|p: Player, pos: int| 1 <= pos <= 24 ==> #[trigger] b@.own(p, pos) == (
                if pos == 24 { 4int } else if pos == 6 { 11int } else { 0int }),
    {
        let mut b = Board::empty();
        b.place(Player::White, HEAD_POS, 4);
        b.place(Player::White, 6, 11);
        b.place(Player::Black, HEAD_POS, 4);
        b.place(Player::Black, 6, 11);
        assert(b@ =~= BoardView::hachapuri_spec());
        assert forall|p: Player, pos: int| 1 <= pos <= 24 implies #[trigger] b@.own(p, pos) == (
            if pos == 24 { 4int } else if pos == 6 { 11int } else { 0int }) by {
            lemma_phys_round_trip(p, pos, 0);
        }
        b
    }

    /// Whether each side has exactly 15 checkers (on board + borne off).
    /// White is counted first; Black's cells are read only when White's
    /// count is right.
    pub fn is_valid(&self) -> (r: bool)
        requires
            self@.total(Player::White) + self@.off_of(Player::White) == 15 ==> self@.readable_for(Player::Black),
        ensures
            r == (self@.total(Player::White) + self@.off_of(Player::White) == 15
                && self@.total(Player::Black) + self@.off_of(Player::Black) == 15),
    {
        if self.total_wide(Player::White) + self.off[Player::White.index()] as u16 != N_CHECKERS as u16 {
            return false;
        }
        self.total_wide(Player::Black) + self.off[Player::Black.index()] as u16 == N_CHECKERS as u16
    }

    /// Whether the board is well formed: each side has at most 127 checkers
    /// on the board and borne off together.
    pub fn is_wf(&self) -> (r: bool)
        ensures
            r == self@.wf(),
    {
        let mut c: usize = 0;
        while c < N_POINTS
            invariant
                c <= 24,
                forall|x: int| 0 <= x < c ==> self.points@[x] != i8::MIN,
            decreases 24 - c,
        {
            if self.points[c] == i8::MIN {
                proof {
                    lemma_phys_round_trip(Player::Black, 0, c as int);
                    let pos = pos_of_phys_spec(Player::Black, c as int);
                    assert(self@.own(Player::Black, pos) == 128);
                    self@.lemma_count_mono(Player::Black, pos, 24);
                    self@.lemma_count_nonneg(Player::Black, pos - 1);
                }
                return false;
            }
            c += 1;
        }
        self.total_wide(Player::White) + (self.off[0] as u16) <= 127
            && self.total_wide(Player::Black) + (self.off[1] as u16) <= 127
    }

    /// All of `player`'s checkers on the board, counted without a byte limit.
    fn total_wide(&self, player: Player) -> (r: u16)
        requires
            self@.readable_for(player),
        ensures
            r as int == self@.total(player),
            r <= 3048,
    {
        let mut n: u16 = 0;
        let mut pos: u8 = 1;
        while pos <= HEAD_POS
            invariant
                1 <= pos <= 25,
                self@.readable_for(player),
                n as int == self@.count_upto(player, pos - 1),
                n <= 127 * (pos - 1),
            decreases 25 - pos,
        {
            proof {
                self@.lemma_own_le_127(player, pos as int);
            }
            n += self.own_at(player, pos) as u16;
            pos += 1;
        }
        proof { self@.lemma_count_le(player, 24); }
        n
    }

    /// Owner of a physical cell, if any.
    #[inline]
    pub fn owner(&self, cell: usize) -> (r: Option<Player>)
        requires
            cell < N_POINTS,
        ensures
            r == owner_spec(self.points@[cell as int]),
    {
        let v = self.points[cell];
        if v > 0 {
            Some(Player::White)
        } else if v < 0 {
            Some(Player::Black)
        } else {
            None
        }
    }

    /// Total checkers on a physical cell (regardless of owner).
    #[inline]
    pub fn count(&self, cell: usize) -> (r: u8)
        requires
            cell < N_POINTS,
        ensures
            r as int == (if self.points@[cell as int] < 0 { -(self.points@[cell as int] as int) } else {
                self.points@[cell as int] as int }),
    {
        let v = self.points[cell];
        if v < 0 {
            (-(v as i16)) as u8
        } else {
            v as u8
        }
    }

    /// Number of `player`'s checkers at `player`'s path position `pos`.
    #[inline]
    pub fn own_at(&self, player: Player, pos: u8) -> (r: u8)
        requires
            1 <= pos <= HEAD_POS,
            player == Player::Black ==> self.points@[phys_spec(player, pos as int)] != i8::MIN,
        ensures
            r as int == self@.own(player, pos as int),
    {
        let v = self.points[phys(player, pos)];
        match player {
            Player::White => if v > 0 { v as u8 } else { 0 },
            Player::Black => if v < 0 { (-v) as u8 } else { 0 },
        }
    }

    /// Number of the *opponent's* checkers on the cell of `player`'s path
    /// position `pos`; any non-zero value blocks the point for `player`.
    #[inline]
    pub fn opp_at(&self, player: Player, pos: u8) -> (r: u8)
        requires
            1 <= pos <= HEAD_POS,
            player == Player::White ==> self.points@[phys_spec(player, pos as int)] != i8::MIN,
        ensures
            r as int == cell_count(self.points@[phys_spec(player, pos as int)], player.spec_opponent()),
    {
        let v = self.points[phys(player, pos)];
        match player {
            Player::White => if v < 0 { (-v) as u8 } else { 0 },
            Player::Black => if v > 0 { v as u8 } else { 0 },
        }
    }

    /// Whether `player` may land on path position `pos` (empty or own).
    #[inline]
    pub fn is_open_for(&self, player: Player, pos: u8) -> (r: bool)
        requires
            1 <= pos <= HEAD_POS,
            player == Player::White ==> self.points@[phys_spec(player, pos as int)] != i8::MIN,
        ensures
            r == (cell_count(self.points@[phys_spec(player, pos as int)], player.spec_opponent()) == 0),
    {
        self.opp_at(player, pos) == 0
    }

    /// Whether all of `player`'s on-board checkers are home (positions `1..=6`)
    /// — the precondition for bearing off.
    pub fn all_home(&self, player: Player) -> (r: bool)
        requires
            self@.readable_for(player),
        ensures
            r == self@.all_home_spec(player),
    {
        let mut pos: u8 = HOME_HIGH + 1;
        while pos <= HEAD_POS
            invariant
                7 <= pos <= 25,
                self@.readable_for(player),
                forall|q: int| 7 <= q < pos ==> self@.own(player, q) == 0,
            decreases 25 - pos,
        {
            proof { lemma_phys_round_trip(player, pos as int, 0); }
            if self.own_at(player, pos) > 0 {
                return false;
            }
            pos += 1;
        }
        true
    }

    /// Highest occupied path position for `player` (0 if none on board).
    pub fn highest_occupied(&self, player: Player) -> (r: u8)
        requires
            self@.readable_for(player),
        ensures
            r as int == self@.highest_spec(player),
    {
        let mut pos: u8 = HEAD_POS;
        while pos >= 1
            invariant
                0 <= pos <= 24,
                self@.readable_for(player),
                self@.highest_spec(player) == self@.highest_upto(player, pos as int),
            decreases pos,
        {
            if self.own_at(player, pos) > 0 {
                return pos;
            }
            pos -= 1;
        }
        0
    }

    /// Pip count for `player` (sum of `pos * checkers`). Borne-off checkers
    /// contribute 0; 0 means everything is off.
    pub fn pip(&self, player: Player) -> (r: u16)
        requires
            self@.readable_for(player),
        ensures
            r as int == self@.pip_spec(player),
    {
        let mut sum: u16 = 0;
        let mut pos: u8 = 1;
        while pos <= HEAD_POS
            invariant
                1 <= pos <= 25,
                self@.readable_for(player),
                sum as int == self@.pip_upto(player, pos - 1),
                self@.pip_upto(player, pos - 1) <= 127 * tri(pos - 1),
            decreases 25 - pos,
        {
            let c = self.own_at(player, pos);
            proof {
                self@.lemma_own_le_127(player, pos as int);
                assert(pos * c <= pos * 127) by (nonlinear_arith)
                    requires c <= 127;
                lemma_tri_le(pos as int);
            }
            sum += pos as u16 * c as u16;
            pos += 1;
        }
        sum
    }

    /// Total checkers still on the board for `player` (excludes borne off).
    pub fn checkers_on_board(&self, player: Player) -> (r: u8)
        requires
            self@.readable_for(player),
            self@.total(player) <= 255,
        ensures
            r as int == self@.total(player),
    {
        let mut n: u8 = 0;
        let mut pos: u8 = 1;
        while pos <= HEAD_POS
            invariant
                1 <= pos <= 25,
                self@.readable_for(player),
                self@.total(player) <= 255,
                n as int == self@.count_upto(player, pos - 1),
            decreases 25 - pos,
        {
            proof {
                self@.lemma_count_mono(player, pos as int, 24);
                self@.lemma_count_nonneg(player, pos as int - 1);
            }
            n += self.own_at(player, pos);
            pos += 1;
        }
        n
    }

    /// Place exactly `count` of `player`'s checkers on path position `pos`,
    /// overwriting whatever was there.
    pub fn place(&mut self, player: Player, pos: u8, count: u8)
        requires
            1 <= pos <= HEAD_POS,
            player == Player::Black ==> count != 128,
        ensures
            final(self).points@ == old(self).points@.update(phys_spec(player, pos as int),
                signed_count(player, count)),
            final(self).off == old(self).off,
    {
        let cell = phys(player, pos);
        assert(count != 128 ==> (count as i8) != -128i8) by (bit_vector);
        let signed = count as i8;
        self.points[cell] = match player {
            Player::White => signed,
            Player::Black => -signed,
        };
    }

    /// Like [`place`](Self::place) but addressing a physical cell directly.
    pub fn place_phys(&mut self, owner: Player, cell: usize, count: u8)
        requires
            cell < N_POINTS,
            owner == Player::Black ==> count != 128,
        ensures
            final(self).points@ == old(self).points@.update(cell as int, signed_count(owner, count)),
            final(self).off == old(self).off,
    {
        assert(count != 128 ==> (count as i8) != -128i8) by (bit_vector);
        let signed = count as i8;
        self.points[cell] = match owner {
            Player::White => signed,
            Player::Black => -signed,
        };
    }

    /// Add one of `player`'s checkers to path position `pos`.
    #[inline]
    pub(crate) fn add(&mut self, player: Player, pos: u8)
        requires
            1 <= pos <= HEAD_POS,
            player == Player::White ==> old(self).points@[phys_spec(player, pos as int)] < 127,
            player == Player::Black ==> old(self).points@[phys_spec(player, pos as int)] > -128,
        ensures
            final(self).points@ == old(self).points@.update(phys_spec(player, pos as int),
                (old(self).points@[phys_spec(player, pos as int)] + (if player == Player::White { 1int } else { -1int })) as i8),
            final(self).off == old(self).off,
    {
        let c = phys(player, pos);
        self.points[c] = self.points[c] + Self::delta(player);
    }

    /// Remove one of `player`'s checkers from path position `pos`.
    #[inline]
    pub(crate) fn remove(&mut self, player: Player, pos: u8)
        requires
            1 <= pos <= HEAD_POS,
            player == Player::White ==> old(self).points@[phys_spec(player, pos as int)] > -128,
            player == Player::Black ==> old(self).points@[phys_spec(player, pos as int)] < 127,
        ensures
            final(self).points@ == old(self).points@.update(phys_spec(player, pos as int),
                (old(self).points@[phys_spec(player, pos as int)] - (if player == Player::White { 1int } else { -1int })) as i8),
            final(self).off == old(self).off,
    {
        let c = phys(player, pos);
        self.points[c] = self.points[c] - Self::delta(player);
    }

}

/// Owner of a signed cell value, if any.
pub open spec fn owner_spec(v: i8) -> Option<Player> {
    if v > 0 {
        Some(Player::White)
    } else if v < 0 {
        Some(Player::Black)
    } else {
        None
    }
}

/// The signed cell value holding `count` of `p`'s checkers.
pub open spec fn signed_count(p: Player, count: u8) -> i8 {
    match p {
        Player::White => count as i8,
        Player::Black => (-(count as i8)) as i8,
    }
}

/// `1 + 2 + ... + n`.
pub open spec fn tri(n: int) -> int
    decreases n,
{
    if n <= 0 {
        0
    } else {
        tri(n - 1) + n
    }
}

proof fn lemma_tri_mono(n: int, m: int)
    requires
        0 <= n <= m,
    ensures
        0 <= tri(n) <= tri(m),
    decreases m,
{
    if n < m {
        lemma_tri_mono(n, m - 1);
    } else if m > 0 {
        lemma_tri_mono(m - 1, m - 1);
    }
}

proof fn lemma_tri_le(n: int)
    requires
        0 <= n <= 24,
    ensures
        0 <= tri(n) <= 300,
{
    lemma_tri_mono(n, 24);
    reveal_with_fuel(tri, 25);
    assert(tri(24) == 300);
}

} // verus!
