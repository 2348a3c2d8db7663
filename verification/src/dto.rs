//! Plain data crossing the boundary to a browser UI, in per-player path
//! coordinates (1..=24, head = 24, home 1..=6, bear-off destination 0),
//! and the conversions from engine values. The UI never sees the internal
//! physical cells.
use vstd::prelude::*;
use crate::analysis::CubeAction;
use crate::board::{Board, BoardView, phys_spec, lemma_phys_round_trip, signed_count};
use crate::cube::Cube;
use crate::game::{outcome, outcome_spec, GameState, Outcome, Rules, Variant};
use crate::moves::{CheckerMove, Turn};
use crate::player::Player;
use crate::text::{chars_of, eq_lit};

verus! {

/// A player's name in the UI.
pub open spec fn player_name(p: Player) -> Seq<char> {
    match p {
        Player::White => "white"@,
        Player::Black => "black"@,
    }
}

pub fn player_str(p: Player) -> (s: String)
    ensures
        s@ == player_name(p),
{
    match p {
        Player::White => "white".to_owned(),
        Player::Black => "black".to_owned(),
    }
}

/// `unknown <what>: <s>`.
fn unknown(what: &str, s: &str) -> (e: String)
    ensures
        e@ == "unknown "@ + what@ + ": "@ + s@,
{
    let mut e = "unknown ".to_owned();
    e.append(what);
    e.append(": ");
    e.append(s);
    e
}

/// A player from its UI name.
pub fn parse_player(s: &str) -> (r: Result<Player, String>)
    ensures
        s@ == "white"@ ==> r == Ok::<Player, String>(Player::White),
        s@ == "black"@ ==> r == Ok::<Player, String>(Player::Black),
        s@ != "white"@ && s@ != "black"@ ==> (r matches Err(e) && e@ == "unknown player: "@ + s@),
{
    proof {
        reveal_strlit("white");
        reveal_strlit("black");
        assert("white"@ != "black"@) by { assert("white"@[0] != "black"@[0]); }
    }
    let v = chars_of(s);
    if eq_lit(&v, "white") {
        Ok(Player::White)
    } else if eq_lit(&v, "black") {
        Ok(Player::Black)
    } else {
        let e = unknown("player", s);
        proof {
            assert("unknown "@ + "player"@ + ": "@ == "unknown player: "@) by {
                reveal_strlit("unknown ");
                reveal_strlit("player");
                reveal_strlit(": ");
                reveal_strlit("unknown player: ");
                assert("unknown "@ + "player"@ + ": "@ =~= "unknown player: "@);
            }
        }
        Err(e)
    }
}

/// A variant's name in the UI.
pub open spec fn variant_name(v: Variant) -> Seq<char> {
    match v {
        Variant::Traditional => "traditional"@,
        Variant::Nardegammon => "nardegammon"@,
        Variant::Classic => "classic"@,
        Variant::Hachapuri => "hachapuri"@,
    }
}

pub fn variant_str(v: Variant) -> (s: String)
    ensures
        s@ == variant_name(v),
{
    match v {
        Variant::Traditional => "traditional".to_owned(),
        Variant::Nardegammon => "nardegammon".to_owned(),
        Variant::Classic => "classic".to_owned(),
        Variant::Hachapuri => "hachapuri".to_owned(),
    }
}

/// A variant from its UI name.
pub fn parse_variant(s: &str) -> (r: Result<Variant, String>)
    ensures
        s@ == "traditional"@ ==> r == Ok::<Variant, String>(Variant::Traditional),
        s@ == "nardegammon"@ ==> r == Ok::<Variant, String>(Variant::Nardegammon),
        s@ == "classic"@ ==> r == Ok::<Variant, String>(Variant::Classic),
        s@ == "hachapuri"@ ==> r == Ok::<Variant, String>(Variant::Hachapuri),
        s@ != "traditional"@ && s@ != "nardegammon"@ && s@ != "classic"@ && s@ != "hachapuri"@
            ==> (r matches Err(e) && e@ == "unknown variant: "@ + s@),
{
    proof {
        reveal_strlit("traditional");
        reveal_strlit("nardegammon");
        reveal_strlit("classic");
        reveal_strlit("hachapuri");
        assert("traditional"@[0] == 't' && "nardegammon"@[0] == 'n' && "classic"@[0] == 'c'
            && "hachapuri"@[0] == 'h');
    }
    let v = chars_of(s);
    if eq_lit(&v, "traditional") {
        Ok(Variant::Traditional)
    } else if eq_lit(&v, "nardegammon") {
        Ok(Variant::Nardegammon)
    } else if eq_lit(&v, "classic") {
        Ok(Variant::Classic)
    } else if eq_lit(&v, "hachapuri") {
        Ok(Variant::Hachapuri)
    } else {
        let e = unknown("variant", s);
        proof {
            assert("unknown "@ + "variant"@ + ": "@ == "unknown variant: "@) by {
                reveal_strlit("unknown ");
                reveal_strlit("variant");
                reveal_strlit(": ");
                reveal_strlit("unknown variant: ");
                assert("unknown "@ + "variant"@ + ": "@ =~= "unknown variant: "@);
            }
        }
        Err(e)
    }
}

/// A cube action's name in the UI.
pub open spec fn cube_action_name(a: CubeAction) -> Seq<char> {
    match a {
        CubeAction::NoDouble => "no_double"@,
        CubeAction::DoubleTake => "double_take"@,
        CubeAction::DoublePass => "double_pass"@,
        CubeAction::TooGood => "too_good"@,
    }
}

pub fn cube_action_str(a: CubeAction) -> (s: String)
    ensures
        s@ == cube_action_name(a),
{
    match a {
        CubeAction::NoDouble => "no_double".to_owned(),
        CubeAction::DoubleTake => "double_take".to_owned(),
        CubeAction::DoublePass => "double_pass".to_owned(),
        CubeAction::TooGood => "too_good".to_owned(),
    }
}

// ---------------------------------------------------------------------------
// Transfer structs
// ---------------------------------------------------------------------------

/// Checkers of one player on one path position.
pub struct PointDto {
    pub pos: u8,
    pub player: String,
    pub count: u8,
}

/// The doubling cube.
pub struct CubeDto {
    pub value: u16,
    pub owner: Option<String>,
    pub turned: bool,
}

/// The outcome read off a board: `kind` is `ongoing` or `win`.
pub struct OutcomeDto {
    pub kind: String,
    pub winner: Option<String>,
    pub mars: Option<bool>,
    pub points: Option<u8>,
}

/// Everything the UI shows of a game.
pub struct PositionDto {
    pub variant: String,
    pub turn: String,
    pub dice: Option<[u8; 2]>,
    pub white: Vec<PointDto>,
    pub black: Vec<PointDto>,
    pub off: [u8; 2],
    pub pip: [u16; 2],
    pub first_turn_done: [bool; 2],
    pub turn_number: u32,
    pub cube: CubeDto,
    pub crawford: bool,
    pub outcome: OutcomeDto,
}

/// A sub-move.
pub struct CheckerMoveDto {
    pub from: u8,
    pub die: u8,
    pub to: u8,
    pub bear_off: bool,
}

/// A legal turn with its id (its index in the legal-turn list).
pub struct TurnDto {
    pub id: u32,
    pub is_pass: bool,
    pub moves: Vec<CheckerMoveDto>,
}

/// One legal ordered sequence and the id of the turn it amounts to.
pub struct SequenceDto {
    pub moves: Vec<CheckerMoveDto>,
    pub turn_id: u32,
}

/// A position typed in by the user.
pub struct SetupDto {
    pub variant: String,
    pub turn: String,
    pub white: Vec<PointDto>,
    pub black: Vec<PointDto>,
    pub off: [u8; 2],
    pub dice: Option<[u8; 2]>,
    pub cube: Option<CubeDto>,
    pub crawford: Option<bool>,
    pub turn_number: Option<u32>,
}

// ---------------------------------------------------------------------------
// Positions typed in by the user
// ---------------------------------------------------------------------------

/// The player a UI name stands for, if it names one.
pub open spec fn player_named(s: Seq<char>) -> Option<Player> {
    if s == "white"@ {
        Some(Player::White)
    } else if s == "black"@ {
        Some(Player::Black)
    } else {
        None
    }
}

/// The variant a UI name stands for, if it names one.
pub open spec fn variant_named(s: Seq<char>) -> Option<Variant> {
    if s == "traditional"@ {
        Some(Variant::Traditional)
    } else if s == "nardegammon"@ {
        Some(Variant::Nardegammon)
    } else if s == "classic"@ {
        Some(Variant::Classic)
    } else if s == "hachapuri"@ {
        Some(Variant::Hachapuri)
    } else {
        None
    }
}

/// A die shows `1..=6`.
pub fn validate_die(d: u8) -> (r: Result<(), String>)
    ensures
        1 <= d <= 6 ==> r is Ok,
        !(1 <= d <= 6) ==> (r matches Err(e) && e@ == "die out of range 1..=6"@),
{
    if d < 1 || d > 6 {
        return Err("die out of range 1..=6".to_owned());
    }
    Ok(())
}

/// A point entry the editor accepts: a path position `1..=24` holding at
/// most 15 checkers.
pub open spec fn point_ok(pt: PointDto) -> bool {
    1 <= pt.pos <= 24 && pt.count <= 15
}

/// Why an entry is refused; its position is checked before its count.
pub open spec fn point_error(pt: PointDto) -> Seq<char> {
    if !(1 <= pt.pos <= 24) {
        "point position out of range 1..=24"@
    } else {
        "point count out of range 0..=15"@
    }
}

/// The error of the first refused entry, if any.
pub open spec fn points_error(pts: Seq<PointDto>) -> Option<Seq<char>>
    decreases pts.len(),
{
    if pts.len() == 0 {
        None
    } else if !point_ok(pts[0]) {
        Some(point_error(pts[0]))
    } else {
        points_error(pts.drop_first())
    }
}

/// The roll, if one is given, has a die outside `1..=6`.
pub open spec fn dice_refused(dice: Option<[u8; 2]>) -> bool {
    match dice {
        Some(d) => !(1 <= d[0] <= 6) || !(1 <= d[1] <= 6),
        None => false,
    }
}

/// The cells after putting `p`'s entries in order, each overwriting the cell
/// of its position.
pub open spec fn placed(cells: Seq<i8>, p: Player, pts: Seq<PointDto>) -> Seq<i8>
    decreases pts.len(),
{
    if pts.len() == 0 {
        cells
    } else {
        placed(cells, p, pts.drop_last()).update(
            phys_spec(p, pts.last().pos as int),
            signed_count(p, pts.last().count),
        )
    }
}

/// The board a setup describes: White's entries, then Black's, on an empty
/// board, with the given borne-off counts.
pub open spec fn setup_board(s: SetupDto) -> BoardView {
    BoardView {
        points: placed(placed(BoardView::empty_spec().points, Player::White, s.white@), Player::Black, s.black@),
        off: s.off@,
    }
}

/// Each side has exactly 15 checkers, on the board or borne off.
pub open spec fn fifteen_each(b: BoardView) -> bool {
    b.total(Player::White) + b.off_of(Player::White) == 15
        && b.total(Player::Black) + b.off_of(Player::Black) == 15
}

/// Why a setup is refused, if it is: the checks in the order they are made.
pub open spec fn setup_error(s: SetupDto) -> Option<Seq<char>> {
    if variant_named(s.variant@) is None {
        Some("unknown variant: "@ + s.variant@)
    } else if player_named(s.turn@) is None {
        Some("unknown player: "@ + s.turn@)
    } else if points_error(s.white@) is Some {
        points_error(s.white@)
    } else if points_error(s.black@) is Some {
        points_error(s.black@)
    } else if dice_refused(s.dice) {
        Some("die out of range 1..=6"@)
    } else if !fifteen_each(setup_board(s)) {
        Some("position must have exactly 15 checkers per side"@)
    } else {
        None
    }
}

/// The cube owner a UI name stands for; anything else leaves it centered.
pub open spec fn owner_named(o: Option<String>) -> Option<Player> {
    match o {
        Some(s) => player_named(s@),
        None => None,
    }
}

/// `g` is the game an accepted setup describes: its board, side to move,
/// roll, turn counter (0 unless given), cube (centered unless given),
/// Crawford flag (off unless given), the variant's rules, and no first
/// turns left.
pub open spec fn setup_game(s: SetupDto, g: GameState) -> bool {
    &&& g.board@ == setup_board(s)
    &&& Some(g.turn) == player_named(s.turn@)
    &&& g.dice == s.dice
    &&& g.first_turn_done@ == seq![true, true]
    &&& g.turn_number == (match s.turn_number {
        Some(n) => n,
        None => 0u32,
    })
    &&& Some(g.rules.variant) == variant_named(s.variant@)
    &&& g.rules == Rules::for_variant_spec(g.rules.variant)
    &&& g.crawford == (s.crawford == Some(true))
    &&& g.cube == (match s.cube {
        Some(c) => Cube { value: c.value, owner: owner_named(c.owner), turned: c.turned },
        None => Cube::centered_spec(),
    })
}

/// When no entry is refused, every entry is accepted.
proof fn lemma_points_all_ok(pts: Seq<PointDto>)
    requires
        points_error(pts) is None,
    ensures
        forall|j: int| 0 <= j < pts.len() ==> #[trigger] point_ok(pts[j]),
    decreases pts.len(),
{
    if pts.len() > 0 {
        lemma_points_all_ok(pts.drop_first());
        assert forall|j: int| 0 <= j < pts.len() implies #[trigger] point_ok(pts[j]) by {
            if j > 0 {
                assert(pts[j] == pts.drop_first()[j - 1]);
            }
        }
    }
}

/// Placing accepted entries keeps every cell within 15 checkers of either
/// side.
proof fn lemma_placed_small(cells: Seq<i8>, p: Player, pts: Seq<PointDto>)
    requires
        cells.len() == 24,
        forall|c: int| 0 <= c < 24 ==> -15 <= #[trigger] cells[c] <= 15,
        forall|j: int| 0 <= j < pts.len() ==> #[trigger] point_ok(pts[j]),
    ensures
        placed(cells, p, pts).len() == 24,
        forall|c: int| 0 <= c < 24 ==> -15 <= #[trigger] placed(cells, p, pts)[c] <= 15,
    decreases pts.len(),
{
    if pts.len() > 0 {
        let last = pts.last();
        assert(point_ok(pts[pts.len() - 1]));
        lemma_placed_small(cells, p, pts.drop_last());
        lemma_phys_round_trip(p, last.pos as int, 0);
        let c = last.count;
        assert(c <= 15 ==> -15 <= signed_count(p, c) <= 15) by {
            assert(c <= 15 ==> (c as i8) as int == c as int) by (bit_vector);
            assert(c <= 15 ==> ((-(c as i8)) as i8) as int == -(c as int)) by (bit_vector);
        }
    }
}

/// The first refused entry's error, if any.
fn check_points(pts: &Vec<PointDto>) -> (r: Option<String>)
    ensures
        match points_error(pts@) {
            None => r is None,
            Some(e) => r matches Some(m) && m@ == e,
        },
{
    let mut i: usize = 0;
    assert(pts@.skip(0) =~= pts@);
    while i < pts.len()
        invariant
            i <= pts@.len(),
            points_error(pts@) == points_error(pts@.skip(i as int)),
        decreases pts@.len() - i,
    {
        assert(pts@.skip(i as int)[0] == pts@[i as int]);
        if pts[i].pos < 1 || pts[i].pos > 24 {
            return Some("point position out of range 1..=24".to_owned());
        }
        if pts[i].count > 15 {
            return Some("point count out of range 0..=15".to_owned());
        }
        assert(pts@.skip(i as int).drop_first() =~= pts@.skip(i as int + 1));
        i += 1;
    }
    assert(pts@.skip(i as int) =~= Seq::<PointDto>::empty());
    None
}

/// Put `p`'s accepted entries on `board`, in order.
fn place_points(board: &mut Board, p: Player, pts: &Vec<PointDto>)
    requires
        forall|j: int| 0 <= j < pts@.len() ==> #[trigger] point_ok(pts@[j]),
    ensures
        final(board).points@ == placed(old(board).points@, p, pts@),
        final(board).off == old(board).off,
{
    let ghost start = board.points@;
    let ghost off = board.off;
    let mut i: usize = 0;
    while i < pts.len()
        invariant
            i <= pts@.len(),
            forall|j: int| 0 <= j < pts@.len() ==> #[trigger] point_ok(pts@[j]),
            board.points@ == placed(start, p, pts@.take(i as int)),
            board.off == off,
        decreases pts@.len() - i,
    {
        assert(point_ok(pts@[i as int]));
        assert(pts@.take(i as int + 1).drop_last() =~= pts@.take(i as int));
        assert(pts@.take(i as int + 1).last() == pts@[i as int]);
        board.place(p, pts[i].pos, pts[i].count);
        i += 1;
    }
    assert(pts@.take(i as int) =~= pts@);
}

/// The cube owner a UI name stands for.
fn owner_of(o: &Option<String>) -> (r: Option<Player>)
    ensures
        r == owner_named(*o),
{
    proof {
        reveal_strlit("white");
        reveal_strlit("black");
        assert("white"@ != "black"@) by { assert("white"@[0] != "black"@[0]); }
    }
    match o {
        Some(s) => match parse_player(s.as_str()) {
            Ok(p) => Some(p),
            Err(_) => None,
        },
        None => None,
    }
}

/// The game a position typed into the editor describes, or why it is
/// refused. The checks run in order: the variant's name, the side to move,
/// White's entries, Black's entries, the roll, and 15 checkers per side;
/// the first that fails gives the error. An accepted position has no first
/// turns left.
pub fn game_from_setup(setup: &SetupDto) -> (r: Result<GameState, String>)
    ensures
        match setup_error(*setup) {
            Some(e) => r matches Err(m) && m@ == e,
            None => r matches Ok(g) && setup_game(*setup, g),
        },
{
    proof {
        reveal_strlit("white");
        reveal_strlit("black");
        reveal_strlit("traditional");
        reveal_strlit("nardegammon");
        reveal_strlit("classic");
        reveal_strlit("hachapuri");
        assert("white"@[0] != "black"@[0]);
        assert("traditional"@[0] == 't' && "nardegammon"@[0] == 'n' && "classic"@[0] == 'c'
            && "hachapuri"@[0] == 'h');
    }
    let variant = match parse_variant(setup.variant.as_str()) {
        Ok(v) => v,
        Err(e) => return Err(e),
    };
    let turn = match parse_player(setup.turn.as_str()) {
        Ok(p) => p,
        Err(e) => return Err(e),
    };
    if let Some(e) = check_points(&setup.white) {
        return Err(e);
    }
    if let Some(e) = check_points(&setup.black) {
        return Err(e);
    }
    if let Some(d) = setup.dice {
        if let Err(e) = validate_die(d[0]) {
            return Err(e);
        }
        if let Err(e) = validate_die(d[1]) {
            return Err(e);
        }
    }
    proof {
        lemma_points_all_ok(setup.white@);
        lemma_points_all_ok(setup.black@);
    }
    let mut board = Board::empty();
    place_points(&mut board, Player::White, &setup.white);
    place_points(&mut board, Player::Black, &setup.black);
    board.off = setup.off;
    proof {
        let e = BoardView::empty_spec().points;
        lemma_placed_small(e, Player::White, setup.white@);
        lemma_placed_small(placed(e, Player::White, setup.white@), Player::Black, setup.black@);
        assert(board@ =~= setup_board(*setup));
    }
    if !board.is_valid() {
        return Err("position must have exactly 15 checkers per side".to_owned());
    }
    let mut game = GameState::new(Rules::for_variant(variant));
    game.board = board;
    game.turn = turn;
    game.dice = setup.dice;
    game.first_turn_done = [true, true];
    game.crawford = match setup.crawford {
        Some(c) => c,
        None => false,
    };
    if let Some(n) = setup.turn_number {
        game.turn_number = n;
    }
    if let Some(c) = &setup.cube {
        game.cube = Cube { value: c.value, owner: owner_of(&c.owner), turned: c.turned };
    }
    assert(game.first_turn_done@ =~= seq![true, true]);
    Ok(game)
}

// ---------------------------------------------------------------------------
// Conversions
// ---------------------------------------------------------------------------

/// `(pos, count)` for `p`'s occupied positions among `1..=n`, ascending.
pub open spec fn occupied(b: BoardView, p: Player, n: int) -> Seq<(u8, u8)>
    decreases n,
{
    if n < 1 {
        Seq::empty()
    } else if b.own(p, n) > 0 {
        occupied(b, p, n - 1).push((n as u8, b.own(p, n) as u8))
    } else {
        occupied(b, p, n - 1)
    }
}

/// The points `player` occupies, ascending by position.
pub fn board_points(board: &Board, player: Player) -> (r: Vec<PointDto>)
    requires
        board@.readable_for(player),
    ensures
        r@.len() == occupied(board@, player, 24).len(),
        forall|i: int| 0 <= i < r@.len() ==> {
            &&& (#[trigger] r@[i]).pos == occupied(board@, player, 24)[i].0
            &&& r@[i].count == occupied(board@, player, 24)[i].1
            &&& r@[i].player@ == player_name(player)
        },
{
    let mut v: Vec<PointDto> = Vec::new();
    let mut pos: u8 = 1;
    while pos <= 24
        invariant
            1 <= pos <= 25,
            board@.readable_for(player),
            v@.len() == occupied(board@, player, pos - 1).len(),
            forall|i: int| 0 <= i < v@.len() ==> {
                &&& (#[trigger] v@[i]).pos == occupied(board@, player, pos - 1)[i].0
                &&& v@[i].count == occupied(board@, player, pos - 1)[i].1
                &&& v@[i].player@ == player_name(player)
            },
        decreases 25 - pos,
    {
        proof {
            lemma_phys_round_trip(player, pos as int, 0);
            let cell = phys_spec(player, pos as int);
            assert(board@.points[cell] == board.points@[cell]);
        }
        let c = board.own_at(player, pos);
        if c > 0 {
            let ghost before = v@;
            v.push(PointDto { pos, player: player_str(player), count: c });
            proof {
                assert forall|i: int| 0 <= i < v@.len() implies {
                    &&& (#[trigger] v@[i]).pos == occupied(board@, player, pos as int)[i].0
                    &&& v@[i].count == occupied(board@, player, pos as int)[i].1
                    &&& v@[i].player@ == player_name(player)
                } by {
                    if i < before.len() {
                        assert(v@[i] == before[i]);
                    }
                }
            }
        }
        pos += 1;
    }
    v
}

pub fn cube_dto(c: &Cube) -> (r: CubeDto)
    ensures
        r.value == c.value,
        r.turned == c.turned,
        c.owner is None ==> r.owner is None,
        c.owner matches Some(p) ==> (r.owner matches Some(s) && s@ == player_name(p)),
{
    let owner = match c.owner {
        Some(p) => Some(player_str(p)),
        None => None,
    };
    CubeDto { value: c.value, owner, turned: c.turned }
}

/// The outcome of `board` as the UI shows it.
pub fn outcome_dto(board: &Board) -> (r: OutcomeDto)
    ensures
        outcome_spec(board@) == Outcome::Ongoing ==> r.kind@ == "ongoing"@ && r.winner is None && r.mars is None
            && r.points is None,
        outcome_spec(board@) matches Outcome::Win { winner, mars, points } ==> r.kind@ == "win"@
            && (r.winner matches Some(w) && w@ == player_name(winner)) && r.mars == Some(mars)
            && r.points == Some(points),
{
    match outcome(board) {
        Outcome::Win { winner, mars, points } => OutcomeDto {
            kind: "win".to_owned(),
            winner: Some(player_str(winner)),
            mars: Some(mars),
            points: Some(points),
        },
        Outcome::Draw => OutcomeDto { kind: "draw".to_owned(), winner: None, mars: None, points: None },
        Outcome::Ongoing => OutcomeDto { kind: "ongoing".to_owned(), winner: None, mars: None, points: None },
    }
}

/// Everything the UI shows of `game`.
pub fn position_dto(game: &GameState) -> (r: PositionDto)
    requires
        game.board@.readable_for(Player::Black),
    ensures
        r.variant@ == variant_name(game.rules.variant),
        r.turn@ == player_name(game.turn),
        r.dice == game.dice,
        r.white@.len() == occupied(game.board@, Player::White, 24).len(),
        forall|i: int| 0 <= i < r.white@.len() ==> (#[trigger] r.white@[i]).pos == occupied(game.board@,
            Player::White, 24)[i].0 && r.white@[i].count == occupied(game.board@, Player::White, 24)[i].1,
        r.black@.len() == occupied(game.board@, Player::Black, 24).len(),
        forall|i: int| 0 <= i < r.black@.len() ==> (#[trigger] r.black@[i]).pos == occupied(game.board@,
            Player::Black, 24)[i].0 && r.black@[i].count == occupied(game.board@, Player::Black, 24)[i].1,
        r.off == game.board.off,
        r.pip[0] as int == game.board@.pip_spec(Player::White),
        r.pip[1] as int == game.board@.pip_spec(Player::Black),
        r.first_turn_done == game.first_turn_done,
        r.turn_number == game.turn_number,
        forall|i: int| 0 <= i < r.white@.len() ==> (#[trigger] r.white@[i]).player@ == player_name(Player::White),
        forall|i: int| 0 <= i < r.black@.len() ==> (#[trigger] r.black@[i]).player@ == player_name(Player::Black),
        r.cube.value == game.cube.value,
        r.cube.turned == game.cube.turned,
        game.cube.owner is None ==> r.cube.owner is None,
        game.cube.owner matches Some(p) ==> (r.cube.owner matches Some(s) && s@ == player_name(p)),
        r.crawford == game.crawford,
        outcome_spec(game.board@) == Outcome::Ongoing ==> r.outcome.kind@ == "ongoing"@ && r.outcome.winner is None
            && r.outcome.mars is None && r.outcome.points is None,
        outcome_spec(game.board@) matches Outcome::Win { winner, mars, points } ==> r.outcome.kind@ == "win"@
            && (r.outcome.winner matches Some(w) && w@ == player_name(winner)) && r.outcome.mars == Some(mars)
            && r.outcome.points == Some(points),
{
    let b = &game.board;
    PositionDto {
        variant: variant_str(game.rules.variant),
        turn: player_str(game.turn),
        dice: game.dice,
        white: board_points(b, Player::White),
        black: board_points(b, Player::Black),
        off: b.off,
        pip: [b.pip(Player::White), b.pip(Player::Black)],
        first_turn_done: game.first_turn_done,
        turn_number: game.turn_number,
        cube: cube_dto(&game.cube),
        crawford: game.crawford,
        outcome: outcome_dto(b),
    }
}

pub fn move_dto(m: &CheckerMove) -> (r: CheckerMoveDto)
    ensures
        r.from == m.from && r.die == m.die && r.to == m.to && r.bear_off == m.bear_off,
{
    CheckerMoveDto { from: m.from, die: m.die, to: m.to, bear_off: m.bear_off }
}

/// The sub-moves as transfer structs.
fn moves_dto(ms: &Vec<CheckerMove>) -> (r: Vec<CheckerMoveDto>)
    ensures
        r@.len() == ms@.len(),
        forall|i: int| 0 <= i < r@.len() ==> (#[trigger] r@[i]).from == ms@[i].from && r@[i].die == ms@[i].die
            && r@[i].to == ms@[i].to && r@[i].bear_off == ms@[i].bear_off,
{
    let mut out: Vec<CheckerMoveDto> = Vec::new();
    let mut i: usize = 0;
    while i < ms.len()
        invariant
            i <= ms.len(),
            out@.len() == i,
            forall|j: int| 0 <= j < i ==> (#[trigger] out@[j]).from == ms@[j].from && out@[j].die == ms@[j].die
                && out@[j].to == ms@[j].to && out@[j].bear_off == ms@[j].bear_off,
        decreases ms.len() - i,
    {
        out.push(move_dto(&ms[i]));
        i += 1;
    }
    out
}

pub fn turn_dto(id: u32, t: &Turn) -> (r: TurnDto)
    ensures
        r.id == id,
        r.is_pass == (t.moves@.len() == 0),
        r.moves@.len() == t.moves@.len(),
        forall|i: int| 0 <= i < r.moves@.len() ==> (#[trigger] r.moves@[i]).from == t.moves@[i].from
            && r.moves@[i].die == t.moves@[i].die && r.moves@[i].to == t.moves@[i].to
            && r.moves@[i].bear_off == t.moves@[i].bear_off,
{
    TurnDto { id, is_pass: t.moves.len() == 0, moves: moves_dto(&t.moves) }
}

/// Boards are equal cell by cell.
fn same_position(a: &Board, b: &Board) -> (r: bool)
    ensures
        r == (a@ == b@),
{
    let mut c: usize = 0;
    while c < 24
        invariant
            c <= 24,
            forall|x: int| 0 <= x < c ==> a.points@[x] == b.points@[x],
        decreases 24 - c,
    {
        if a.points[c] != b.points[c] {
            return false;
        }
        c += 1;
    }
    if a.off[0] != b.off[0] || a.off[1] != b.off[1] {
        return false;
    }
    assert(a@.points =~= b@.points);
    assert(a@.off =~= b@.off);
    true
}

/// Index of the first turn whose resulting board is `board`, if any.
pub open spec fn first_with_board(turns: Seq<Turn>, board: BoardView, i: int) -> bool {
    &&& 0 <= i < turns.len()
    &&& turns[i].board@ == board
    &&& forall|j: int| 0 <= j < i ==> (#[trigger] turns[j]).board@ != board
}

/// `id` is the index of the first turn with resulting board `board`, or 0
/// when there is none.
pub open spec fn id_for(turns: Seq<Turn>, board: BoardView, id: u32) -> bool {
    ||| exists|k: int| first_with_board(turns, board, k) && id == k as u32
    ||| (forall|j: int| 0 <= j < turns.len() ==> (#[trigger] turns[j]).board@ != board) && id == 0
}

/// The id (index) of `chosen` within a regenerated legal-turn list, matched
/// by resulting board (robust to move-order differences); 0 if absent.
pub fn turn_id(turns: &[Turn], chosen: &Turn) -> (r: u32)
    ensures
        id_for(turns@, chosen.board@, r),
{
    let mut i: usize = 0;
    while i < turns.len()
        invariant
            i <= turns.len(),
            forall|j: int| 0 <= j < i ==> (#[trigger] turns@[j]).board@ != chosen.board@,
        decreases turns.len() - i,
    {
        if same_position(&turns[i].board, &chosen.board) {
            assert(first_with_board(turns@, chosen.board@, i as int));
            return i as u32;
        }
        i += 1;
    }
    0
}

/// Each legal sequence with the id of the turn (same resulting board) it
/// amounts to.
pub fn sequence_dtos(turns: &[Turn], seqs: &[Turn]) -> (r: Vec<SequenceDto>)
    ensures
        r@.len() == seqs@.len(),
        forall|i: int| 0 <= i < r@.len() ==> (#[trigger] r@[i]).moves@.len() == seqs@[i].moves@.len()
            && id_for(turns@, seqs@[i].board@, r@[i].turn_id),
{
    let mut out: Vec<SequenceDto> = Vec::new();
    let mut i: usize = 0;
    while i < seqs.len()
        invariant
            i <= seqs.len(),
            out@.len() == i,
            forall|q: int| 0 <= q < i ==> (#[trigger] out@[q]).moves@.len() == seqs@[q].moves@.len()
                && id_for(turns@, seqs@[q].board@, out@[q].turn_id),
        decreases seqs.len() - i,
    {
        let id = turn_id(turns, &seqs[i]);
        let ms = moves_dto(&seqs[i].moves);
        out.push(SequenceDto { moves: ms, turn_id: id });
        i += 1;
    }
    out
}

/// The UI names of the players and of the variants tell them apart, so
/// parsing a name gives back the value it was written from.
pub proof fn lemma_names_round_trip(p: Player, v: Variant)
    ensures
        player_name(p) == "white"@ <==> p == Player::White,
        player_name(p) == "black"@ <==> p == Player::Black,
        variant_name(v) == "traditional"@ <==> v == Variant::Traditional,
        variant_name(v) == "nardegammon"@ <==> v == Variant::Nardegammon,
        variant_name(v) == "classic"@ <==> v == Variant::Classic,
        variant_name(v) == "hachapuri"@ <==> v == Variant::Hachapuri,
{
    reveal_strlit("white");
    reveal_strlit("black");
    reveal_strlit("traditional");
    reveal_strlit("nardegammon");
    reveal_strlit("classic");
    reveal_strlit("hachapuri");
    assert("white"@[0] != "black"@[0]);
    assert("traditional"@[0] == 't' && "nardegammon"@[0] == 'n' && "classic"@[0] == 'c'
        && "hachapuri"@[0] == 'h');
}

} // verus!
