use engine_core::analysis::{
    action_note, bar_note, beaver_allowed, cube_bar, singles_only, CubeAction, CubeBar, CubeContext,
};
use engine_core::board::Board;
use engine_core::cube::Cube;
use engine_core::dto::{
    board_points, cube_action_str, cube_dto, game_from_setup, move_dto, outcome_dto, parse_player, parse_variant,
    player_str, position_dto, sequence_dtos, turn_dto, turn_id, validate_die, variant_str, CubeDto, PointDto, SetupDto,
};
use engine_core::game::{GameState, Rules, Variant};
use engine_core::moves::{generate_turns_cfg, legal_sequences, CheckerMove};
use engine_core::player::Player;

#[test]
fn names_round_trip() {
    for p in [Player::White, Player::Black] {
        assert_eq!(parse_player(&player_str(p)), Ok(p));
    }
    for v in [Variant::Traditional, Variant::Nardegammon, Variant::Classic, Variant::Hachapuri] {
        assert_eq!(parse_variant(&variant_str(v)), Ok(v));
    }
    assert_eq!(parse_player("White"), Err("unknown player: White".to_string()));
    assert_eq!(parse_variant("long"), Err("unknown variant: long".to_string()));
    assert_eq!(cube_action_str(CubeAction::NoDouble), "no_double");
    assert_eq!(cube_action_str(CubeAction::DoubleTake), "double_take");
    assert_eq!(cube_action_str(CubeAction::DoublePass), "double_pass");
    assert_eq!(cube_action_str(CubeAction::TooGood), "too_good");
}

#[test]
fn points_are_listed_in_path_coordinates() {
    let b = Board::starting();
    let w = board_points(&b, Player::White);
    assert_eq!(w.len(), 1);
    assert_eq!((w[0].pos, w[0].count, w[0].player.as_str()), (24, 15, "white"));
    let mut c = Board::empty();
    c.place(Player::Black, 3, 2);
    c.place(Player::Black, 1, 1);
    let pts = board_points(&c, Player::Black);
    assert_eq!(pts.iter().map(|p| (p.pos, p.count)).collect::<Vec<_>>(), vec![(1, 1), (3, 2)]);
}

#[test]
fn cube_and_outcome_dtos() {
    let mut cube = Cube::centered();
    let d = cube_dto(&cube);
    assert_eq!((d.value, d.owner.clone(), d.turned), (1, None, false));
    cube.double(Player::White).unwrap();
    let d = cube_dto(&cube);
    assert_eq!((d.value, d.owner.as_deref(), d.turned), (2, Some("black"), true));

    assert_eq!(outcome_dto(&Board::starting()).kind, "ongoing");
    let mut won = Board::empty();
    won.off = [15, 0];
    let o = outcome_dto(&won);
    assert_eq!(o.kind, "win");
    assert_eq!(o.winner.as_deref(), Some("white"));
    assert_eq!((o.mars, o.points), (Some(true), Some(2)));
}

#[test]
fn position_dto_reports_the_game() {
    let g = GameState::new(Rules::for_variant(Variant::Hachapuri));
    let p = position_dto(&g);
    assert_eq!(p.variant, "hachapuri");
    assert_eq!(p.turn, "white");
    assert_eq!(p.pip, [4 * 24 + 11 * 6, 4 * 24 + 11 * 6]);
    assert_eq!(p.white.len(), 2);
    assert_eq!(p.outcome.kind, "ongoing");
    assert_eq!(p.cube.value, 1);
}

#[test]
fn turn_ids_match_by_board() {
    let b = Board::starting();
    let turns = generate_turns_cfg(&b, Player::White, [6, 5], false, Some(1));
    for (i, t) in turns.iter().enumerate() {
        assert_eq!(turn_id(&turns, t) as usize, i);
        let d = turn_dto(i as u32, t);
        assert_eq!(d.id as usize, i);
        assert_eq!(d.is_pass, t.moves.is_empty());
        assert_eq!(d.moves.len(), t.moves.len());
    }
    let m = move_dto(&CheckerMove { from: 6, die: 6, to: 0, bear_off: true });
    assert_eq!((m.from, m.die, m.to, m.bear_off), (6, 6, 0, true));
}

#[test]
fn sequences_keep_transpositions_and_point_at_their_turn() {
    // Two checkers, one die each: both orders are legal sequences of one turn.
    let mut b = Board::empty();
    b.place(Player::White, 20, 1);
    b.place(Player::White, 10, 1);
    b.place(Player::White, 24, 13);
    b.place(Player::Black, 24, 15);
    let turns = generate_turns_cfg(&b, Player::White, [2, 1], false, Some(1));
    let seqs = legal_sequences(&b, Player::White, [2, 1], false, Some(1));
    assert!(seqs.len() > turns.len());
    let dtos = sequence_dtos(&turns, &seqs);
    assert_eq!(dtos.len(), seqs.len());
    for (s, d) in seqs.iter().zip(&dtos) {
        assert_eq!(turns[d.turn_id as usize].board, s.board);
        assert_eq!(d.moves.len(), s.moves.len());
    }
}

fn pt(pos: u8, player: &str, count: u8) -> PointDto {
    PointDto { pos, player: player.to_string(), count }
}

/// White 15 on its 6-point and 0 off; Black 10 on its 5-point and 5 off.
fn editor_setup() -> SetupDto {
    SetupDto {
        variant: "nardegammon".to_string(),
        turn: "black".to_string(),
        white: vec![pt(6, "white", 15)],
        black: vec![pt(5, "black", 10)],
        off: [0, 5],
        dice: Some([3, 4]),
        cube: Some(CubeDto { value: 4, owner: Some("white".to_string()), turned: true }),
        crawford: Some(true),
        turn_number: Some(17),
    }
}

fn setup_err(s: &SetupDto) -> String {
    match game_from_setup(s) {
        Err(e) => e,
        Ok(_) => panic!("setup accepted"),
    }
}

#[test]
fn editor_setup_builds_the_described_game() {
    let g = game_from_setup(&editor_setup()).unwrap();
    assert_eq!(g.rules.variant, Variant::Nardegammon);
    assert!(g.rules.cube_enabled);
    assert_eq!(g.turn, Player::Black);
    assert_eq!(g.dice, Some([3, 4]));
    assert_eq!(g.first_turn_done, [true, true]);
    assert_eq!(g.turn_number, 17);
    assert!(g.crawford);
    assert_eq!(g.cube.value, 4);
    assert_eq!(g.cube.owner, Some(Player::White));
    assert!(g.cube.turned);
    assert_eq!(g.board.own_at(Player::White, 6), 15);
    assert_eq!(g.board.own_at(Player::Black, 5), 10);
    assert_eq!(g.board.off, [0, 5]);
    assert_eq!(g.board.checkers_on_board(Player::White), 15);
    assert_eq!(g.board.checkers_on_board(Player::Black), 10);
}

#[test]
fn editor_setup_defaults_when_fields_are_absent() {
    let mut s = editor_setup();
    s.cube = None;
    s.crawford = None;
    s.turn_number = None;
    s.dice = None;
    let g = game_from_setup(&s).unwrap();
    assert_eq!(g.cube.value, 1);
    assert_eq!(g.cube.owner, None);
    assert!(!g.cube.turned);
    assert!(!g.crawford);
    assert_eq!(g.turn_number, 0);
    assert_eq!(g.dice, None);
    // An owner name the UI does not use leaves the cube centered.
    let mut s = editor_setup();
    s.cube = Some(CubeDto { value: 2, owner: Some("nobody".to_string()), turned: false });
    assert_eq!(game_from_setup(&s).unwrap().cube.owner, None);
}

#[test]
fn later_entries_overwrite_a_shared_cell() {
    // White's 24-point and Black's 12-point are the same cell: Black's entry,
    // placed last, wins it.
    let mut s = editor_setup();
    s.white = vec![pt(24, "white", 5), pt(6, "white", 10)];
    s.black = vec![pt(12, "black", 10)];
    let g = game_from_setup(&s);
    assert_eq!(g.err(), Some("position must have exactly 15 checkers per side".to_string()));
}

#[test]
fn editor_setup_refusals_come_in_order() {
    let mut s = editor_setup();
    s.variant = "long".to_string();
    s.turn = "red".to_string();
    assert_eq!(setup_err(&s), "unknown variant: long");
    let mut s = editor_setup();
    s.turn = "red".to_string();
    s.white = vec![pt(0, "white", 15)];
    assert_eq!(setup_err(&s), "unknown player: red");
    let mut s = editor_setup();
    s.white = vec![pt(6, "white", 16), pt(25, "white", 1)];
    assert_eq!(setup_err(&s), "point count out of range 0..=15");
    let mut s = editor_setup();
    s.white = vec![pt(25, "white", 16)];
    assert_eq!(setup_err(&s), "point position out of range 1..=24");
    let mut s = editor_setup();
    s.black = vec![pt(0, "black", 10)];
    s.dice = Some([0, 7]);
    assert_eq!(setup_err(&s), "point position out of range 1..=24");
    let mut s = editor_setup();
    s.dice = Some([6, 7]);
    assert_eq!(setup_err(&s), "die out of range 1..=6");
    let mut s = editor_setup();
    s.off = [1, 5];
    assert_eq!(setup_err(&s), "position must have exactly 15 checkers per side");
}

#[test]
fn dice_are_checked_one_by_one() {
    assert_eq!(validate_die(1), Ok(()));
    assert_eq!(validate_die(6), Ok(()));
    assert_eq!(validate_die(0), Err("die out of range 1..=6".to_string()));
    assert_eq!(validate_die(7), Err("die out of range 1..=6".to_string()));
}

#[test]
fn validity_counts_past_a_byte() {
    // 15 on each of White's 24 points is 360 checkers: refused, not wrapped.
    let mut b = Board::empty();
    for pos in 1..=24u8 {
        b.place(Player::White, pos, 15);
    }
    assert!(!b.is_valid());
    // 271 on the board wraps a byte to 15; it is still refused.
    let mut b = Board::empty();
    for pos in 1..=18u8 {
        b.place(Player::White, pos, 15);
    }
    b.place(Player::White, 19, 1);
    assert!(!b.is_valid());
}

fn ctx(money: bool, crawford: bool, cube: Cube, on_roll: Player) -> CubeContext {
    CubeContext { money, jacoby: true, beaver: true, crawford, cube, on_roll }
}

#[test]
fn cube_gating_and_notes() {
    let centered = Cube::centered();
    let theirs = Cube { value: 2, owner: Some(Player::Black), turned: true };
    let maxed = Cube { value: 64, owner: Some(Player::White), turned: true };
    assert_eq!(cube_bar(&ctx(false, true, centered, Player::White)), Some(CubeBar::Crawford));
    assert_eq!(cube_bar(&ctx(true, false, theirs, Player::White)), Some(CubeBar::Unavailable));
    assert_eq!(cube_bar(&ctx(true, false, maxed, Player::White)), Some(CubeBar::Unavailable));
    assert_eq!(cube_bar(&ctx(true, false, theirs, Player::Black)), None);
    assert_eq!(cube_bar(&ctx(true, false, centered, Player::White)), None);
    assert!(singles_only(&ctx(true, false, centered, Player::White)));
    assert!(!singles_only(&ctx(true, false, theirs, Player::Black)));
    assert!(!singles_only(&ctx(false, false, centered, Player::White)));
    assert!(beaver_allowed(&ctx(true, false, centered, Player::White)));
    assert!(!beaver_allowed(&ctx(false, false, centered, Player::White)));
    assert_eq!(bar_note(CubeBar::Crawford), "Кроуфорд: удвоение запрещено");
    assert_eq!(bar_note(CubeBar::Unavailable), "Куб недоступен (у соперника)");
    assert_eq!(action_note(CubeAction::NoDouble, true), "Не удваивать (иначе бивер)");
    assert_eq!(action_note(CubeAction::NoDouble, false), "Не удваивать");
    assert_eq!(action_note(CubeAction::TooGood, false), "Слишком хорошо — играть на марс (тугуд)");
}
