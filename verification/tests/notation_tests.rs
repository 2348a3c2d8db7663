use engine_core::board::Board;
use engine_core::cli::{flag_value, parse_pos_line as parse_rolled_line, str_arg};
use engine_core::moves::{generate_turns_cfg, CheckerMove, Turn};
use engine_core::notation::{
    format_pos_line, line_placeable_exec, parse_player, parse_pos_line, parse_side, side_placeable_exec, turn_key,
};
use engine_core::player::Player;

#[test]
fn pos_line_round_trips_exactly() {
    let mut board = Board::empty();
    board.place(Player::White, 24, 11);
    board.place(Player::White, 13, 2);
    board.place(Player::White, 2, 1);
    board.place(Player::Black, 24, 10);
    board.place(Player::Black, 7, 3);
    board.off = [1, 2];

    // With dice.
    let line = format_pos_line(&board, Player::Black, Some([6, 2]));
    let (b2, t2, d2, f2) = parse_pos_line(&line).expect("parseable");
    assert_eq!(b2, board);
    assert_eq!(t2, Player::Black);
    assert_eq!(d2, Some([6, 2]));
    assert!(!f2);

    // Without dice (dataset rows) — must still parse, dice = None.
    let line = format_pos_line(&board, Player::White, None);
    let (b3, t3, d3, _) = parse_pos_line(&line).expect("dataset rows must be parseable");
    assert_eq!(b3, board);
    assert_eq!(t3, Player::White);
    assert_eq!(d3, None);

    // Garbage without any side token is rejected.
    assert!(parse_pos_line("dice=3,1 turn=W").is_none());
}

#[test]
fn pos_line_has_the_documented_shape() {
    let mut board = Board::empty();
    board.place(Player::White, 24, 13);
    board.place(Player::White, 18, 2);
    board.place(Player::Black, 24, 15);
    board.off = [0, 3];
    assert_eq!(
        format_pos_line(&board, Player::White, Some([3, 1])),
        "white=24:13,18:2 black=24:15 turn=W black-off=3 dice=3,1"
    );
    assert_eq!(format_pos_line(&Board::empty(), Player::Black, None), "white= black= turn=B");
}

#[test]
fn pos_line_reads_optional_tokens() {
    let (b, t, d, f) = parse_pos_line("  white=24:13,18:2,bad,30:1 turn=b dice=6,x,4 first white-off=2").unwrap();
    assert_eq!(b.own_at(Player::White, 24), 13);
    assert_eq!(b.own_at(Player::White, 18), 2);
    assert_eq!(b.off, [2, 0]);
    assert_eq!(t, Player::Black);
    assert_eq!(d, Some([6, 4]));
    assert!(f);
    let (_, _, d, f) = parse_pos_line("black=1:1 dice=1,2,3 first=TRUE").unwrap();
    assert_eq!(d, None);
    assert!(f);
    let (_, _, _, f) = parse_pos_line("black=1:1 first=0").unwrap();
    assert!(!f);
}

#[test]
fn rolled_lines_need_dice() {
    assert!(parse_rolled_line("white=24:15 black=24:15 turn=W").is_none());
    let (b, t, d, first) = parse_rolled_line("turn=B dice=5,5 first").unwrap();
    assert_eq!(b, Board::empty());
    assert_eq!(t, Player::Black);
    assert_eq!(d, [5, 5]);
    assert!(first);
}

#[test]
fn players_parse_case_insensitively() {
    assert_eq!(parse_player("B"), Player::Black);
    assert_eq!(parse_player("bLaCk"), Player::Black);
    assert_eq!(parse_player("w"), Player::White);
    assert_eq!(parse_player(""), Player::White);
    assert_eq!(parse_player("blackish"), Player::White);
}

#[test]
fn side_specs_skip_malformed_entries() {
    let mut b = Board::empty();
    parse_side("24:13,,x:1,25:1,0:2,6:+2, 1 : 0 ", Player::Black, &mut b);
    assert_eq!(b.own_at(Player::Black, 24), 13);
    assert_eq!(b.own_at(Player::Black, 6), 2);
    assert_eq!(b.own_at(Player::Black, 1), 0);
    assert_eq!(b.checkers_on_board(Player::Black), 15);
}

#[test]
fn turn_keys_sort_sub_moves_as_strings() {
    let t = Turn {
        moves: vec![
            CheckerMove { from: 6, die: 6, to: 0, bear_off: true },
            CheckerMove { from: 24, die: 3, to: 21, bear_off: false },
            CheckerMove { from: 13, die: 2, to: 11, bear_off: false },
        ],
        board: Board::empty(),
    };
    assert_eq!(turn_key(&t), "13>11,24>21,6>0");
    let pass = Turn { moves: vec![], board: Board::empty() };
    assert_eq!(turn_key(&pass), "pass");
}

#[test]
fn distinct_turns_have_distinct_keys() {
    let b = Board::starting();
    let ts = generate_turns_cfg(&b, Player::White, [6, 6], true, Some(1));
    let keys: Vec<String> = ts.iter().map(turn_key).collect();
    for i in 0..keys.len() {
        for j in i + 1..keys.len() {
            assert_ne!(keys[i], keys[j]);
        }
    }
}

#[test]
fn flags_are_looked_up_by_their_first_occurrence() {
    let args: Vec<String> = ["prog", "--games", "50", "--out", "a.bin", "--games", "7", "--tail"]
        .iter()
        .map(|s| s.to_string())
        .collect();
    assert_eq!(flag_value(&args, "--games"), Some(2));
    assert_eq!(flag_value(&args, "--tail"), None);
    assert_eq!(flag_value(&args, "--missing"), None);
    assert_eq!(str_arg(&args, "--out", "net.bin"), "a.bin");
    assert_eq!(str_arg(&args, "--in", "net.bin"), "net.bin");
}

#[test]
fn placeability_is_checked_before_placing() {
    assert!(side_placeable_exec("24:15,6:128", Player::White));
    assert!(!side_placeable_exec("24:15,6:128", Player::Black));
    assert!(side_placeable_exec("24:15,6:127,x:128", Player::Black));
    assert!(line_placeable_exec("white=24:128 black=24:15 turn=W"));
    assert!(!line_placeable_exec("white=24:15 black=24:14,3:128 turn=B"));
    assert!(line_placeable_exec("dice=3,1 turn=W"));
}

#[test]
fn a_line_without_a_side_names_no_position() {
    assert!(parse_pos_line("dice=3,1 turn=W").is_none());
    assert!(parse_pos_line("white-off=3 black-off=2 first").is_none());
    assert!(parse_pos_line("black=24:15").is_some());
}
