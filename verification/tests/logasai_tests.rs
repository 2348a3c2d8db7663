use engine_core::board::Board;
use engine_core::logasai::{format_turn, match_index, parse_half, parse_mat, parse_play, replay_plies, segments, split_halves};
use engine_core::moves::{generate_turns_cfg, CheckerMove, Turn};
use engine_core::player::Player;

fn mv(from: u8, die: u8, to: u8, bear_off: bool) -> CheckerMove {
    CheckerMove { from, die, to, bear_off }
}

#[test]
fn parse_play_roundtrip() {
    assert_eq!(parse_play("pass"), Some(vec![]));
    assert_eq!(parse_play("24/21 13/11"), Some(vec![(13, 11), (24, 21)]));
    assert_eq!(parse_play("6/off"), Some(vec![(6, 0)]));
    assert_eq!(parse_play("garbage"), None);
}

#[test]
fn parse_play_accepts_the_other_spellings() {
    assert_eq!(parse_play("  PASS "), Some(vec![]));
    assert_eq!(parse_play("—"), Some(vec![]));
    assert_eq!(parse_play("пропуск"), Some(vec![]));
    assert_eq!(parse_play(""), Some(vec![]));
    assert_eq!(parse_play("5/0 6/OFF 4/выкид"), Some(vec![(4, 0), (5, 0), (6, 0)]));
    assert_eq!(parse_play("24/21 x/3"), None);
    assert_eq!(parse_play("24/300"), None);
}

#[test]
fn chains_collapse_into_segments() {
    let t = Turn {
        moves: vec![mv(24, 6, 18, false), mv(18, 2, 16, false), mv(13, 4, 9, false), mv(3, 3, 0, true)],
        board: Board::empty(),
    };
    assert_eq!(segments(&t), vec![(3, 0), (13, 9), (24, 16)]);
    assert_eq!(format_turn(&t), "24/16 13/9 3/off");
    let pass = Turn { moves: vec![], board: Board::empty() };
    assert_eq!(format_turn(&pass), "pass");
    assert!(segments(&pass).is_empty());
}

#[test]
fn every_opening_turn_matches_its_own_notation() {
    let board = Board::starting();
    let turns = generate_turns_cfg(&board, Player::White, [3, 1], true, Some(1));
    assert!(!turns.is_empty());
    for t in &turns {
        let note = format_turn(t);
        assert_eq!(
            match_index(&turns, &note),
            turns.iter().position(|x| segments(x) == segments(t)),
            "turn {note} should match itself",
        );
    }
    assert_eq!(match_index(&turns, "1/2/3"), None);
    assert_eq!(match_index(&turns, "24/1"), None);
}

#[test]
fn replay_reconstructs_a_self_consistent_game() {
    // Build a short legal sequence by always playing the first legal turn, then
    // hand its notation back through the replay path and confirm every ply
    // reconstructs (the matcher inverts the generator).
    let mut board = Board::starting();
    let mut mover = Player::White;
    let mut first = [true, true];
    let mut plies = Vec::new();
    let dice_seq = [[3, 1], [6, 4], [5, 2], [6, 6], [2, 1], [4, 3]];
    for d in dice_seq {
        let turns = generate_turns_cfg(&board, mover, d, first[mover.index()], Some(1));
        let t = &turns[0];
        plies.push((d, format_turn(t)));
        board = t.board.clone();
        first[mover.index()] = false;
        mover = mover.opponent();
    }
    let (decisions, fail) = replay_plies(&plies);
    assert_eq!(fail, None, "every ply should reconstruct");
    assert_eq!(decisions.len(), plies.len());
}

#[test]
fn replay_stops_at_the_first_unmatched_ply() {
    let plies = vec![([3u8, 1u8], "24/21 24/23".to_string()), ([6, 4], "nonsense".to_string())];
    let (decisions, fail) = replay_plies(&plies);
    assert_eq!(fail, Some(0));
    assert!(decisions.is_empty());
    let board = Board::starting();
    let turns = generate_turns_cfg(&board, Player::White, [3, 1], true, Some(1));
    let plies = vec![([3u8, 1u8], format_turn(&turns[0])), ([6, 4], "nonsense".to_string())];
    let (decisions, fail) = replay_plies(&plies);
    assert_eq!(fail, Some(1));
    assert_eq!(decisions.len(), 1);
    assert_eq!(decisions[0].board, board);
    assert_eq!(decisions[0].mover, Player::White);
    assert!(decisions[0].first);
    assert_eq!(decisions[0].played, plies[0].1);
}

#[test]
fn parse_mat_extracts_dice_and_moves() {
    // A standard-format move line with two halves.
    let mat = "  1) 31: 24/20   64: 24/18 13/9\n  2) 11: 23/22 23/22\n";
    let plies = parse_mat(mat);
    assert_eq!(plies.len(), 3);
    assert_eq!(plies[0], ([3, 1], "24/20".to_string()));
    assert_eq!(plies[1], ([6, 4], "24/18 13/9".to_string()));
    assert_eq!(plies[2].0, [1, 1]);
}

#[test]
fn parse_mat_ignores_headers_and_reads_passes() {
    let mat = "Match to 7\r\n 12) 55: (пропуск)  43: 6/off 5/off\r\nx) 31: 1/2\n";
    let plies = parse_mat(mat);
    assert_eq!(plies, vec![([5, 5], "pass".to_string()), ([4, 3], "6/off 5/off".to_string())]);
}

#[test]
fn halves_split_on_dice_headers() {
    assert_eq!(split_halves("31: 24/20   64: 24/18 13/9"), vec!["31: 24/20".to_string(), "64: 24/18 13/9".to_string()]);
    assert_eq!(split_halves("11:  23/22 :"), vec!["11: 23/22 :".to_string()]);
    assert!(split_halves("   ").is_empty());
    assert_eq!(parse_half("64: 24/18 13/9"), Some(([6, 4], "24/18 13/9".to_string())));
    assert_eq!(parse_half("6: 24/18"), None);
    assert_eq!(parse_half("6x: 24/18"), None);
    assert_eq!(parse_half("24/18"), None);
}
