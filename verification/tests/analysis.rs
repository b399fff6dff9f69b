use gambit::analysis::{puzzle_cursor, candidate_texts, no_lines_yet, arrows_of, can_step, delete_at, ingest_line, load_text, move_label, nav_for_key, navigate, DisplayLine, Nav};
use gambit::engine::{parse_info_line, Score};
use gambit::position::Position;
use gambit::tree::{MoveTree, NodeId};

fn play_uci(tree: &mut MoveTree, at: NodeId, uci: &str) -> NodeId {
    let m = tree.position(at).uci_move(uci).unwrap();
    tree.play(at, m, None)
}

#[test]
fn arrow_keys_move_through_the_tree() {
    assert_eq!(nav_for_key("ArrowLeft"), Some(Nav::Back));
    assert_eq!(nav_for_key("ArrowRight"), Some(Nav::Forward));
    assert_eq!(nav_for_key("ArrowUp"), Some(Nav::End));
    assert_eq!(nav_for_key("ArrowDown"), Some(Nav::Beginning));
    assert_eq!(nav_for_key("Enter"), None);

    let mut tree = MoveTree::new(Position::start());
    let e4 = play_uci(&mut tree, 0, "e2e4");
    let e5 = play_uci(&mut tree, e4, "e7e5");
    let c5 = play_uci(&mut tree, e4, "c7c5");
    assert_eq!(navigate(&tree, 0, Nav::Back), 0);
    assert_eq!(navigate(&tree, 0, Nav::Forward), e4);
    assert_eq!(navigate(&tree, c5, Nav::Back), e4);
    assert_eq!(navigate(&tree, c5, Nav::End), e5);
    assert_eq!(navigate(&tree, e5, Nav::Beginning), 0);
    assert_eq!(can_step(&tree, 0), (false, true));
    assert_eq!(can_step(&tree, e5), (true, false));
}

#[test]
fn deleting_under_the_cursor_moves_it_up() {
    let mut tree = MoveTree::new(Position::start());
    let e4 = play_uci(&mut tree, 0, "e2e4");
    let e5 = play_uci(&mut tree, e4, "e7e5");
    let d4 = play_uci(&mut tree, 0, "d2d4");
    assert_eq!(delete_at(&mut tree, e5, e4), 0);
    assert_eq!(tree.children(0), &[d4]);
    assert_eq!(delete_at(&mut tree, d4, 0), d4);
}

#[test]
fn move_labels() {
    assert_eq!(move_label("e4", true, 1, true), "1. e4");
    assert_eq!(move_label("c5", true, 1, false), "1... c5");
    assert_eq!(move_label("Nf3", false, 2, true), "Nf3");
}

#[test]
fn loading_fen_or_pgn_text() {
    let (tree, cursor) = load_text("  rnbqkbnr/pppppppp/8/8/4P3/8/PPPP1PPP/RNBQKBNR b KQkq - 0 1\n").unwrap();
    assert_eq!((tree.len(), cursor), (1, 0));
    let (tree, cursor) = load_text("1. e4 e5 2. Nf3").unwrap();
    assert_eq!(tree.len(), 4);
    assert_eq!(tree.san(cursor), "Nf3");
    assert_eq!(load_text("   ").err(), Some("paste a FEN or PGN first".to_string()));
    assert_eq!(load_text("1. e4)").err(), Some("not a valid FEN or PGN: PGN has an unmatched ')'".to_string()));
}

#[test]
fn engine_lines_are_read_against_the_searched_position() {
    let black_to_move = Position::from_fen("rnbqkbnr/pppppppp/8/8/4P3/8/PPPP1PPP/RNBQKBNR b KQkq - 0 1").unwrap();
    let info = parse_info_line("info depth 11 multipv 3 score cp 25 pv e7e5 g1f3").unwrap();
    let (slot, line) = ingest_line(&info, &black_to_move);
    assert_eq!(slot, 2);
    assert_eq!(line.score_white, Score::Cp(-25));
    assert_eq!(line.depth, 11);
    assert_eq!(line.san, vec!["e5", "Nf3"]);
    assert_eq!(line.arrow, Some((52, 36)));
    let info = parse_info_line("info depth 2 multipv 0 score mate 1 pv e7e5").unwrap();
    assert_eq!(ingest_line(&info, &black_to_move).0, 0);
}

#[test]
fn arrows_come_from_each_filled_slot() {
    let line = |arrow| Some(DisplayLine { score_white: Score::Cp(0), depth: 1, san: vec![], arrow });
    let lines = vec![line(Some((12, 28))), None, line(None), line(Some((6, 21)))];
    assert_eq!(arrows_of(&lines), vec![(12, 28, 0), (6, 21, 3)]);
}

#[test]
fn candidate_line_texts() {
    let line = DisplayLine { score_white: Score::Cp(31), depth: 18, san: vec!["e4".to_string(), "e5".to_string(), "Nf3".to_string()], arrow: None };
    let (first, rest) = candidate_texts(&line);
    assert_eq!(first, "e4");
    assert_eq!(rest, "depth 18 \u{2014} e4 e5 Nf3");
    let empty = DisplayLine { score_white: Score::Mate(1), depth: 0, san: vec![], arrow: None };
    assert_eq!(candidate_texts(&empty), (String::new(), "depth 0 \u{2014} ".to_string()));
    assert!(no_lines_yet(&[None, None, None]));
    assert!(!no_lines_yet(&[None, Some(line), None]));
}

#[test]
fn puzzle_opens_plies_along_the_first_line() {
    let mut tree = MoveTree::new(Position::start());
    let e4 = play_uci(&mut tree, 0, "e2e4");
    let e5 = play_uci(&mut tree, e4, "e7e5");
    let _d5 = play_uci(&mut tree, e4, "d7d5");
    assert_eq!(puzzle_cursor(&tree, 0), (0, None));
    assert_eq!(puzzle_cursor(&tree, 1), (e4, Some((12, 28))));
    assert_eq!(puzzle_cursor(&tree, 2), (e5, Some((52, 36))));
    assert_eq!(puzzle_cursor(&tree, 9), (e5, Some((52, 36))));
}
