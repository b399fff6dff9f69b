use gambit::position::Position;
use gambit::tree::{MoveTree, NodeId};

fn play_uci(tree: &mut MoveTree, at: NodeId, uci: &str) -> NodeId {
    let m = tree.position(at).uci_move(uci).unwrap();
    tree.play(at, m, None)
}

#[test]
fn pgn_round_trip_with_variation_and_clocks() {
    let pgn = "1. e4 {[%clk 0:02:59]} e5 {[%clk 0:02:58]} 2. Nf3 {[%clk 0:02:55]} \
               (2. d4 {[%clk 0:02:50]} exd4 {[%clk 0:02:57]}) Nc6 {[%clk 0:02:53]}";
    let tree = MoveTree::from_pgn(pgn).expect("valid pgn");

    let segments = tree.flatten();
    assert_eq!(segments.len(), 3);
    let mainline_opening: Vec<&str> = segments[0].nodes.iter().map(|n| n.san.as_str()).collect();
    assert_eq!(mainline_opening, ["e4", "e5"]);
    let variation: Vec<&str> = segments[1].nodes.iter().map(|n| n.san.as_str()).collect();
    assert_eq!(variation, ["d4", "exd4"]);
    let resumed: Vec<&str> = segments[2].nodes.iter().map(|n| n.san.as_str()).collect();
    assert_eq!(resumed, ["Nf3", "Nc6"]);

    let e4_id = segments[0].nodes[0].id;
    assert_eq!(tree.clock_at(e4_id), Some((179_000, 0)));

    let re_pgn = tree.to_pgn();
    let round_tripped = MoveTree::from_pgn(&re_pgn).expect("re-parses own output");
    let rt_segments = round_tripped.flatten();
    assert_eq!(rt_segments.len(), segments.len());
    for (a, b) in rt_segments.iter().zip(segments.iter()) {
        assert_eq!(a.depth, b.depth);
        let a_sans: Vec<&str> = a.nodes.iter().map(|n| n.san.as_str()).collect();
        let b_sans: Vec<&str> = b.nodes.iter().map(|n| n.san.as_str()).collect();
        assert_eq!(a_sans, b_sans);
    }
}

#[test]
fn from_pgn_rejects_unmatched_parens() {
    assert!(MoveTree::from_pgn("1. e4 (1. d4").is_err());
    assert!(MoveTree::from_pgn("1. e4) e5").is_err());
}

#[test]
fn from_pgn_rejects_illegal_move() {
    assert!(MoveTree::from_pgn("1. e2e9").is_err());
}

#[test]
fn from_uci_moves_builds_a_linear_tree_with_clocks() {
    let moves = vec!["e2e4".to_string(), "e7e5".to_string(), "g1f3".to_string()];
    let clocks = vec![Some((299_000, 300_000)), Some((299_000, 298_500)), None];
    let tree = MoveTree::from_uci_moves(&moves, &clocks, 300_000).unwrap();

    let segments = tree.flatten();
    assert_eq!(segments.len(), 1, "no variations expected");
    let sans: Vec<&str> = segments[0].nodes.iter().map(|n| n.san.as_str()).collect();
    assert_eq!(sans, ["e4", "e5", "Nf3"]);

    let e4_id = segments[0].nodes[0].id;
    let e5_id = segments[0].nodes[1].id;
    let nf3_id = segments[0].nodes[2].id;
    assert_eq!(tree.clock_at(e4_id), Some((299_000, 300_000)));
    assert_eq!(tree.clock_at(e5_id), Some((299_000, 298_500)));
    assert_eq!(tree.clock_at(nf3_id), Some((299_000, 298_500)));
    assert_eq!(tree.clock_at(tree.root()), Some((300_000, 300_000)));
}

#[test]
fn from_uci_moves_rejects_bad_move() {
    assert!(MoveTree::from_uci_moves(&["e2e9".to_string()], &[None], 300_000).is_err());
}

#[test]
fn from_uci_moves_names_the_failing_move() {
    let r = MoveTree::from_uci_moves(&["e2e9".to_string()], &[None], 300_000);
    assert_eq!(r.err(), Some("bad move: \"e2e9\"".to_string()));
    let r = MoveTree::from_uci_moves(&["e2e4".to_string(), "e2e4".to_string()], &[], 300_000);
    assert_eq!(r.err(), Some("illegal move: \"e2e4\"".to_string()));
}

#[test]
fn from_uci_moves_with_fewer_clocks_than_moves() {
    let moves = vec!["d2d4".to_string(), "d7d5".to_string()];
    let tree = MoveTree::from_uci_moves(&moves, &[Some((59_000, 60_000))], 60_000).unwrap();
    assert_eq!(tree.len(), 3);
    assert_eq!(tree.clock(1), Some((59_000, 60_000)));
    assert_eq!(tree.clock(2), None);
}

#[test]
fn from_pgn_error_messages() {
    assert_eq!(MoveTree::from_pgn("1. e4 (1. d4").err(), Some("PGN has an unmatched '('".to_string()));
    assert_eq!(MoveTree::from_pgn("1. e4) e5").err(), Some("PGN has an unmatched ')'".to_string()));
    assert_eq!(
        MoveTree::from_pgn("(1. e4)").err(),
        Some("PGN has a variation '(' with no move to branch from".to_string())
    );
    assert_eq!(MoveTree::from_pgn("1. e2e9").err(), Some("invalid move text: \"e2e9\"".to_string()));
    assert_eq!(MoveTree::from_pgn("1. e5").err(), Some("illegal move: \"e5\"".to_string()));
}

#[test]
fn from_pgn_skips_tags_comments_annotations_and_results() {
    let pgn = "[Event \"Casual\"]\n[Site \"?\"]\n\n1. e4 $1 e5 ; a comment\n2. Nf3 {a remark} Nc6 1-0";
    let tree = MoveTree::from_pgn(pgn).unwrap();
    let segments = tree.flatten();
    assert_eq!(segments.len(), 1);
    let sans: Vec<&str> = segments[0].nodes.iter().map(|n| n.san.as_str()).collect();
    assert_eq!(sans, ["e4", "e5", "Nf3", "Nc6"]);
}

#[test]
fn to_pgn_writes_numbers_variations_and_clocks() {
    let mut tree = MoveTree::with_clocks(Position::start(), 180_000);
    let e4 = play_uci(&mut tree, 0, "e2e4");
    let e5 = play_uci(&mut tree, e4, "e7e5");
    play_uci(&mut tree, e4, "c7c5");
    play_uci(&mut tree, e5, "g1f3");
    assert_eq!(tree.to_pgn(), "1. e4 e5 ( 1... c5 ) 2. Nf3");

    let moves = vec!["e2e4".to_string()];
    let clocked = MoveTree::from_uci_moves(&moves, &[Some((179_000, 180_000))], 180_000).unwrap();
    assert_eq!(clocked.to_pgn(), "1. e4 {[%clk 0:02:59]}");
}

#[test]
fn empty_tree_writes_empty_pgn() {
    let tree = MoveTree::new(Position::start());
    assert_eq!(tree.to_pgn(), "");
    let read = MoveTree::from_pgn("").unwrap();
    assert_eq!(read.len(), 1);
}

#[test]
fn written_pgn_reads_back_to_the_same_pgn() {
    let mut tree = MoveTree::new(Position::start());
    let e4 = play_uci(&mut tree, 0, "e2e4");
    let e5 = play_uci(&mut tree, e4, "e7e5");
    let _c5 = play_uci(&mut tree, e4, "c7c5");
    let nf3 = play_uci(&mut tree, e5, "g1f3");
    let _nc6 = play_uci(&mut tree, nf3, "b8c6");
    let m = tree.position(e5).uci_move("f1c4").unwrap();
    let bc4 = tree.play(e5, m, Some((61_999, 58_000)));
    let _ = play_uci(&mut tree, bc4, "g8f6");
    let pgn = tree.to_pgn();
    let back = MoveTree::from_pgn(&pgn).expect("reads back");
    assert_eq!(back.to_pgn(), pgn);
    assert!(pgn.contains("{[%clk 0:01:01]}"));
}

#[test]
fn root_variation_after_a_continued_mainline_does_not_read_back() {
    let mut tree = MoveTree::new(Position::start());
    let e4 = play_uci(&mut tree, 0, "e2e4");
    let _e5 = play_uci(&mut tree, e4, "e7e5");
    let _d4 = play_uci(&mut tree, 0, "d2d4");
    let pgn = tree.to_pgn();
    assert_eq!(pgn, "1. e4 e5 ( 1. d4 )");
    assert!(MoveTree::from_pgn(&pgn).is_err());
}
