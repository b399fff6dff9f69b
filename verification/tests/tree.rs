use gambit::position::Position;
use gambit::tree::{DisplayNode, LineItem, MoveTree, NodeId};

fn play_uci(tree: &mut MoveTree, at: NodeId, uci: &str) -> NodeId {
    let m = tree.position(at).uci_move(uci).unwrap();
    tree.play(at, m, None)
}

fn sans(nodes: &[DisplayNode]) -> Vec<&str> {
    nodes.iter().map(|n| n.san.as_str()).collect()
}

#[test]
fn playing_same_move_twice_reuses_the_node() {
    let mut tree = MoveTree::new(Position::start());
    let a = play_uci(&mut tree, 0, "e2e4");
    let b = play_uci(&mut tree, 0, "e2e4");
    assert_eq!(a, b);
    assert_eq!(tree.children(0), &[a]);
}

#[test]
fn different_move_from_rewound_node_creates_a_sibling() {
    let mut tree = MoveTree::new(Position::start());
    let e4 = play_uci(&mut tree, 0, "e2e4");
    let d4 = play_uci(&mut tree, 0, "d2d4");
    assert_ne!(e4, d4);
    assert_eq!(tree.children(0), &[e4, d4]);
}

#[test]
fn flatten_numbers_and_depth() {
    let mut tree = MoveTree::new(Position::start());
    let e4 = play_uci(&mut tree, 0, "e2e4");
    let e5 = play_uci(&mut tree, e4, "e7e5");
    let nf3 = play_uci(&mut tree, e5, "g1f3");
    let d4 = play_uci(&mut tree, e5, "d2d4");
    play_uci(&mut tree, nf3, "b8c6");
    play_uci(&mut tree, d4, "e5d4");

    let segments = tree.flatten();
    assert_eq!(segments.len(), 3);

    assert_eq!(segments[0].depth, 0);
    assert_eq!(sans(&segments[0].nodes), ["e4", "e5"]);
    assert_eq!(segments[0].nodes[0].fullmove, 1);
    assert!(segments[0].nodes[0].is_white);
    assert!(segments[0].nodes[0].show_number);
    assert!(!segments[0].nodes[1].show_number);

    assert_eq!(segments[1].depth, 1);
    assert_eq!(sans(&segments[1].nodes), ["d4", "exd4"]);
    assert!(segments[1].nodes[0].show_number);

    assert_eq!(segments[2].depth, 0);
    assert_eq!(sans(&segments[2].nodes), ["Nf3", "Nc6"]);
    assert_eq!(segments[2].nodes[0].fullmove, 2);
}

#[test]
fn flatten_tree_flows_mainline_around_a_single_variation() {
    let mut tree = MoveTree::new(Position::start());
    let e4 = play_uci(&mut tree, 0, "e2e4");
    let e5 = play_uci(&mut tree, e4, "e7e5");
    let nf3 = play_uci(&mut tree, e5, "g1f3");
    let d4 = play_uci(&mut tree, e5, "d2d4");
    play_uci(&mut tree, nf3, "b8c6");
    play_uci(&mut tree, d4, "e5d4");

    let top = tree.flatten_tree();
    assert_eq!(top.depth, 0);
    assert_eq!(top.items.len(), 3);

    let LineItem::Moves(opening) = &top.items[0] else { panic!("expected Moves") };
    assert_eq!(sans(opening), ["e4", "e5"]);

    let LineItem::Variation(variation) = &top.items[1] else { panic!("expected Variation") };
    assert_eq!(variation.depth, 1);
    assert_eq!(variation.items.len(), 1);
    let LineItem::Moves(var_moves) = &variation.items[0] else { panic!("expected Moves") };
    assert_eq!(sans(var_moves), ["d4", "exd4"]);

    let LineItem::Moves(resumed) = &top.items[2] else { panic!("expected Moves") };
    assert_eq!(sans(resumed), ["Nf3", "Nc6"]);
}

#[test]
fn flatten_tree_keeps_sibling_variations_separate() {
    let mut tree = MoveTree::new(Position::start());
    let e4 = play_uci(&mut tree, 0, "e2e4");
    let e5 = play_uci(&mut tree, e4, "e7e5");
    play_uci(&mut tree, e4, "c7c5");
    play_uci(&mut tree, e4, "e7e6");
    play_uci(&mut tree, e5, "g1f3");

    let top = tree.flatten_tree();
    assert_eq!(top.items.len(), 4);

    let LineItem::Moves(opening) = &top.items[0] else { panic!("expected Moves") };
    assert_eq!(sans(opening), ["e4"]);

    let LineItem::Variation(v1) = &top.items[1] else { panic!("expected Variation") };
    assert_eq!(v1.depth, 1);
    let LineItem::Moves(v1_moves) = &v1.items[0] else { panic!("expected Moves") };
    assert_eq!(sans(v1_moves), ["c5"]);

    let LineItem::Variation(v2) = &top.items[2] else { panic!("expected Variation") };
    assert_eq!(v2.depth, 1);
    let LineItem::Moves(v2_moves) = &v2.items[0] else { panic!("expected Moves") };
    assert_eq!(sans(v2_moves), ["e6"]);

    let LineItem::Moves(resumed) = &top.items[3] else { panic!("expected Moves") };
    assert_eq!(sans(resumed), ["e5", "Nf3"]);
}

#[test]
fn promote_reorders_children() {
    let mut tree = MoveTree::new(Position::start());
    let e4 = play_uci(&mut tree, 0, "e2e4");
    let d4 = play_uci(&mut tree, 0, "d2d4");
    assert_eq!(tree.children(0), &[e4, d4]);
    tree.promote(d4);
    assert_eq!(tree.children(0), &[d4, e4]);
}

#[test]
fn delete_unlinks_subtree_but_keeps_root() {
    let mut tree = MoveTree::new(Position::start());
    let e4 = play_uci(&mut tree, 0, "e2e4");
    let d4 = play_uci(&mut tree, 0, "d2d4");
    tree.delete(d4);
    assert_eq!(tree.children(0), &[e4]);
    tree.delete(0);
    assert_eq!(tree.children(0), &[e4], "deleting the root is a no-op");
}

#[test]
fn clock_at_inherits_from_branch_point() {
    let mut tree = MoveTree::with_clocks(Position::start(), 180_000);
    let e4 = play_uci(&mut tree, 0, "e2e4");
    let e5 = play_uci(&mut tree, e4, "e7e5");
    let d5_variation = play_uci(&mut tree, e4, "d7d5");
    assert_eq!(tree.clock_at(e5), Some((180_000, 180_000)));
    assert_eq!(tree.clock_at(d5_variation), Some((180_000, 180_000)));

    let mut clocked = MoveTree::with_clocks(Position::start(), 180_000);
    let m = clocked.position(0).uci_move("e2e4").unwrap();
    let e4_clocked = clocked.play(0, m, Some((179_000, 180_000)));
    assert_eq!(clocked.clock_at(e4_clocked), Some((179_000, 180_000)));
}

#[test]
fn replaying_a_move_leaves_the_tree_as_it_was() {
    let mut tree = MoveTree::new(Position::start());
    let e4 = play_uci(&mut tree, 0, "e2e4");
    let len = tree.len();
    let again = play_uci(&mut tree, 0, "e2e4");
    assert_eq!(again, e4);
    assert_eq!(tree.len(), len);
}

#[test]
fn delete_keeps_the_other_children_in_order() {
    let mut tree = MoveTree::new(Position::start());
    let e4 = play_uci(&mut tree, 0, "e2e4");
    let d4 = play_uci(&mut tree, 0, "d2d4");
    let c4 = play_uci(&mut tree, 0, "c2c4");
    tree.delete(d4);
    assert_eq!(tree.children(0), &[e4, c4]);
    assert_eq!(tree.parent(d4), Some(0));
}

#[test]
fn promote_of_the_mainline_changes_nothing() {
    let mut tree = MoveTree::new(Position::start());
    let e4 = play_uci(&mut tree, 0, "e2e4");
    let d4 = play_uci(&mut tree, 0, "d2d4");
    tree.promote(e4);
    assert_eq!(tree.children(0), &[e4, d4]);
    tree.promote(0);
    assert_eq!(tree.children(0), &[e4, d4]);
}

#[test]
fn path_from_root_runs_from_root_to_node() {
    let mut tree = MoveTree::new(Position::start());
    let e4 = play_uci(&mut tree, 0, "e2e4");
    let e5 = play_uci(&mut tree, e4, "e7e5");
    let c5 = play_uci(&mut tree, e4, "c7c5");
    assert_eq!(tree.path_from_root(e5), vec![0, e4, e5]);
    assert_eq!(tree.path_from_root(c5), vec![0, e4, c5]);
    assert_eq!(tree.path_from_root(0), vec![0]);
}

#[test]
fn last_mainline_follows_first_children() {
    let mut tree = MoveTree::new(Position::start());
    let e4 = play_uci(&mut tree, 0, "e2e4");
    let e5 = play_uci(&mut tree, e4, "e7e5");
    play_uci(&mut tree, e4, "c7c5");
    assert_eq!(tree.last_mainline_from(0), e5);
    assert_eq!(tree.last_mainline_from(e5), e5);
}

#[test]
fn nodes_record_uci_and_san_with_check_marks() {
    let mut tree = MoveTree::new(Position::start());
    let f3 = play_uci(&mut tree, 0, "f2f3");
    let e5 = play_uci(&mut tree, f3, "e7e5");
    let g4 = play_uci(&mut tree, e5, "g2g4");
    let qh4 = play_uci(&mut tree, g4, "d8h4");
    assert_eq!(tree.san(qh4), "Qh4#");
    assert_eq!(tree.uci(qh4), "d8h4");
    assert_eq!(tree.first_child(g4), Some(qh4));
    assert_eq!(tree.first_child(qh4), None);
}

#[test]
fn replaying_a_move_by_its_san_finds_the_node_holding_its_position() {
    let mut tree = MoveTree::new(Position::start());
    let root = tree.root();
    let e4 = play_uci(&mut tree, root, "e2e4");
    let again = tree.position(root).san_move("e4").unwrap();
    let expected = Position::after(&again).fen();
    assert_eq!(tree.play(root, again, None), e4);
    assert_eq!(tree.len(), 2);
    assert_eq!(tree.position(e4).fen(), expected);
    assert_eq!(tree.san(e4), "e4");
}
