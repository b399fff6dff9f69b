use gambit::openings::{catalog, lookup, position_key, OpeningCatalog};
use gambit::position::Position;
use gambit::tree::{MoveTree, NodeId};

// Rows of the opening database the lookups below rely on, in its
// `eco<TAB>name<TAB>pgn` layout with a header line per volume.
const VOLUME_B: &str = "eco\tname\tpgn\n\
B00\tKing's Pawn Game\t1. e4\n\
B20\tSicilian Defense\t1. e4 c5\n\
B90\tSicilian Defense: Najdorf Variation\t1. e4 c5 2. Nf3 d6 3. d4 cxd4 4. Nxd4 Nf6 5. Nc3 a6\n";
const VOLUME_C: &str = "eco\tname\tpgn\n\
C20\tKing's Pawn Game\t1. e4 e5\n\
C25\tVienna Game\t1. e4 e5 2. Nc3\n\
C29\tVienna Game: Vienna Gambit\t1. e4 e5 2. Nc3 Nf6 3. f4\n";

fn test_catalog() -> OpeningCatalog {
    catalog(&[VOLUME_B, VOLUME_C])
}

fn play(moves: &[&str]) -> (MoveTree, NodeId) {
    let mut tree = MoveTree::new(Position::start());
    let mut cursor = tree.root();
    for san in moves {
        let mv = tree.position(cursor).san_move(san).unwrap();
        cursor = tree.play(cursor, mv, None);
    }
    (tree, cursor)
}

#[test]
fn finds_the_vienna_gambit() {
    let cat = test_catalog();
    let (tree, cursor) = play(&["e4", "e5", "Nc3", "Nf6", "f4"]);
    let (eco, name) = lookup(&tree, cursor, &cat).expect("should find a name");
    assert_eq!(eco, "C29");
    assert!(name.contains("Vienna"), "name was {name:?}");
}

#[test]
fn narrows_from_sicilian_to_najdorf() {
    let cat = test_catalog();
    let (tree, cursor) = play(&["e4", "c5"]);
    let (_, name) = lookup(&tree, cursor, &cat).unwrap();
    assert!(name.contains("Sicilian"), "name was {name:?}");

    let (tree, cursor) = play(&["e4", "c5", "Nf3", "d6", "d4", "cxd4", "Nxd4", "Nf6", "Nc3", "a6"]);
    let (eco, name) = lookup(&tree, cursor, &cat).unwrap();
    assert_eq!(eco, "B90");
    assert!(name.contains("Najdorf"), "name was {name:?}");
}

#[test]
fn falls_back_to_the_nearest_named_ancestor() {
    let cat = test_catalog();
    let (tree, cursor) = play(&["e4", "c5", "Nf3", "d6", "d4", "cxd4", "Nxd4", "Nf6", "Nc3", "a6", "h3"]);
    let (_, name) = lookup(&tree, cursor, &cat).unwrap();
    assert!(name.contains("Sicilian") || name.contains("Najdorf"), "name was {name:?}");
}

#[test]
fn no_name_at_the_start_position() {
    let cat = test_catalog();
    let tree = MoveTree::new(Position::start());
    assert_eq!(lookup(&tree, tree.root(), &cat), None);
}

#[test]
fn position_key_drops_the_move_counters() {
    let p = Position::from_fen("rnbqkbnr/pppppppp/8/8/4P3/8/PPPP1PPP/RNBQKBNR b KQkq - 0 1").unwrap();
    assert_eq!(position_key(&p), "rnbqkbnr/pppppppp/8/8/4P3/8/PPPP1PPP/RNBQKBNR b KQkq -");
}

#[test]
fn first_row_for_a_position_wins_and_bad_rows_are_skipped() {
    let volume = "eco\tname\tpgn\r\n\
A00\tFirst Name\t1. e4\r\n\
A01\tSecond Name\t1. e4\r\n\
A02\tBroken\t1. e5\r\n\
no tabs here\r\n\
A03\tTransposed\t1. Nf3 Nf6 2. e4";
    let cat = catalog(&[volume]);
    assert_eq!(cat.len(), 2);
    let (tree, cursor) = play(&["e4"]);
    let (eco, name) = lookup(&tree, cursor, &cat).unwrap();
    assert_eq!(eco, "A00");
    assert_eq!(name, "First Name");
    let key = position_key(tree.position(cursor));
    assert_eq!(cat.get(&key), Some(("A00".to_string(), "First Name".to_string())));
}
