use gambit::position::piece_attacks;
use gambit::board::{
    captured_piece_class, captured_pieces, press_starts_drag, promotion_move, promotion_roles,
    apply_premoves, board_squares, king_in_check, legal_targets, piece_image, resolve_click, square_class, square_name, material_advantage, matching_moves, move_target, pieces, resolve_drop,
    rows_for, toggle_arrow, uci_history_to_san, visual_row_col, BoardPerspective, DropOutcome, Row,
};
use gambit::player::{PlayerRole, Side};
use gambit::position::Position;
use gambit::tree::MoveTree;

#[test]
fn perspective_follows_the_players_side() {
    assert_eq!(BoardPerspective::from(Some(PlayerRole::Player(Side::Black))), BoardPerspective::Black);
    assert_eq!(BoardPerspective::from(Some(PlayerRole::Player(Side::White))), BoardPerspective::White);
    assert_eq!(BoardPerspective::from(Some(PlayerRole::Spectator)), BoardPerspective::White);
    assert_eq!(BoardPerspective::from(None), BoardPerspective::White);
}

#[test]
fn squares_are_drawn_from_the_viewers_side() {
    assert_eq!(visual_row_col(0, BoardPerspective::White), (7, 0));
    assert_eq!(visual_row_col(0, BoardPerspective::Black), (0, 7));
    assert_eq!(visual_row_col(63, BoardPerspective::White), (0, 7));
    assert_eq!(visual_row_col(12, BoardPerspective::Black), (1, 3));
}

#[test]
fn castling_targets_the_kings_square() {
    let p = Position::from_fen("r3k2r/8/8/8/8/8/8/R3K2R w KQkq - 0 1").unwrap();
    let legal = p.legal_moves();
    let short = matching_moves(&legal, 4, 6);
    assert_eq!(short.len(), 1);
    assert_eq!(short[0].san(), "O-O");
    assert_eq!(move_target(&short[0]), Some(6));
    let long = matching_moves(&legal, 4, 2);
    assert_eq!(long.len(), 1);
    assert_eq!(long[0].san(), "O-O-O");
}

#[test]
fn promotion_matches_once_per_piece() {
    let p = Position::from_fen("8/P7/8/8/8/8/8/k6K w - - 0 1").unwrap();
    let legal = p.legal_moves();
    let promos = matching_moves(&legal, 48, 56);
    assert_eq!(promos.len(), 4);
    assert!(matching_moves(&legal, 48, 40).is_empty());
}

#[test]
fn material_advantage_counts_captures() {
    let start = Position::start();
    assert_eq!(material_advantage(&start, Side::White), 0);
    let p = Position::from_fen("rnb1kbnr/pppppppp/8/8/8/8/PPPP1PPP/RNBQKBNR w KQkq - 0 1").unwrap();
    assert_eq!(material_advantage(&p, Side::White), 8);
    assert_eq!(material_advantage(&p, Side::Black), -8);
}

#[test]
fn history_replays_as_san_and_keeps_bad_moves_raw() {
    let moves = vec!["e2e4".to_string(), "e7e5".to_string(), "zz".to_string(), "g1f3".to_string(), "e1e2".to_string()];
    assert_eq!(uci_history_to_san(&moves), vec!["e4", "e5", "zz", "Nf3", "e1e2"]);
}

#[test]
fn rows_pair_white_and_black_moves() {
    let mut tree = MoveTree::new(Position::start());
    let mut at = 0;
    for uci in ["e2e4", "e7e5", "g1f3"] {
        let m = tree.position(at).uci_move(uci).unwrap();
        at = tree.play(at, m, None);
    }
    let c5 = tree.position(1).uci_move("c7c5").unwrap();
    tree.play(1, c5, None);
    let mut main = MoveTree::new(Position::start());
    let mut at2 = 0;
    for uci in ["e2e4", "e7e5", "g1f3"] {
        let m = main.position(at2).uci_move(uci).unwrap();
        at2 = main.play(at2, m, None);
    }
    let straight = rows_for(&main.flatten_tree().items);
    assert_eq!(straight, vec![Row::Pair { item: 0, start: 0, end: 2 }, Row::Pair { item: 0, start: 2, end: 3 }]);
    let line = tree.flatten_tree();
    let rows = rows_for(&line.items);
    assert_eq!(
        rows,
        vec![
            Row::Pair { item: 0, start: 0, end: 1 },
            Row::Nested { item: 1 },
            Row::Pair { item: 2, start: 0, end: 1 },
            Row::Pair { item: 2, start: 1, end: 2 },
        ]
    );
}

#[test]
fn board_squares_follow_the_perspective() {
    let w = board_squares(BoardPerspective::White);
    assert_eq!(&w[..3], &[56, 57, 58]);
    assert_eq!(w[63], 7);
    let b = board_squares(BoardPerspective::Black);
    assert_eq!(&b[..3], &[7, 6, 5]);
    assert_eq!(b[63], 56);
}

#[test]
fn right_drags_toggle_arrows() {
    let mut arrows = vec![];
    toggle_arrow(&mut arrows, 12, Some(28));
    toggle_arrow(&mut arrows, 6, Some(21));
    assert_eq!(arrows, vec![(12, 28), (6, 21)]);
    toggle_arrow(&mut arrows, 12, Some(28));
    assert_eq!(arrows, vec![(6, 21)]);
    toggle_arrow(&mut arrows, 6, Some(6));
    assert!(arrows.is_empty());
    toggle_arrow(&mut arrows, 6, Some(21));
    toggle_arrow(&mut arrows, 6, None);
    assert!(arrows.is_empty());
}

#[test]
fn pieces_and_premoves() {
    let start = Position::start();
    let b = pieces(&start);
    assert_eq!(b[0], Some('R'));
    assert_eq!(b[4], Some('K'));
    assert_eq!(b[12], Some('P'));
    assert_eq!(b[60], Some('k'));
    assert_eq!(b[27], None);
    let after = apply_premoves(&b, &[(12, 28), (28, 36), (30, 30)]);
    assert_eq!(after[12], None);
    assert_eq!(after[36], Some('P'));
    let pawn_to_last = Position::from_fen("8/P7/8/8/8/8/8/k6K w - - 0 1").unwrap();
    let promoted = apply_premoves(&pieces(&pawn_to_last), &[(48, 56)]);
    assert_eq!(promoted[56], Some('Q'));
}

#[test]
fn drops_decide_between_move_promotion_and_premove() {
    let start = Position::start();
    let legal = start.legal_moves();
    assert!(matches!(resolve_drop(&legal, &[20, 28], 12, None, true), DropOutcome::Deselect));
    assert!(matches!(resolve_drop(&legal, &[20, 28], 12, Some(36), true), DropOutcome::Nothing));
    assert!(matches!(resolve_drop(&legal, &[20, 28], 12, Some(28), true), DropOutcome::Play(m) if m.uci() == "e2e4"));
    assert!(matches!(resolve_drop(&legal, &[20, 28], 12, Some(28), false), DropOutcome::Premove { from: 12, to: 28 }));
    let p = Position::from_fen("8/P7/8/8/8/8/8/k6K w - - 0 1").unwrap();
    assert!(matches!(resolve_drop(&p.legal_moves(), &[56], 48, Some(56), true), DropOutcome::ChoosePromotion { from: 48, to: 56 }));
}

#[test]
fn targets_for_a_selected_piece() {
    let start = Position::start();
    let mut t = legal_targets(&start, Some(12), &[]);
    t.sort();
    assert_eq!(t, vec![20, 28]);
    assert!(legal_targets(&start, None, &[]).is_empty());
    assert!(legal_targets(&start, Some(27), &[]).is_empty());
    let mut knight = legal_targets(&start, Some(62), &[]);
    knight.sort();
    assert_eq!(knight, vec![45, 47, 52]);
    let mut premoved = legal_targets(&start, Some(28), &[(12, 28)]);
    premoved.sort();
    assert_eq!(premoved, vec![35, 36, 37]);
}

#[test]
fn square_rendering_helpers() {
    assert_eq!(piece_image('P'), Some("/piece/alpha/wP.svg".to_string()));
    assert_eq!(piece_image('n'), Some("/piece/alpha/bN.svg".to_string()));
    assert_eq!(piece_image('x'), None);
    assert_eq!(square_name(0), "a1");
    assert_eq!(square_name(28), "e4");
    assert_eq!(square_name(63), "h8");
    assert_eq!(square_class(0, None, None, &[]), "bg-green-800");
    assert_eq!(square_class(1, None, None, &[]), "bg-white");
    assert_eq!(square_class(12, None, Some((12, 28)), &[]), "bg-green-300");
    assert_eq!(square_class(20, None, Some((12, 20)), &[]), "bg-green-600");
    assert_eq!(square_class(28, Some(28), None, &[(28, 36)]), "bg-gray-300");
    assert_eq!(square_class(20, None, None, &[(12, 20)]), "bg-gray-500");
    let mate = Position::from_fen("rnb1kbnr/pppp1ppp/8/4p3/6Pq/5P2/PPPPP2P/RNBQKBNR w KQkq - 1 3").unwrap();
    assert!(king_in_check(&mate, Some('K')));
    assert!(!king_in_check(&mate, Some('k')));
    assert!(!king_in_check(&Position::start(), Some('K')));
    let start = Position::start();
    assert!(matches!(resolve_click(&start.legal_moves(), &[20, 28], None, 28, true), DropOutcome::Nothing));
    assert!(matches!(resolve_click(&start.legal_moves(), &[20, 28], Some(12), 20, true), DropOutcome::Play(m) if m.uci() == "e2e3"));
}

#[test]
fn captured_pieces_list_what_a_side_lost() {
    let pos = Position::from_fen("rnb1kbnr/ppp2ppp/8/8/8/8/PPP2PPP/RNBQKB1R w KQkq - 0 5").unwrap();
    assert_eq!(captured_pieces(&pos, Side::White), vec![('P', true), ('P', false), ('N', true)]);
    assert_eq!(captured_pieces(&pos, Side::Black), vec![('P', true), ('P', false), ('Q', true)]);
    assert!(captured_pieces(&Position::start(), Side::White).is_empty());
    assert_eq!(captured_piece_class(0, true), "w-4 h-4");
    assert_eq!(captured_piece_class(2, true), "w-4 h-4 ml-0.5");
    assert_eq!(captured_piece_class(1, false), "w-4 h-4 -ml-3");
}

#[test]
fn promotion_choice_picks_the_matching_move() {
    let pos = Position::from_fen("8/4P3/8/8/8/8/k7/4K3 w - - 0 1").unwrap();
    let legal = pos.legal_moves();
    let e7 = 52u8;
    let e8 = 60u8;
    assert_eq!(promotion_move(&legal, e7, e8, 'n').unwrap().uci(), "e7e8n");
    assert_eq!(promotion_move(&legal, e7, e8, 'q').unwrap().uci(), "e7e8q");
    assert!(promotion_move(&legal, e7, e8, 'k').is_none());
    assert_eq!(promotion_roles(), vec![('q', 'Q'), ('n', 'N'), ('r', 'R'), ('b', 'B')]);
}

#[test]
fn pressing_a_square_starts_a_drag_only_when_allowed() {
    assert!(press_starts_drag(0, None, &[], 12, true, true));
    assert!(!press_starts_drag(2, None, &[], 12, true, true));
    assert!(!press_starts_drag(0, Some(4), &[12, 20], 12, true, true));
    assert!(press_starts_drag(0, Some(4), &[20], 12, true, true));
    assert!(!press_starts_drag(0, None, &[], 12, false, true));
    assert!(!press_starts_drag(0, None, &[], 12, true, false));
}

#[test]
fn drawing_an_arrow_twice_takes_it_away() {
    let mut arrows: Vec<(u8, u8)> = vec![(12, 28), (6, 21)];
    toggle_arrow(&mut arrows, 1, Some(18));
    assert_eq!(arrows, vec![(12, 28), (6, 21), (1, 18)]);
    toggle_arrow(&mut arrows, 1, Some(18));
    assert_eq!(arrows, vec![(12, 28), (6, 21)]);
    toggle_arrow(&mut arrows, 12, Some(28));
    assert_eq!(arrows, vec![(6, 21)]);
}

#[test]
fn piece_attacks_on_an_empty_board() {
    assert_eq!(piece_attacks(0, 'N'), vec![10, 17]);
    assert_eq!(piece_attacks(12, 'P'), vec![19, 21]);
    assert_eq!(piece_attacks(12, 'p'), vec![3, 5]);
    assert_eq!(piece_attacks(56, 'P'), Vec::<u8>::new());
    assert_eq!(piece_attacks(0, 'R'), vec![1, 2, 3, 4, 5, 6, 7, 8, 16, 24, 32, 40, 48, 56]);
    assert_eq!(piece_attacks(0, 'b'), vec![9, 18, 27, 36, 45, 54, 63]);
    assert_eq!(piece_attacks(7, 'K'), vec![6, 14, 15]);
    assert_eq!(piece_attacks(27, 'Q').len(), 27);
    assert_eq!(piece_attacks(27, 'x'), Vec::<u8>::new());
}

#[test]
fn uci_grammar() {
    for ok in ["e2e4", "e7e8q", "a7a8N", "P@e4", "n@h8", "0000"] {
        assert!(Position::is_uci_syntax(ok), "{ok}");
    }
    for bad in ["", "e2e", "e2e9", "i2e4", "e7e8x", "X@e4", "e2e4qq", "0001", "é2e4"] {
        assert!(!Position::is_uci_syntax(bad), "{bad}");
    }
}
