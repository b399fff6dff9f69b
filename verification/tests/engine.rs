use gambit::engine::{parse_bestmove_line, parse_info_line, pv_first_move, pv_to_san, to_white_pov, Score, SearchState};
use gambit::position::Position;

#[test]
fn parses_cp_score_with_pv() {
    let line = "info depth 14 seldepth 20 multipv 1 score cp 32 nodes 500000 nps 900000 \
                 hashfull 123 tbhits 0 time 250 pv e2e4 e7e5 g1f3 b8c6";
    let info = parse_info_line(line).expect("should parse");
    assert_eq!(info.depth, 14);
    assert_eq!(info.score, Score::Cp(32));
    assert_eq!(info.pv, vec!["e2e4", "e7e5", "g1f3", "b8c6"]);
}

#[test]
fn parses_multipv_index() {
    let line = "info depth 12 multipv 2 score cp -15 pv e7e5 g1f3";
    let info = parse_info_line(line).expect("should parse");
    assert_eq!(info.multipv, 2);
}

#[test]
fn defaults_multipv_to_one_when_absent() {
    let line = "info depth 12 score cp 15 pv e2e4";
    let info = parse_info_line(line).expect("should parse");
    assert_eq!(info.multipv, 1);
}

#[test]
fn parses_mate_score() {
    let line = "info depth 8 score mate 3 pv d1h5 g7g6 h5g6";
    let info = parse_info_line(line).expect("should parse");
    assert_eq!(info.score, Score::Mate(3));
    assert_eq!(info.pv, vec!["d1h5", "g7g6", "h5g6"]);
}

#[test]
fn ignores_bounded_scores() {
    let line = "info depth 10 score cp 900 upperbound pv e2e4";
    assert!(parse_info_line(line).is_none());
}

#[test]
fn ignores_non_info_and_infoless_pv_lines() {
    assert!(parse_info_line("uciok").is_none());
    assert!(parse_info_line("readyok").is_none());
    assert!(parse_info_line("id name Stockfish 18").is_none());
    assert!(parse_info_line("info depth 5 currmove e2e4 currmovenumber 1").is_none());
}

#[test]
fn parses_bestmove() {
    assert_eq!(parse_bestmove_line("bestmove e2e4 ponder e7e5"), Some("e2e4".to_string()));
    assert_eq!(parse_bestmove_line("bestmove e2e4"), Some("e2e4".to_string()));
    assert_eq!(parse_bestmove_line("info depth 1"), None);
}

#[test]
fn pv_to_san_replays_from_the_given_position() {
    let pv = vec!["e2e4".to_string(), "e7e5".to_string(), "g1f3".to_string()];
    let san = pv_to_san(&Position::start(), &pv);
    assert_eq!(san, vec!["e4", "e5", "Nf3"]);
}

#[test]
fn pv_to_san_stops_at_first_bad_move() {
    let pv = vec!["e2e4".to_string(), "e2e9".to_string(), "g1f3".to_string()];
    let san = pv_to_san(&Position::start(), &pv);
    assert_eq!(san, vec!["e4"]);
}

#[test]
fn malformed_score_value_rejects_the_line() {
    assert!(parse_info_line("info depth 3 score cp x pv e2e4").is_none());
    assert!(parse_info_line("info depth 3 score cp").is_none());
}

#[test]
fn unknown_score_kind_and_missing_depth_reject_the_line() {
    assert!(parse_info_line("info depth 3 score wdl 12 pv e2e4").is_none());
    assert!(parse_info_line("info score cp 12 pv e2e4").is_none());
    assert!(parse_info_line("info depth 3 score cp 12 pv").is_none());
}

#[test]
fn lowerbound_keeps_an_earlier_score() {
    let info = parse_info_line("info depth 9 score cp 20 score cp 40 lowerbound pv e2e4").unwrap();
    assert_eq!(info.score, Score::Cp(20));
}

#[test]
fn depth_without_a_number_clears_the_depth() {
    assert!(parse_info_line("info depth 4 depth x score cp 1 pv e2e4").is_none());
    let info = parse_info_line("info depth 4 multipv x score cp 1 pv e2e4").unwrap();
    assert_eq!(info.multipv, 1);
}

#[test]
fn bestmove_needs_its_prefix_and_a_move() {
    assert_eq!(parse_bestmove_line("bestmove "), None);
    assert_eq!(parse_bestmove_line("bestmove   g1f3  "), Some("g1f3".to_string()));
    assert_eq!(parse_bestmove_line("Bestmove e2e4"), None);
}

#[test]
fn white_pov_flips_only_for_black() {
    assert_eq!(to_white_pov(Score::Cp(32), true), Score::Cp(32));
    assert_eq!(to_white_pov(Score::Cp(32), false), Score::Cp(-32));
    assert_eq!(to_white_pov(Score::Mate(-2), false), Score::Mate(2));
    assert_eq!(to_white_pov(to_white_pov(Score::Mate(5), false), false), Score::Mate(5));
}

#[test]
fn pv_first_move_gives_the_squares() {
    let pv = vec!["g1f3".to_string(), "d7d5".to_string()];
    assert_eq!(pv_first_move(&Position::start(), &pv), Some((6, 21)));
    assert_eq!(pv_first_move(&Position::start(), &[]), None);
    assert_eq!(pv_first_move(&Position::start(), &["e2e5".to_string()]), None);
}

#[test]
fn searches_run_one_at_a_time_and_the_latest_request_wins() {
    let (mut s, hello) = SearchState::new();
    assert_eq!(hello, vec!["uci", "setoption name MultiPV value 3", "isready"]);
    let start = "rnbqkbnr/pppppppp/8/8/8/8/PPPPPPPP/RNBQKBNR w KQkq - 0 1";
    let cmds = s.go(start);
    assert_eq!(cmds, vec!["ucinewgame".to_string(), format!("position fen {start}"), "go movetime 700".to_string()]);
    assert_eq!(s.go("fen two"), vec!["stop"]);
    assert_eq!(s.go("fen three"), vec!["stop"]);
    let (fwd, cmds) = s.on_line("info depth 3 score cp 10 pv e2e4");
    assert!(cmds.is_empty());
    let (info, fen) = fwd.unwrap();
    assert_eq!(info.depth, 3);
    assert_eq!(fen, start);
    let (fwd, cmds) = s.on_line("bestmove e2e4");
    assert!(fwd.is_none());
    assert_eq!(cmds[1], "position fen fen three");
    let (_, cmds) = s.on_line("bestmove e7e5");
    assert!(cmds.is_empty());
    assert!(!s.searching);
    let (fwd, cmds) = s.on_line("readyok");
    assert!(fwd.is_none() && cmds.is_empty());
}
