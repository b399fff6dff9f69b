//! Reading the output of a UCI chess engine (`info` and `bestmove` lines)
//! and turning its principal variations into moves on the board.

use vstd::prelude::*;
use crate::position::{move_squares, uci_step, Position};
use crate::text::{chars_of, has_prefix, int_text, is_digit, lemma_nat_text_reads_back, nat_text, parse_i32, parse_i32_in, parse_u32, parse_u32_in, push_str, same_chars, split_words, string_of, words};

verus! {

/// An evaluation: centipawns, or moves to a forced mate (negative when the
/// side it is reckoned for is the one getting mated).
#[derive(Debug, Clone, Copy, PartialEq, Eq, Structural)]
pub enum Score {
    Cp(i32),
    Mate(i32),
}

/// One settled `info` line: search depth, evaluation from the side to move's
/// point of view, which candidate line it is (1 = best) and the line itself
/// as UCI moves.
#[derive(Debug, Clone)]
pub struct EngineInfo {
    pub depth: u32,
    pub score: Score,
    pub multipv: u32,
    pub pv: Vec<String>,
}

pub ghost struct EngineInfoView {
    pub depth: u32,
    pub score: Score,
    pub multipv: u32,
    pub pv: Seq<Seq<char>>,
}

impl View for EngineInfo {
    type V = EngineInfoView;

    open spec fn view(&self) -> EngineInfoView {
        EngineInfoView {
            depth: self.depth,
            score: self.score,
            multipv: self.multipv,
            pv: self.pv@.map_values(|s: String| s@),
        }
    }
}

/// What the scan of an `info` line's tokens has collected.
pub ghost struct InfoFields {
    pub depth: Option<u32>,
    pub score: Option<Score>,
    pub multipv: Option<u32>,
    pub pv: Seq<Seq<char>>,
}

/// The token at `j` read as a `u32`, if there is one and it parses.
pub open spec fn u32_at(rest: Seq<Seq<char>>, j: int) -> Option<u32> {
    if 0 <= j < rest.len() { parse_u32(rest[j]) } else { None }
}

/// The index `j`, but no further than the end of `rest`.
pub open spec fn clamp_to(rest: Seq<Seq<char>>, j: int) -> int {
    if j > rest.len() { rest.len() as int } else { j }
}

/// Scanning the tokens after `info` from `i`: `depth N` and `multipv N`
/// set (or, when `N` is missing or malformed, clear) their field;
/// `score cp|mate V` sets the score unless followed by `upperbound` or
/// `lowerbound`, and gives up on the whole line when `V` is missing or
/// malformed; `pv` takes every remaining token as the line; any other token
/// is skipped.
pub open spec fn info_scan(rest: Seq<Seq<char>>, i: int, f: InfoFields) -> Option<InfoFields>
    decreases rest.len() - i,
{
    if 0 <= i < rest.len() {
        let t = rest[i];
        if t == "depth"@ {
            info_scan(rest, clamp_to(rest, i + 2), InfoFields { depth: u32_at(rest, i + 1), ..f })
        } else if t == "multipv"@ {
            info_scan(rest, clamp_to(rest, i + 2), InfoFields { multipv: u32_at(rest, i + 1), ..f })
        } else if t == "score"@ {
            if i + 2 < rest.len() {
                match parse_i32(rest[i + 2]) {
                    None => None,
                    Some(v) => {
                        let bounded = i + 3 < rest.len() && (rest[i + 3] == "upperbound"@ || rest[i + 3] == "lowerbound"@);
                        let score = if bounded {
                            f.score
                        } else if rest[i + 1] == "cp"@ {
                            Some(Score::Cp(v))
                        } else if rest[i + 1] == "mate"@ {
                            Some(Score::Mate(v))
                        } else {
                            None
                        };
                        info_scan(rest, i + (if bounded { 4int } else { 3int }), InfoFields { score, ..f })
                    },
                }
            } else {
                None
            }
        } else if t == "pv"@ {
            Some(InfoFields { pv: rest.subrange(i + 1, rest.len() as int), ..f })
        } else {
            info_scan(rest, i + 1, f)
        }
    } else {
        Some(f)
    }
}

/// What `parse_info_line` gives for `line`.
pub open spec fn info_of(line: Seq<char>) -> Option<EngineInfoView> {
    let ws = words(line);
    if ws.len() == 0 || ws[0] != "info"@ {
        None
    } else {
        match info_scan(ws.drop_first(), 0, InfoFields { depth: None, score: None, multipv: None, pv: Seq::empty() }) {
            None => None,
            Some(f) => {
                if f.pv.len() == 0 {
                    None
                } else {
                    match (f.depth, f.score) {
                        (Some(d), Some(s)) => Some(EngineInfoView {
                            depth: d,
                            score: s,
                            multipv: match f.multipv { Some(m) => m, None => 1 },
                            pv: f.pv,
                        }),
                        _ => None,
                    }
                }
            }
        }
    }
}

fn u32_token(rest: &Vec<Vec<char>>, j: usize) -> (r: Option<u32>)
    ensures
        r == u32_at(rest@.map_values(|w: Vec<char>| w@), j as int),
{
    if j < rest.len() {
        let w = &rest[j];
        let r = parse_u32_in(w, 0, w.len());
        assert(w@.subrange(0, w@.len() as int) =~= w@);
        r
    } else {
        None
    }
}

fn strings_of(ws: &Vec<Vec<char>>, from: usize) -> (r: Vec<String>)
    requires
        from <= ws@.len(),
    ensures
        r@.map_values(|s: String| s@) == ws@.map_values(|w: Vec<char>| w@).subrange(from as int, ws@.len() as int),
{
    let mut r: Vec<String> = Vec::new();
    let mut k = from;
    while k < ws.len()
        invariant
            from <= k <= ws@.len(),
            r@.len() == k - from,
            forall|j: int| 0 <= j < r@.len() ==> (#[trigger] r@[j])@ == ws@[from + j]@,
        decreases ws@.len() - k,
    {
        r.push(string_of(&ws[k]));
        k = k + 1;
    }
    assert(r@.map_values(|s: String| s@) =~= ws@.map_values(|w: Vec<char>| w@).subrange(from as int, k as int));
    r
}

/// Reads one `info ... pv ...` line. `None` for any other engine output,
/// for `info` lines without a `pv` or without depth and score, and for
/// scores qualified `upperbound`/`lowerbound`; `multipv` defaults to 1.
pub fn parse_info_line(line: &str) -> (r: Option<EngineInfo>)
    ensures
        match r {
            Some(info) => info_of(line@) == Some(info@),
            None => info_of(line@) is None,
        },
{
    let chars = chars_of(line);
    let ws = split_words(&chars);
    let ghost all = ws@.map_values(|w: Vec<char>| w@);
    assert(all =~= words(line@));
    if ws.len() == 0 || !same_chars(&ws[0], "info") {
        return None;
    }
    let mut rest: Vec<Vec<char>> = Vec::new();
    let mut k: usize = 1;
    while k < ws.len()
        invariant
            1 <= k <= ws@.len(),
            rest@.len() == k - 1,
            forall|j: int| 0 <= j < rest@.len() ==> (#[trigger] rest@[j])@ == ws@[j + 1]@,
        decreases ws@.len() - k,
    {
        let w = ws[k].clone();
        rest.push(w);
        k = k + 1;
    }
    let ghost rv = rest@.map_values(|w: Vec<char>| w@);
    assert(rv =~= all.drop_first());
    let mut depth: Option<u32> = None;
    let mut score: Option<Score> = None;
    let mut multipv: Option<u32> = None;
    let mut pv: Vec<String> = Vec::new();
    assert(pv@.map_values(|s: String| s@) =~= Seq::<Seq<char>>::empty());
    let n = rest.len();
    let mut i: usize = 0;
    while i < n
        invariant_except_break
            info_scan(rv, 0, InfoFields { depth: None, score: None, multipv: None, pv: Seq::empty() })
                == info_scan(rv, i as int, InfoFields { depth, score, multipv, pv: pv@.map_values(|s: String| s@) }),
            pv@.len() == 0,
        invariant
            rv == rest@.map_values(|w: Vec<char>| w@),
            rv == words(line@).drop_first(),
            words(line@).len() > 0,
            words(line@)[0] == "info"@,
            n == rest@.len(),
        ensures
            info_scan(rv, 0, InfoFields { depth: None, score: None, multipv: None, pv: Seq::empty() })
                == Some(InfoFields { depth, score, multipv, pv: pv@.map_values(|s: String| s@) }),
        decreases n - i,
    {
        let t = &rest[i];
        assert(t@ == rv[i as int]);
        if same_chars(t, "depth") {
            depth = u32_token(&rest, i + 1);
            i = if n - i < 2 { n } else { i + 2 };
        } else if same_chars(t, "multipv") {
            multipv = u32_token(&rest, i + 1);
            i = if n - i < 2 { n } else { i + 2 };
        } else if same_chars(t, "score") {
            if n - i <= 2 {
                return None;
            }
            let vw = &rest[i + 2];
            assert(vw@.subrange(0, vw@.len() as int) =~= vw@);
            let v = match parse_i32_in(vw, 0, vw.len()) {
                Some(v) => v,
                None => { return None; },
            };
            let bounded = i + 3 < n && (same_chars(&rest[i + 3], "upperbound") || same_chars(&rest[i + 3], "lowerbound"));
            if !bounded {
                let kind = &rest[i + 1];
                score = if same_chars(kind, "cp") {
                    Some(Score::Cp(v))
                } else if same_chars(kind, "mate") {
                    Some(Score::Mate(v))
                } else {
                    None
                };
            }
            i = if bounded { i + 4 } else { i + 3 };
        } else if same_chars(t, "pv") {
            pv = strings_of(&rest, i + 1);
            break;
        } else {
            i = i + 1;
        }
    }
    if pv.len() == 0 {
        return None;
    }
    match (depth, score) {
        (Some(d), Some(s)) => Some(EngineInfo { depth: d, score: s, multipv: match multipv { Some(m) => m, None => 1 }, pv }),
        _ => None,
    }
}

/// What `parse_bestmove_line` gives for `line`: the first word after a
/// leading `bestmove `.
pub open spec fn bestmove_of(line: Seq<char>) -> Option<Seq<char>> {
    let p = "bestmove "@;
    if p.len() <= line.len() && line.subrange(0, p.len() as int) == p {
        let ws = words(line.subrange(p.len() as int, line.len() as int));
        if ws.len() > 0 { Some(ws[0]) } else { None }
    } else {
        None
    }
}

/// Reads a `bestmove <uci> [ponder <uci>]` line, the engine's signal that a
/// search has ended, giving the move.
pub fn parse_bestmove_line(line: &str) -> (r: Option<String>)
    ensures
        match r {
            Some(m) => bestmove_of(line@) == Some(m@),
            None => bestmove_of(line@) is None,
        },
{
    let chars = chars_of(line);
    if !has_prefix(&chars, "bestmove ") {
        return None;
    }
    let p = chars_of("bestmove ");
    let mut rest: Vec<char> = Vec::new();
    crate::text::push_range(&mut rest, &chars, p.len(), chars.len());
    assert(rest@ =~= line@.subrange("bestmove "@.len() as int, line@.len() as int));
    let ws = split_words(&rest);
    if ws.len() == 0 {
        return None;
    }
    Some(string_of(&ws[0]))
}

/// The SANs of the UCI moves `pv[i..]` played one after another from
/// `fen`, up to the first one that does not parse or is not legal.
pub open spec fn pv_sans(fen: Seq<char>, pv: Seq<Seq<char>>, i: int) -> Seq<Seq<char>>
    decreases pv.len() - i,
{
    if 0 <= i < pv.len() {
        match uci_step(fen, pv[i]) {
            Some((_u, san, after)) => seq![san] + pv_sans(after, pv, i + 1),
            None => Seq::empty(),
        }
    } else {
        Seq::empty()
    }
}

/// Replays a principal variation from `start` as SAN, stopping at the
/// first move that does not parse or apply (a line can arrive cut short).
pub fn pv_to_san(start: &Position, pv: &[String]) -> (out: Vec<String>)
    ensures
        out@.map_values(|s: String| s@) == pv_sans(start@, pv@.map_values(|s: String| s@), 0),
{
    let ghost pvs = pv@.map_values(|s: String| s@);
    let mut pos = start.clone();
    let mut out: Vec<String> = Vec::new();
    let mut i: usize = 0;
    while i < pv.len()
        invariant
            pvs == pv@.map_values(|s: String| s@),
            i <= pv@.len(),
            pv_sans(start@, pvs, 0) == out@.map_values(|s: String| s@) + pv_sans(pos@, pvs, i as int),
        decreases pv@.len() - i,
    {
        assert(pv[i as int]@ == pvs[i as int]);
        match pos.uci_move(pv[i].as_str()) {
            None => {
                i = pv.len();
            },
            Some(m) => {
                let ghost before = out@.map_values(|s: String| s@);
                out.push(m.san());
                pos = Position::after(&m);
                assert(out@.map_values(|s: String| s@) =~= before.push(m@.san));
                i = i + 1;
            },
        }
    }
    assert(out@.map_values(|s: String| s@) =~= out@.map_values(|s: String| s@) + Seq::<Seq<char>>::empty());
    out
}

/// The origin and destination squares (0 = a1 .. 63 = h8) of the first
/// move of `pv` from `start`, for drawing a best-move arrow; `None` when
/// `pv` is empty or its first move does not parse or apply.
pub fn pv_first_move(start: &Position, pv: &[String]) -> (r: Option<(u8, u8)>)
    ensures
        r == (if pv@.len() == 0 { None } else { move_squares(start@, pv@[0]@) }),
{
    if pv.len() == 0 {
        return None;
    }
    start.move_squares(pv[0].as_str())
}

/// A score from White's point of view, given one from the side to move's.
pub open spec fn white_pov(score: Score, white_to_move: bool) -> Score {
    match score {
        Score::Cp(cp) => Score::Cp(if white_to_move { cp } else { (-cp) as i32 }),
        Score::Mate(m) => Score::Mate(if white_to_move { m } else { (-m) as i32 }),
    }
}

/// Converts a score from the side to move's point of view to White's.
pub fn to_white_pov(score: Score, white_to_move: bool) -> (r: Score)
    requires
        !white_to_move ==> match score {
            Score::Cp(v) => v != i32::MIN,
            Score::Mate(v) => v != i32::MIN,
        },
    ensures
        r == white_pov(score, white_to_move),
{
    match score {
        Score::Cp(cp) => Score::Cp(if white_to_move { cp } else { -cp }),
        Score::Mate(m) => Score::Mate(if white_to_move { m } else { -m }),
    }
}

/// Converting to White's point of view twice from the same side gives the
/// score back: with White to move it changes nothing, with Black it flips
/// the sign.
pub proof fn white_pov_is_an_involution(score: Score, white_to_move: bool)
    requires
        match score {
            Score::Cp(v) => v != i32::MIN,
            Score::Mate(v) => v != i32::MIN,
        },
    ensures
        white_pov(white_pov(score, white_to_move), white_to_move) == score,
        white_to_move ==> white_pov(score, white_to_move) == score,
{
}

/// The commands that start a fresh search of `fen`: a new game (each
/// search is unrelated to the last), the position, and a 700 ms search.
pub open spec fn search_commands(fen: Seq<char>) -> Seq<Seq<char>> {
    seq!["ucinewgame"@, "position fen "@ + fen, "go movetime 700"@]
}

/// The commands sent when the engine starts: the UCI handshake, three
/// candidate lines, and a readiness check.
pub open spec fn handshake_commands() -> Seq<Seq<char>> {
    seq!["uci"@, "setoption name MultiPV value 3"@, "isready"@]
}

/// The bookkeeping that keeps at most one search running: whether one
/// runs, the most recent position asked for while it ran, and the position
/// the running search is for (so its lines are read against it).
pub struct SearchState {
    pub searching: bool,
    pub pending_fen: Option<String>,
    pub current_fen: Option<String>,
}

pub ghost struct SearchView {
    pub searching: bool,
    pub pending_fen: Option<Seq<char>>,
    pub current_fen: Option<Seq<char>>,
}

impl View for SearchState {
    type V = SearchView;

    open spec fn view(&self) -> SearchView {
        SearchView {
            searching: self.searching,
            pending_fen: match self.pending_fen {
                Some(f) => Some(f@),
                None => None,
            },
            current_fen: match self.current_fen {
                Some(f) => Some(f@),
                None => None,
            },
        }
    }
}

pub open spec fn strings_view(v: Seq<String>) -> Seq<Seq<char>> {
    v.map_values(|s: String| s@)
}

fn command(text: &str) -> (s: String)
    ensures
        s@ == text@,
{
    let mut out: Vec<char> = Vec::new();
    push_str(&mut out, text);
    string_of(&out)
}

fn start_search(state: &mut SearchState, fen: &str) -> (cmds: Vec<String>)
    ensures
        final(state)@ == (SearchView { current_fen: Some(fen@), ..old(state)@ }),
        strings_view(cmds@) == search_commands(fen@),
{
    state.current_fen = Some(command(fen));
    let mut cmds: Vec<String> = Vec::new();
    cmds.push(command("ucinewgame"));
    let mut pos: Vec<char> = Vec::new();
    push_str(&mut pos, "position fen ");
    push_str(&mut pos, fen);
    cmds.push(string_of(&pos));
    cmds.push(command("go movetime 700"));
    assert(strings_view(cmds@) =~= search_commands(fen@));
    cmds
}

impl SearchState {
    /// An idle engine and the handshake to send it.
    pub fn new() -> (r: (SearchState, Vec<String>))
        ensures
            r.0@ == (SearchView { searching: false, pending_fen: None, current_fen: None }),
            strings_view(r.1@) == handshake_commands(),
    {
        let mut cmds: Vec<String> = Vec::new();
        cmds.push(command("uci"));
        cmds.push(command("setoption name MultiPV value 3"));
        cmds.push(command("isready"));
        assert(strings_view(cmds@) =~= handshake_commands());
        (SearchState { searching: false, pending_fen: None, current_fen: None }, cmds)
    }

    /// Asks for a search of `fen`: started at once when the engine is idle;
    /// otherwise the running search is told to stop and `fen` replaces any
    /// earlier pending position.
    pub fn go(&mut self, fen: &str) -> (cmds: Vec<String>)
        ensures
            old(self)@.searching ==> final(self)@ == (SearchView { pending_fen: Some(fen@), ..old(self)@ })
                && strings_view(cmds@) == seq!["stop"@],
            !old(self)@.searching ==> final(self)@ == (SearchView { searching: true, current_fen: Some(fen@), ..old(self)@ })
                && strings_view(cmds@) == search_commands(fen@),
    {
        if self.searching {
            self.pending_fen = Some(command(fen));
            let mut cmds: Vec<String> = Vec::new();
            cmds.push(command("stop"));
            assert(strings_view(cmds@) =~= seq!["stop"@]);
            cmds
        } else {
            self.searching = true;
            start_search(self, fen)
        }
    }

    /// Handles a line from the engine: an `info` line is handed on with the
    /// position its search is for; a `bestmove` line ends the search, and
    /// the pending position (if any) is searched next, else the engine goes
    /// idle; anything else is ignored.
    pub fn on_line(&mut self, line: &str) -> (r: (Option<(EngineInfo, String)>, Vec<String>))
        ensures
            match info_of(line@) {
                Some(i) => final(self)@ == old(self)@ && r.1@.len() == 0 && match old(self)@.current_fen {
                    Some(f) => r.0 matches Some((info, fen)) && info@ == i && fen@ == f,
                    None => r.0 is None,
                },
                None => r.0 is None && if bestmove_of(line@) is Some {
                    match old(self)@.pending_fen {
                        Some(p) => final(self)@ == (SearchView { pending_fen: None, current_fen: Some(p), ..old(self)@ })
                            && strings_view(r.1@) == search_commands(p),
                        None => final(self)@ == (SearchView { searching: false, ..old(self)@ }) && r.1@.len() == 0,
                    }
                } else {
                    final(self)@ == old(self)@ && r.1@.len() == 0
                },
            },
    {
        match parse_info_line(line) {
            Some(info) => {
                let fwd = match &self.current_fen {
                    Some(f) => Some((info, f.clone())),
                    None => None,
                };
                return (fwd, Vec::new());
            },
            None => {},
        }
        if parse_bestmove_line(line).is_some() {
            let pending = self.pending_fen.take();
            match pending {
                Some(p) => {
                    let cmds = start_search(self, p.as_str());
                    (None, cmds)
                },
                None => {
                    self.searching = false;
                    (None, Vec::new())
                },
            }
        } else {
            (None, Vec::new())
        }
    }
}

/// Every `i32` written in decimal (a `-` before a negative one) reads back
/// as itself.
pub proof fn int_text_reads_back(v: i32)
    ensures
        parse_i32(int_text(v as int)) == Some(v),
{
    if v < 0 {
        let n = (-(v as int)) as nat;
        lemma_nat_text_reads_back(n);
        let t = int_text(v as int);
        assert(t.drop_first() =~= nat_text(n));
    } else {
        lemma_nat_text_reads_back(v as nat);
        let t = nat_text(v as nat);
        assert(is_digit(t[0]));
    }
}

/// An engine line `info depth D score cp V pv M...` (any depth token that
/// reads as a `u32`, any score token that reads as an `i32`, at least one
/// move) is read as depth `D`, the centipawn score `V` exactly as written,
/// sign included, candidate line 1 and the moves `M...`; likewise with
/// `mate` for a mate score.
pub proof fn info_line_keeps_its_score(
    line: Seq<char>,
    depth_token: Seq<char>,
    d: u32,
    kind: Seq<char>,
    value_token: Seq<char>,
    v: i32,
    pv: Seq<Seq<char>>,
)
    requires
        kind == "cp"@ || kind == "mate"@,
        words(line) == seq!["info"@, "depth"@, depth_token, "score"@, kind, value_token, "pv"@] + pv,
        parse_u32(depth_token) == Some(d),
        parse_i32(value_token) == Some(v),
        pv.len() > 0,
    ensures
        info_of(line) == Some(EngineInfoView {
            depth: d,
            score: if kind == "cp"@ { Score::Cp(v) } else { Score::Mate(v) },
            multipv: 1,
            pv,
        }),
{
    reveal_strlit("info");
    reveal_strlit("depth");
    reveal_strlit("score");
    reveal_strlit("multipv");
    reveal_strlit("pv");
    reveal_strlit("cp");
    reveal_strlit("mate");
    reveal_strlit("upperbound");
    reveal_strlit("lowerbound");
    let ws = words(line);
    let rest = ws.drop_first();
    assert(rest =~= seq!["depth"@, depth_token, "score"@, kind, value_token, "pv"@] + pv);
    assert(rest[0] == "depth"@);
    assert(rest[2] == "score"@);
    assert(rest[3] == kind);
    assert(rest[4] == value_token);
    assert(rest[5] == "pv"@);
    assert(rest.subrange(6, rest.len() as int) =~= pv);
    let f0 = InfoFields { depth: None, score: None, multipv: None, pv: Seq::empty() };
    let f1 = InfoFields { depth: Some(d), ..f0 };
    let sc = if kind == "cp"@ { Score::Cp(v) } else { Score::Mate(v) };
    let f2 = InfoFields { score: Some(sc), ..f1 };
    assert("score"@ != "depth"@);
    assert("score"@ != "multipv"@);
    assert("pv"@ != "depth"@);
    assert("pv"@ != "multipv"@);
    assert("pv"@ != "score"@);
    assert("pv"@ != "upperbound"@);
    assert("pv"@ != "lowerbound"@);
    assert("mate"@ != "cp"@);
    assert(info_scan(rest, 5, f2) == Some(InfoFields { pv, ..f2 }));
    assert(info_scan(rest, 2, f1) == info_scan(rest, 5, f2));
    assert(info_scan(rest, 0, f0) == info_scan(rest, 2, f1));
}

/// With a `multipv K` before the score, the line is read as candidate `K`,
/// its score still exactly as written.
pub proof fn info_line_keeps_its_candidate(
    line: Seq<char>,
    depth_token: Seq<char>,
    d: u32,
    multipv_token: Seq<char>,
    k: u32,
    kind: Seq<char>,
    value_token: Seq<char>,
    v: i32,
    pv: Seq<Seq<char>>,
)
    requires
        kind == "cp"@ || kind == "mate"@,
        words(line) == seq!["info"@, "depth"@, depth_token, "multipv"@, multipv_token, "score"@, kind, value_token, "pv"@]
            + pv,
        parse_u32(depth_token) == Some(d),
        parse_u32(multipv_token) == Some(k),
        parse_i32(value_token) == Some(v),
        pv.len() > 0,
    ensures
        info_of(line) == Some(EngineInfoView {
            depth: d,
            score: if kind == "cp"@ { Score::Cp(v) } else { Score::Mate(v) },
            multipv: k,
            pv,
        }),
{
    reveal_strlit("info");
    reveal_strlit("depth");
    reveal_strlit("score");
    reveal_strlit("multipv");
    reveal_strlit("pv");
    reveal_strlit("cp");
    reveal_strlit("mate");
    reveal_strlit("upperbound");
    reveal_strlit("lowerbound");
    let ws = words(line);
    let rest = ws.drop_first();
    assert(rest =~= seq!["depth"@, depth_token, "multipv"@, multipv_token, "score"@, kind, value_token, "pv"@] + pv);
    assert(rest[0] == "depth"@);
    assert(rest[2] == "multipv"@);
    assert(rest[4] == "score"@);
    assert(rest[5] == kind);
    assert(rest[6] == value_token);
    assert(rest[7] == "pv"@);
    assert(rest.subrange(8, rest.len() as int) =~= pv);
    let f0 = InfoFields { depth: None, score: None, multipv: None, pv: Seq::empty() };
    let f1 = InfoFields { depth: Some(d), ..f0 };
    let f2 = InfoFields { multipv: Some(k), ..f1 };
    let sc = if kind == "cp"@ { Score::Cp(v) } else { Score::Mate(v) };
    let f3 = InfoFields { score: Some(sc), ..f2 };
    assert("multipv"@ != "depth"@);
    assert("score"@ != "depth"@);
    assert("score"@ != "multipv"@);
    assert("pv"@ != "depth"@);
    assert("pv"@ != "multipv"@);
    assert("pv"@ != "score"@);
    assert("pv"@ != "upperbound"@);
    assert("pv"@ != "lowerbound"@);
    assert("mate"@ != "cp"@);
    assert(info_scan(rest, 7, f3) == Some(InfoFields { pv, ..f3 }));
    assert(info_scan(rest, 4, f2) == info_scan(rest, 7, f3));
    assert(info_scan(rest, 2, f1) == info_scan(rest, 4, f2));
    assert(info_scan(rest, 0, f0) == info_scan(rest, 2, f1));
}

/// A line whose only score is a bound (`upperbound` or `lowerbound` after
/// it) is not read: a bound is no settled evaluation.
pub proof fn bounded_score_is_not_read(
    line: Seq<char>,
    depth_token: Seq<char>,
    kind: Seq<char>,
    value_token: Seq<char>,
    bound: Seq<char>,
    pv: Seq<Seq<char>>,
)
    requires
        kind == "cp"@ || kind == "mate"@,
        bound == "upperbound"@ || bound == "lowerbound"@,
        words(line) == seq!["info"@, "depth"@, depth_token, "score"@, kind, value_token, bound, "pv"@] + pv,
        parse_u32(depth_token) is Some,
        parse_i32(value_token) is Some,
    ensures
        info_of(line) is None,
{
    reveal_strlit("info");
    reveal_strlit("depth");
    reveal_strlit("score");
    reveal_strlit("multipv");
    reveal_strlit("pv");
    reveal_strlit("upperbound");
    reveal_strlit("lowerbound");
    let ws = words(line);
    let rest = ws.drop_first();
    assert(rest =~= seq!["depth"@, depth_token, "score"@, kind, value_token, bound, "pv"@] + pv);
    assert(rest[0] == "depth"@);
    assert(rest[2] == "score"@);
    assert(rest[4] == value_token);
    assert(rest[5] == bound);
    assert(rest[6] == "pv"@);
    let f0 = InfoFields { depth: None, score: None, multipv: None, pv: Seq::empty() };
    let f1 = InfoFields { depth: parse_u32(depth_token), ..f0 };
    assert("score"@ != "depth"@);
    assert("score"@ != "multipv"@);
    assert("pv"@ != "depth"@);
    assert("pv"@ != "multipv"@);
    assert("pv"@ != "score"@);
    assert(info_scan(rest, 6, f1) == Some(InfoFields { pv: rest.subrange(7, rest.len() as int), ..f1 }));
    assert(info_scan(rest, 2, f1) == info_scan(rest, 6, f1));
    assert(info_scan(rest, 0, f0) == info_scan(rest, 2, f1));
}

} // verus!
