//! The analysis board's decisions: moving the cursor through the tree,
//! deleting under the cursor, loading pasted text, labelling moves, and
//! turning engine lines into what the board shows.

use vstd::prelude::*;
use crate::clock_text::trim_start;
use crate::engine::{pv_sans, white_pov, EngineInfo, Score};
use crate::pgn::{pgn_tree, trim_end};
use crate::position::{fen_white_to_move, move_squares, normalized_fen, Position};
use crate::text::{chars_of, is_space_char, join_spaced, nat_text, push_nat, push_str, same_chars, string_of};
use crate::tree::{last_mainline, path_to, root_node, wf, MoveTree, NodeId, NodeView};

verus! {

/// A step through the move tree.
#[derive(Debug, Clone, Copy, PartialEq, Eq, Structural)]
pub enum Nav {
    /// To the parent.
    Back,
    /// To the first child.
    Forward,
    /// To the root.
    Beginning,
    /// To the end of the mainline from the root.
    End,
}

/// The step a key press asks for: left and right arrows step back and
/// forward, up jumps to the end, down to the beginning.
pub fn nav_for_key(key: &str) -> (n: Option<Nav>)
    ensures
        n == (if key@ == "ArrowLeft"@ {
            Some(Nav::Back)
        } else if key@ == "ArrowRight"@ {
            Some(Nav::Forward)
        } else if key@ == "ArrowUp"@ {
            Some(Nav::End)
        } else if key@ == "ArrowDown"@ {
            Some(Nav::Beginning)
        } else {
            None
        }),
{
    let k = chars_of(key);
    if same_chars(&k, "ArrowLeft") {
        Some(Nav::Back)
    } else if same_chars(&k, "ArrowRight") {
        Some(Nav::Forward)
    } else if same_chars(&k, "ArrowUp") {
        Some(Nav::End)
    } else if same_chars(&k, "ArrowDown") {
        Some(Nav::Beginning)
    } else {
        None
    }
}

/// Where a step leads from `cursor`; a step with nowhere to go stays.
pub open spec fn stepped(t: Seq<NodeView>, cursor: int, nav: Nav) -> int {
    match nav {
        Nav::Back => match t[cursor].parent {
            Some(p) => p as int,
            None => cursor,
        },
        Nav::Forward => if t[cursor].children.len() > 0 { t[cursor].children[0] as int } else { cursor },
        Nav::Beginning => 0,
        Nav::End => last_mainline(t, 0),
    }
}

/// Moves the cursor one step.
pub fn navigate(tree: &MoveTree, cursor: NodeId, nav: Nav) -> (c: NodeId)
    requires
        wf(tree@),
        cursor < tree@.len(),
    ensures
        c == stepped(tree@, cursor as int, nav),
        c < tree@.len(),
{
    match nav {
        Nav::Back => match tree.parent(cursor) {
            Some(p) => p,
            None => cursor,
        },
        Nav::Forward => match tree.first_child(cursor) {
            Some(c) => {
                assert(crate::tree::child_ok(tree@, cursor as int, c as int));
                c
            },
            None => cursor,
        },
        Nav::Beginning => tree.root(),
        Nav::End => tree.last_mainline_from(tree.root()),
    }
}

/// Whether stepping back or forward is possible: (back, forward).
pub fn can_step(tree: &MoveTree, cursor: NodeId) -> (r: (bool, bool))
    requires
        cursor < tree@.len(),
    ensures
        r == (cursor != 0, tree@[cursor as int].children.len() > 0),
{
    (cursor != 0, tree.first_child(cursor).is_some())
}

/// Deletes `id` from the tree; when the cursor was on or under it, the
/// cursor moves to `id`'s parent. Returns the new cursor.
pub fn delete_at(tree: &mut MoveTree, cursor: NodeId, id: NodeId) -> (c: NodeId)
    requires
        wf(old(tree)@),
        cursor < old(tree)@.len(),
        id < old(tree)@.len(),
    ensures
        wf(final(tree)@),
        final(tree)@ == crate::tree::deleted(old(tree)@, id as int),
        c == (if path_to(old(tree)@, cursor as int).contains(id) {
            match old(tree)@[id as int].parent {
                Some(p) => p,
                None => cursor,
            }
        } else {
            cursor
        }),
        c < final(tree)@.len(),
{
    let parent = tree.parent(id);
    let path = tree.path_from_root(cursor);
    let mut inside = false;
    let mut k: usize = 0;
    while k < path.len()
        invariant
            k <= path@.len(),
            inside == (exists|j: int| 0 <= j < k && path@[j] == id),
        decreases path@.len() - k,
    {
        if path[k] == id {
            inside = true;
        }
        k = k + 1;
    }
    tree.delete(id);
    if inside {
        match parent {
            Some(p) => p,
            None => cursor,
        }
    } else {
        cursor
    }
}

/// A move's label in the move list: `N.` before a white move or `N...`
/// before a black one when its number is shown, then its SAN.
pub open spec fn move_label_text(san: Seq<char>, show_number: bool, fullmove: u32, is_white: bool) -> Seq<char> {
    if show_number {
        nat_text(fullmove as nat) + (if is_white { "."@ } else { "..."@ }) + " "@ + san
    } else {
        san
    }
}

pub fn move_label(san: &str, show_number: bool, fullmove: u32, is_white: bool) -> (s: String)
    ensures
        s@ == move_label_text(san@, show_number, fullmove, is_white),
{
    let mut out: Vec<char> = Vec::new();
    if show_number {
        push_nat(&mut out, fullmove as u64);
        if is_white {
            push_str(&mut out, ".");
        } else {
            push_str(&mut out, "...");
        }
        push_str(&mut out, " ");
    }
    push_str(&mut out, san);
    string_of(&out)
}

/// `s` without whitespace at either end (as `str::trim`).
pub open spec fn trimmed(s: Seq<char>) -> Seq<char> {
    trim_end(trim_start(s))
}

pub(crate) fn trim_chars(s: &Vec<char>) -> (r: Vec<char>)
    ensures
        r@ == trimmed(s@),
        r@.len() <= s@.len(),
{
    let n = s.len();
    let mut a: usize = 0;
    assert(s@.subrange(0, n as int) =~= s@);
    while a < n && is_space_char(s[a])
        invariant
            a <= n,
            n == s@.len(),
            trim_start(s@) == trim_start(s@.subrange(a as int, n as int)),
        decreases n - a,
    {
        assert(s@.subrange(a as int, n as int).drop_first() =~= s@.subrange(a + 1, n as int));
        a = a + 1;
    }
    assert(a < n ==> s@.subrange(a as int, n as int)[0] == s@[a as int]);
    assert(trim_start(s@.subrange(a as int, n as int)) == s@.subrange(a as int, n as int));
    let ghost mid = s@.subrange(a as int, n as int);
    let mut b: usize = n;
    assert(mid.subrange(0, (b - a) as int) =~= mid);
    while b > a && is_space_char(s[b - 1])
        invariant
            a <= b <= n,
            n == s@.len(),
            mid == s@.subrange(a as int, n as int),
            trim_end(mid) == trim_end(s@.subrange(a as int, b as int)),
        decreases b,
    {
        assert(s@.subrange(a as int, b as int).drop_last() =~= s@.subrange(a as int, b - 1));
        b = b - 1;
    }
    assert(b > a ==> s@.subrange(a as int, b as int).last() == s@[b - 1]);
    let mut r: Vec<char> = Vec::new();
    crate::text::push_range(&mut r, s, a, b);
    assert(r@ =~= s@.subrange(a as int, b as int));
    r
}

/// What loading pasted text gives: a FEN starts a fresh tree at that
/// position with the cursor on it; otherwise the text is read as PGN and
/// the cursor goes to the end of its mainline.
pub open spec fn loaded(text: Seq<char>) -> Result<(Seq<NodeView>, int), Seq<char>> {
    let t = trimmed(text);
    if t.len() == 0 {
        Err("paste a FEN or PGN first"@)
    } else {
        match normalized_fen(t) {
            Some(fen) => Ok((seq![root_node(fen, None)], 0)),
            None => match pgn_tree(t) {
                Ok(tree) => Ok((tree, last_mainline(tree, 0))),
                Err(e) => Err("not a valid FEN or PGN: "@ + e),
            },
        }
    }
}

/// Loads pasted FEN or PGN text into a fresh tree and cursor, or says why
/// it cannot.
pub fn load_text(text: &str) -> (r: Result<(MoveTree, NodeId), String>)
    requires
        text@.len() < usize::MAX,
    ensures
        match r {
            Ok((t, c)) => loaded(text@) == Ok::<(Seq<NodeView>, int), Seq<char>>((t@, c as int)) && wf(t@),
            Err(e) => loaded(text@) == Err::<(Seq<NodeView>, int), Seq<char>>(e@),
        },
{
    let chars = chars_of(text);
    let t = trim_chars(&chars);
    if t.len() == 0 {
        return Err("paste a FEN or PGN first".to_string());
    }
    let ts = string_of(&t);
    match Position::from_fen(ts.as_str()) {
        Some(p) => {
            let tree = MoveTree::new(p);
            return Ok((tree, 0));
        },
        None => {},
    }
    match MoveTree::from_pgn(ts.as_str()) {
        Ok(tree) => {
            let end = tree.last_mainline_from(tree.root());
            Ok((tree, end))
        },
        Err(e) => {
            let mut out: Vec<char> = Vec::new();
            push_str(&mut out, "not a valid FEN or PGN: ");
            push_str(&mut out, e.as_str());
            Err(string_of(&out))
        },
    }
}

/// An engine line as the board shows it: its score from White's point of
/// view, its depth, its moves as SAN, and the squares of its first move.
pub struct DisplayLine {
    pub score_white: Score,
    pub depth: u32,
    pub san: Vec<String>,
    pub arrow: Option<(u8, u8)>,
}

/// Which of the three candidate slots a `multipv` index fills: the index
/// less one, between 0 and 2.
pub open spec fn slot_of(multipv: u32) -> int {
    let i = if multipv >= 1 { multipv - 1 } else { 0 };
    if i > 2 { 2 } else { i }
}

/// Turns an engine line into what the board shows, against the position
/// `searched` that the engine analysed (not the one on screen now).
/// Returns the slot it goes in and the line.
pub fn ingest_line(info: &EngineInfo, searched: &Position) -> (r: (usize, DisplayLine))
    requires
        !fen_white_to_move(searched@) ==> match info.score {
            Score::Cp(v) => v != i32::MIN,
            Score::Mate(v) => v != i32::MIN,
        },
    ensures
        r.0 == slot_of(info.multipv),
        r.1.score_white == white_pov(info.score, fen_white_to_move(searched@)),
        r.1.depth == info.depth,
        r.1.san@.map_values(|s: String| s@) == pv_sans(searched@, info.pv@.map_values(|s: String| s@), 0),
        r.1.arrow == (if info.pv@.len() == 0 { None } else { move_squares(searched@, info.pv@[0]@) }),
{
    let i = if info.multipv >= 1 { info.multipv - 1 } else { 0 };
    let slot = if i > 2 { 2 } else { i as usize };
    let white = searched.white_to_move();
    let line = DisplayLine {
        score_white: crate::engine::to_white_pov(info.score, white),
        depth: info.depth,
        san: crate::engine::pv_to_san(searched, info.pv.as_slice()),
        arrow: crate::engine::pv_first_move(searched, info.pv.as_slice()),
    };
    (slot, line)
}

/// The arrows of slots `k..`: each slot's first-move squares with the
/// slot number.
pub open spec fn arrow_list(arrows: Seq<Option<(u8, u8)>>, k: int) -> Seq<(u8, u8, usize)>
    decreases arrows.len() - k,
{
    if 0 <= k < arrows.len() {
        (match arrows[k] {
            Some((f, t)) => seq![(f, t, k as usize)],
            None => Seq::empty(),
        }) + arrow_list(arrows, k + 1)
    } else {
        Seq::empty()
    }
}

pub open spec fn line_arrow(l: Option<DisplayLine>) -> Option<(u8, u8)> {
    match l {
        Some(d) => d.arrow,
        None => None,
    }
}

/// The best-move arrows to draw: each candidate line's first move, with
/// its slot (0 = best).
pub fn arrows_of(lines: &[Option<DisplayLine>]) -> (r: Vec<(u8, u8, usize)>)
    ensures
        r@ == arrow_list(lines@.map_values(|l: Option<DisplayLine>| line_arrow(l)), 0),
{
    let ghost av = lines@.map_values(|l: Option<DisplayLine>| line_arrow(l));
    let mut out: Vec<(u8, u8, usize)> = Vec::new();
    let mut i: usize = 0;
    while i < lines.len()
        invariant
            av == lines@.map_values(|l: Option<DisplayLine>| line_arrow(l)),
            i <= lines@.len(),
            arrow_list(av, 0) == out@ + arrow_list(av, i as int),
        decreases lines@.len() - i,
    {
        assert(av[i as int] == line_arrow(lines@[i as int]));
        let ghost before = out@;
        match &lines[i] {
            Some(l) => match l.arrow {
                Some((from, to)) => {
                    out.push((from, to, i));
                },
                None => {},
            },
            None => {},
        }
        assert(before + arrow_list(av, i as int) =~= out@ + arrow_list(av, i + 1));
        i = i + 1;
    }
    assert(out@ + arrow_list(av, i as int) =~= out@);
    out
}

/// What a candidate line shows: its first move (empty for an empty line)
/// and `depth D — ` followed by its moves joined with spaces.
pub open spec fn candidate_text(depth: u32, sans: Seq<Seq<char>>) -> (Seq<char>, Seq<char>) {
    (
        if sans.len() > 0 { sans[0] } else { Seq::empty() },
        "depth "@ + nat_text(depth as nat) + " \u{2014} "@ + join_spaced(sans),
    )
}

/// The texts of a candidate line.
pub fn candidate_texts(line: &DisplayLine) -> (r: (String, String))
    ensures
        (r.0@, r.1@) == candidate_text(line.depth, line.san@.map_values(|s: String| s@)),
{
    let ghost all = line.san@.map_values(|s: String| s@);
    let first = if line.san.len() > 0 { line.san[0].clone() } else { String::new() };
    let mut out: Vec<char> = Vec::new();
    push_str(&mut out, "depth ");
    push_nat(&mut out, line.depth as u64);
    push_str(&mut out, " \u{2014} ");
    let ghost head = out@;
    let n = line.san.len();
    let mut i: usize = 0;
    assert(all.take(0) =~= Seq::<Seq<char>>::empty());
    while i < n
        invariant
            n == line.san@.len(),
            all == line.san@.map_values(|s: String| s@),
            i <= n,
            out@ == head + join_spaced(all.take(i as int)),
        decreases n - i,
    {
        let ghost before = out@;
        if i > 0 {
            out.push(' ');
        }
        push_str(&mut out, line.san[i].as_str());
        assert(all.take(i + 1).drop_last() =~= all.take(i as int));
        assert(all.take(i + 1).last() == line.san@[i as int]@);
        i = i + 1;
        assert(out@ =~= head + join_spaced(all.take(i as int)));
    }
    assert(all.take(n as int) =~= all);
    assert(first@ == candidate_text(line.depth, all).0);
    (first, string_of(&out))
}

/// Whether no candidate line has arrived yet (the panel says it is
/// thinking).
pub fn no_lines_yet(lines: &[Option<DisplayLine>]) -> (b: bool)
    ensures
        b == forall|i: int| 0 <= i < lines@.len() ==> lines@[i] is None,
{
    let mut i: usize = 0;
    while i < lines.len()
        invariant
            i <= lines@.len(),
            forall|j: int| 0 <= j < i ==> lines@[j] is None,
        decreases lines@.len() - i,
    {
        if lines[i].is_some() {
            return false;
        }
        i = i + 1;
    }
    true
}

/// A puzzle's line to open on the analysis board: its starting position,
/// its moves in UCI, and how many plies in to put the cursor.
#[derive(Debug)]
pub struct PuzzleLoad {
    pub fen: String,
    pub moves: Vec<String>,
    pub ply: usize,
}

/// Following first children from `node` for up to `k` plies: the node
/// reached and the squares of the last move on the way that resolves in
/// its position (`last` when none does).
pub open spec fn first_line_walk(t: Seq<NodeView>, node: int, k: nat, last: Option<(u8, u8)>) -> (int, Option<(u8, u8)>)
    decreases k,
{
    if k == 0 || !(0 <= node < t.len()) || t[node].children.len() == 0 {
        (node, last)
    } else {
        let next = t[node].children[0] as int;
        let sq = move_squares(t[node].fen, t[next].uci);
        first_line_walk(t, next, (k - 1) as nat, if sq is Some { sq } else { last })
    }
}

/// Where a puzzle opens: `ply` plies along the first line (fewer when it
/// ends sooner), with the last move reached there highlighted.
pub fn puzzle_cursor(tree: &MoveTree, ply: usize) -> (r: (NodeId, Option<(u8, u8)>))
    requires
        wf(tree@),
    ensures
        (r.0 as int, r.1) == first_line_walk(tree@, 0, ply as nat, None),
        r.0 < tree@.len(),
{
    let mut node: NodeId = 0;
    let mut last: Option<(u8, u8)> = None;
    let mut k: usize = 0;
    while k < ply
        invariant
            wf(tree@),
            k <= ply,
            node < tree@.len(),
            first_line_walk(tree@, 0, ply as nat, None) == first_line_walk(tree@, node as int, (ply - k) as nat, last),
        decreases ply - k,
    {
        match tree.first_child(node) {
            Some(next) => {
                assert(child_ok_at(tree@, node as int));
                let sq = tree.position(node).move_squares(tree.uci(next));
                if sq.is_some() {
                    last = sq;
                }
                node = next;
            },
            None => {
                return (node, last);
            },
        }
        k = k + 1;
    }
    (node, last)
}

spec fn child_ok_at(t: Seq<NodeView>, node: int) -> bool {
    t[node].children.len() > 0 ==> crate::tree::child_ok(t, node, t[node].children[0] as int)
}

} // verus!
