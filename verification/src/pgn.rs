//! PGN movetext for the move tree: writing it, with `( )` variations and
//! `{[%clk H:MM:SS]}` clock comments, and reading it back.

use vstd::prelude::*;
use crate::clock_text::{format_clock_timestamp, timestamp_text};
use crate::clock_text::{clk_comment_ms, clk_in_chars, is_move_number, is_move_number_chars, is_result, is_result_chars};
use crate::position::{fen_fullmoves, fen_white_to_move, san_step, san_syntax_ok, start_fen, uci_step, uci_syntax_ok, Position};
use crate::text::{chars_of, debug_quoted, debug_text, is_space, is_space_char, nat_text, push_nat, push_range, push_str, slice_string, string_of};
use crate::tree::{child_ok, child_with_uci, follows_moves, lemma_follows_same_nodes, root_node, wf, with_mover_clock, with_new_child, MoveTree, NodeId, NodeView};

verus! {

/// The parent of `id`, or `id` itself for a node without one.
pub open spec fn parent_or_self(t: Seq<NodeView>, id: int) -> int {
    match t[id].parent {
        Some(p) => p as int,
        None => id,
    }
}

/// `id`'s own move text: its move number (for a white move, or when
/// `force`d: `N.` for white, `N...` for black), its SAN, the clock comment
/// of the side that moved when the node has a clock, and a space.
pub open spec fn move_text(t: Seq<NodeView>, id: int, force: bool) -> Seq<char> {
    number_text(t, id, force) + t[id].san + comment_text(t, id) + seq![' ']
}

/// The move number written before `id`'s move, if any.
pub open spec fn number_text(t: Seq<NodeView>, id: int, force: bool) -> Seq<char> {
    let p = parent_or_self(t, id);
    let white = fen_white_to_move(t[p].fen);
    if white || force {
        nat_text(fen_fullmoves(t[p].fen) as nat) + (if white { seq!['.'] } else { seq!['.', '.', '.'] }) + seq![' ']
    } else {
        Seq::empty()
    }
}

/// The clock comment written after `id`'s move: the reading of the side
/// that moved.
pub open spec fn comment_text(t: Seq<NodeView>, id: int) -> Seq<char> {
    let p = parent_or_self(t, id);
    let white = fen_white_to_move(t[p].fen);
    match t[id].clock {
        Some((w, b)) => seq![' ', '{', '[', '%', 'c', 'l', 'k', ' '] + timestamp_text((if white { w } else { b }) as int)
            + seq![']', '}'],
        None => Seq::empty(),
    }
}

/// `id`'s move text followed by everything after it.
pub open spec fn move_pgn(t: Seq<NodeView>, id: int, force: bool) -> Seq<char>
    decreases t.len() - id, 2int, 0int,
{
    if 0 <= id < t.len() {
        move_text(t, id, force) + continuation_pgn(t, id, false)
    } else {
        Seq::empty()
    }
}

/// What follows `id`'s own move text: nothing, its only continuation, or at
/// a branch the mainline move's text, each other child as a `( )`
/// variation, then the rest of the mainline with its move number restated.
pub open spec fn continuation_pgn(t: Seq<NodeView>, id: int, force: bool) -> Seq<char>
    decreases t.len() - id, 1int, 0int,
{
    if 0 <= id < t.len() {
        let ch = t[id].children;
        if ch.len() == 0 || !child_ok(t, id, ch[0] as int) {
            Seq::empty()
        } else if ch.len() == 1 {
            move_pgn(t, ch[0] as int, force)
        } else {
            move_text(t, ch[0] as int, force) + variations_pgn(t, id, 1) + continuation_pgn(t, ch[0] as int, true)
        }
    } else {
        Seq::empty()
    }
}

/// The variations `children[k..]` of `id`, each as `( ... ) `.
pub open spec fn variations_pgn(t: Seq<NodeView>, id: int, k: int) -> Seq<char>
    decreases t.len() - id, 0int, t[id].children.len() - k,
{
    if 0 <= id < t.len() && 0 <= k < t[id].children.len() && child_ok(t, id, t[id].children[k] as int) {
        seq!['(', ' '] + move_pgn(t, t[id].children[k] as int, true) + seq![')', ' '] + variations_pgn(t, id, k + 1)
    } else {
        Seq::empty()
    }
}

/// The root's children `k..`: the first inline, every other one in `( )`.
pub open spec fn root_pgn(t: Seq<NodeView>, k: int) -> Seq<char>
    decreases t[0].children.len() - k,
{
    if 0 <= k < t[0].children.len() && child_ok(t, 0, t[0].children[k] as int) {
        (if k > 0 { seq!['(', ' '] } else { Seq::empty() }) + move_pgn(t, t[0].children[k] as int, true)
            + (if k > 0 { seq![')', ' '] } else { Seq::empty() }) + root_pgn(t, k + 1)
    } else {
        Seq::empty()
    }
}

/// `s` without trailing whitespace (as `str::trim_end`).
pub open spec fn trim_end(s: Seq<char>) -> Seq<char>
    decreases s.len(),
{
    if s.len() > 0 && is_space(s.last()) {
        trim_end(s.drop_last())
    } else {
        s
    }
}

/// The PGN movetext of a tree.
pub open spec fn tree_pgn(t: Seq<NodeView>) -> Seq<char> {
    trim_end(root_pgn(t, 0))
}


/// The reading state: the tree so far, the node the next move is played
/// from, and the nodes to resume at when open variations close.
pub ghost struct PgnState {
    pub tree: Seq<NodeView>,
    pub cursor: int,
    pub stack: Seq<usize>,
}

pub ghost enum PgnStep {
    Next(PgnState, int),
    Fail(Seq<char>),
}

/// ASCII whitespace (the characters whose `char::is_whitespace` holds
/// among the first 128).
pub open spec fn ascii_space(c: char) -> bool {
    c == '\t' || c == '\n' || c == '\u{0B}' || c == '\u{0C}' || c == '\r' || c == ' '
}

/// A character whose UTF-8 encoding ends in the byte 0x85 or 0xA0, which
/// read on its own is whitespace and so ends a `$` annotation.
pub open spec fn ends_in_space_byte(c: char) -> bool {
    (c as u32) >= 0x80 && ((c as u32) % 64 == 5 || (c as u32) % 64 == 32)
}

/// Characters that end a move token.
pub open spec fn token_stop(c: char) -> bool {
    ascii_space(c) || c == '(' || c == ')' || c == '{' || c == '}' || c == ';' || c == '['
}

/// The first index from `i` holding `c`, or the length.
pub open spec fn scan_to(s: Seq<char>, i: int, c: char) -> int
    decreases s.len() - i,
{
    if 0 <= i < s.len() && s[i] != c {
        scan_to(s, i + 1, c)
    } else {
        i
    }
}

/// The end of the move token starting at `i`.
pub open spec fn token_end(s: Seq<char>, i: int) -> int
    decreases s.len() - i,
{
    if 0 <= i < s.len() && !token_stop(s[i]) {
        token_end(s, i + 1)
    } else {
        i
    }
}

/// Where reading resumes after the `$` annotation starting at `i`.
pub open spec fn nag_end(s: Seq<char>, i: int) -> int
    decreases s.len() - i,
{
    if 0 <= i < s.len() {
        if ascii_space(s[i]) {
            i
        } else if ends_in_space_byte(s[i]) {
            i + 1
        } else {
            nag_end(s, i + 1)
        }
    } else {
        i
    }
}

pub open spec fn no_branch_msg() -> Seq<char> {
    "PGN has a variation '(' with no move to branch from"@
}

pub open spec fn unmatched_close_msg() -> Seq<char> {
    "PGN has an unmatched ')'"@
}

pub open spec fn unmatched_open_msg() -> Seq<char> {
    "PGN has an unmatched '('"@
}

pub open spec fn invalid_move_msg(token: Seq<char>) -> Seq<char> {
    "invalid move text: "@ + debug_text(token)
}

pub open spec fn illegal_move_msg(token: Seq<char>) -> Seq<char> {
    "illegal move: "@ + debug_text(token)
}

pub open spec fn bad_move_msg(token: Seq<char>) -> Seq<char> {
    "bad move: "@ + debug_text(token)
}

/// Playing the move (UCI `u`, SAN `san`, resulting FEN `after`) from `at`:
/// the existing child reached by `u`, else a new child.
pub open spec fn played(t: Seq<NodeView>, at: int, u: Seq<char>, san: Seq<char>, after: Seq<char>) -> (Seq<NodeView>, int) {
    match child_with_uci(t, at, u) {
        Some(c) => (t, c as int),
        None => (with_new_child(t, at, u, san, after, None), t.len() as int),
    }
}

/// One step of reading PGN movetext `s` at index `i`.
pub open spec fn pgn_step(s: Seq<char>, i: int, st: PgnState) -> PgnStep {
    let c = s[i];
    if ascii_space(c) {
        PgnStep::Next(st, i + 1)
    } else if c == ';' {
        PgnStep::Next(st, scan_to(s, i, '\n'))
    } else if c == '[' {
        PgnStep::Next(st, scan_to(s, i, ']') + 1)
    } else if c == '{' {
        let j = scan_to(s, i + 1, '}');
        match clk_comment_ms(s.subrange(i + 1, j)) {
            Some(ms) => PgnStep::Next(PgnState { tree: with_mover_clock(st.tree, st.cursor, ms), ..st }, j + 1),
            None => PgnStep::Next(st, j + 1),
        }
    } else if c == '(' {
        match st.tree[st.cursor].parent {
            Some(p) => PgnStep::Next(PgnState { tree: st.tree, cursor: p as int, stack: st.stack.push(st.cursor as usize) }, i + 1),
            None => PgnStep::Fail(no_branch_msg()),
        }
    } else if c == ')' {
        if st.stack.len() > 0 {
            PgnStep::Next(PgnState { tree: st.tree, cursor: st.stack.last() as int, stack: st.stack.drop_last() }, i + 1)
        } else {
            PgnStep::Fail(unmatched_close_msg())
        }
    } else if c == '$' {
        PgnStep::Next(st, nag_end(s, i))
    } else {
        let e = token_end(s, i);
        let tok = s.subrange(i, e);
        if is_move_number(tok) || is_result(tok) {
            PgnStep::Next(st, e)
        } else if !san_syntax_ok(tok) {
            PgnStep::Fail(invalid_move_msg(tok))
        } else {
            match san_step(st.tree[st.cursor].fen, tok) {
                None => PgnStep::Fail(illegal_move_msg(tok)),
                Some((u, san, after)) => {
                    let (t2, id) = played(st.tree, st.cursor, u, san, after);
                    PgnStep::Next(PgnState { tree: t2, cursor: id, stack: st.stack }, e)
                },
            }
        }
    }
}

/// Reading PGN movetext `s` from index `i` in state `st` to the end.
pub open spec fn pgn_run(s: Seq<char>, i: int, st: PgnState) -> Result<Seq<NodeView>, Seq<char>>
    decreases s.len() - i,
{
    if 0 <= i < s.len() {
        match pgn_step(s, i, st) {
            PgnStep::Fail(m) => Err(m),
            PgnStep::Next(st2, j) => {
                let j2 = if j > s.len() { s.len() as int } else { j };
                if j2 > i { pgn_run(s, j2, st2) } else { Err(Seq::empty()) }
            },
        }
    } else if st.stack.len() > 0 {
        Err(unmatched_open_msg())
    } else {
        Ok(st.tree)
    }
}

/// The tree PGN movetext reads as, or the message for why it does not.
pub open spec fn pgn_tree(s: Seq<char>) -> Result<Seq<NodeView>, Seq<char>> {
    pgn_run(s, 0, PgnState { tree: seq![root_node(start_fen(), None)], cursor: 0, stack: Seq::empty() })
}

impl MoveTree {
    fn write_number(&self, id: NodeId, out: &mut Vec<char>, force: bool) -> (white: bool)
        requires
            wf(self@),
            id < self@.len(),
        ensures
            final(out)@ == old(out)@ + number_text(self@, id as int, force),
            white == fen_white_to_move(self@[parent_or_self(self@, id as int)].fen),
    {
        let ghost start = out@;
        let p = match self.parent(id) {
            Some(p) => p,
            None => id,
        };
        let pos = self.position(p);
        let white = pos.white_to_move();
        if white || force {
            let n = pos.fullmoves();
            push_nat(out, n as u64);
            if white {
                out.push('.');
            } else {
                out.push('.');
                out.push('.');
                out.push('.');
            }
            out.push(' ');
        }
        assert(out@ =~= start + number_text(self@, id as int, force));
        white
    }

    fn write_comment(&self, id: NodeId, white: bool, out: &mut Vec<char>)
        requires
            wf(self@),
            id < self@.len(),
            white == fen_white_to_move(self@[parent_or_self(self@, id as int)].fen),
        ensures
            final(out)@ == old(out)@ + comment_text(self@, id as int),
    {
        let ghost start = out@;
        match self.clock(id) {
            Some((w, b)) => {
                push_str(out, " {[%clk ");
                let stamp = format_clock_timestamp(if white { w } else { b });
                push_str(out, stamp.as_str());
                out.push(']');
                out.push('}');
                proof {
                    reveal_strlit(" {[%clk ");
                }
                assert(out@ =~= start + comment_text(self@, id as int));
            },
            None => {
                assert(out@ =~= start + comment_text(self@, id as int));
            },
        }
    }

    fn write_move_text(&self, id: NodeId, out: &mut Vec<char>, force: bool)
        requires
            wf(self@),
            id < self@.len(),
        ensures
            final(out)@ == old(out)@ + move_text(self@, id as int, force),
    {
        let ghost start = out@;
        let white = self.write_number(id, out, force);
        push_str(out, self.san(id));
        self.write_comment(id, white, out);
        out.push(' ');
        assert(out@ =~= start + move_text(self@, id as int, force));
    }

    fn emit_move(&self, id: NodeId, out: &mut Vec<char>, force: bool)
        requires
            wf(self@),
            id < self@.len(),
        ensures
            final(out)@ == old(out)@ + move_pgn(self@, id as int, force),
        decreases self@.len() - id, 1int,
    {
        let ghost start = out@;
        self.write_move_text(id, out, force);
        self.emit_continuation(id, out, false);
        assert(out@ =~= start + move_pgn(self@, id as int, force));
    }

    fn emit_continuation(&self, id: NodeId, out: &mut Vec<char>, force: bool)
        requires
            wf(self@),
            id < self@.len(),
        ensures
            final(out)@ == old(out)@ + continuation_pgn(self@, id as int, force),
        decreases self@.len() - id, 0int,
    {
        let ghost t = self@;
        let ghost start = out@;
        let ch = self.children(id);
        let n = ch.len();
        if n == 0 {
            return;
        }
        let main = ch[0];
        assert(main == t[id as int].children[0]);
        assert(child_ok(t, id as int, main as int));
        if n == 1 {
            self.emit_move(main, out, force);
            return;
        }
        self.write_move_text(main, out, force);
        let ghost branch = out@;
        let mut k: usize = 1;
        while k < n
            invariant
                t == self@,
                wf(t),
                id < t.len(),
                ch@ == t[id as int].children,
                n == ch@.len(),
                1 <= k <= n,
                branch + variations_pgn(t, id as int, 1) == out@ + variations_pgn(t, id as int, k as int),
            decreases n - k,
        {
            let v = ch[k];
            assert(child_ok(t, id as int, v as int));
            let ghost mid = out@;
            out.push('(');
            out.push(' ');
            self.emit_move(v, out, true);
            out.push(')');
            out.push(' ');
            assert(out@ =~= mid + seq!['(', ' '] + move_pgn(t, v as int, true) + seq![')', ' ']);
            k = k + 1;
        }
        assert(variations_pgn(t, id as int, n as int) =~= Seq::<char>::empty());
        self.emit_continuation(main, out, true);
        assert(out@ =~= start + continuation_pgn(t, id as int, force));
    }

    /// The tree as PGN movetext: the mainline inline, every other child of a
    /// node wrapped in `( )`, and a `{[%clk H:MM:SS]}` comment after any
    /// move that has a clock.
    pub fn to_pgn(&self) -> (s: String)
        requires
            wf(self@),
        ensures
            s@ == tree_pgn(self@),
    {
        let ghost t = self@;
        let mut out: Vec<char> = Vec::new();
        let ch = self.children(0);
        let n = ch.len();
        let mut i: usize = 0;
        while i < n
            invariant
                t == self@,
                wf(t),
                ch@ == t[0].children,
                n == ch@.len(),
                i <= n,
                root_pgn(t, 0) == out@ + root_pgn(t, i as int),
            decreases n - i,
        {
            let c = ch[i];
            assert(child_ok(t, 0, c as int));
            let ghost mid = out@;
            if i > 0 {
                out.push('(');
                out.push(' ');
            }
            self.emit_move(c, &mut out, true);
            if i > 0 {
                out.push(')');
                out.push(' ');
            }
            assert(out@ =~= mid + (if i > 0 { seq!['(', ' '] } else { Seq::<char>::empty() }) + move_pgn(t, c as int, true)
                + (if i > 0 { seq![')', ' '] } else { Seq::<char>::empty() }));
            i = i + 1;
        }
        assert(root_pgn(t, n as int) =~= Seq::<char>::empty());
        assert(out@ =~= root_pgn(t, 0));
        let mut end = out.len();
        assert(out@.subrange(0, end as int) =~= out@);
        while end > 0 && is_space_char(out[end - 1])
            invariant
                end <= out@.len(),
                trim_end(out@) == trim_end(out@.subrange(0, end as int)),
            decreases end,
        {
            assert(out@.subrange(0, end as int).drop_last() =~= out@.subrange(0, end - 1));
            end = end - 1;
        }
        let mut res: Vec<char> = Vec::new();
        let mut j: usize = 0;
        while j < end
            invariant
                j <= end <= out@.len(),
                res@ == out@.subrange(0, j as int),
            decreases end - j,
        {
            res.push(out[j]);
            j = j + 1;
            assert(res@ =~= out@.subrange(0, j as int));
        }
        assert(trim_end(out@.subrange(0, end as int)) == out@.subrange(0, end as int));
        string_of(&res)
    }
}


pub(crate) fn scan_to_exec(s: &Vec<char>, i: usize, c: char) -> (j: usize)
    requires
        i <= s@.len(),
    ensures
        j == scan_to(s@, i as int, c),
        i <= j <= s@.len(),
{
    let mut j = i;
    while j < s.len() && s[j] != c
        invariant
            i <= j <= s@.len(),
            scan_to(s@, i as int, c) == scan_to(s@, j as int, c),
        decreases s@.len() - j,
    {
        j = j + 1;
    }
    j
}

fn token_end_exec(s: &Vec<char>, i: usize) -> (j: usize)
    requires
        i <= s@.len(),
    ensures
        j == token_end(s@, i as int),
        i <= j <= s@.len(),
{
    let mut j = i;
    while j < s.len() && !is_token_stop(s[j])
        invariant
            i <= j <= s@.len(),
            token_end(s@, i as int) == token_end(s@, j as int),
        decreases s@.len() - j,
    {
        j = j + 1;
    }
    j
}

fn nag_end_exec(s: &Vec<char>, i: usize) -> (j: usize)
    requires
        i <= s@.len(),
    ensures
        j == nag_end(s@, i as int),
        i <= j <= s@.len(),
{
    let mut j = i;
    while j < s.len()
        invariant
            i <= j <= s@.len(),
            nag_end(s@, i as int) == nag_end(s@, j as int),
        decreases s@.len() - j,
    {
        let c = s[j];
        if is_ascii_space(c) {
            return j;
        }
        let code = c as u32;
        if code >= 0x80 && (code % 64 == 5 || code % 64 == 32) {
            return j + 1;
        }
        j = j + 1;
    }
    j
}

fn is_ascii_space(c: char) -> (b: bool)
    ensures
        b == ascii_space(c),
{
    c == '\t' || c == '\n' || c == '\u{0B}' || c == '\u{0C}' || c == '\r' || c == ' '
}

fn is_token_stop(c: char) -> (b: bool)
    ensures
        b == token_stop(c),
{
    is_ascii_space(c) || c == '(' || c == ')' || c == '{' || c == '}' || c == ';' || c == '['
}

pub(crate) fn sub_chars(s: &Vec<char>, from: usize, to: usize) -> (r: Vec<char>)
    requires
        from <= to <= s@.len(),
    ensures
        r@ == s@.subrange(from as int, to as int),
{
    let mut r: Vec<char> = Vec::new();
    push_range(&mut r, s, from, to);
    assert(r@ =~= s@.subrange(from as int, to as int));
    r
}

fn message_with_token(prefix: &str, token: &str) -> (m: String)
    ensures
        m@ == prefix@ + debug_text(token@),
{
    let mut out: Vec<char> = Vec::new();
    push_str(&mut out, prefix);
    let d = debug_quoted(token);
    push_str(&mut out, d.as_str());
    assert(out@ =~= prefix@ + debug_text(token@));
    string_of(&out)
}

impl MoveTree {
    /// Reads PGN movetext (tag pairs, comments and `$` annotations are
    /// skipped) into a tree, honoring `( )` variations and `{[%clk ...]}`
    /// comments, each of which sets the clock of the move it follows. Fails
    /// with a message on malformed input.
    pub fn from_pgn(pgn: &str) -> (r: Result<MoveTree, String>)
        requires
            pgn@.len() < usize::MAX,
        ensures
            match r {
                Ok(t) => pgn_tree(pgn@) == Ok::<Seq<NodeView>, Seq<char>>(t@) && wf(t@) && follows_moves(t@),
                Err(m) => pgn_tree(pgn@) == Err::<Seq<NodeView>, Seq<char>>(m@),
            },
    {
        let s = chars_of(pgn);
        let n = s.len();
        let mut tree = MoveTree::new(Position::start());
        let mut cursor: NodeId = 0;
        let mut stack: Vec<NodeId> = Vec::new();
        let mut i: usize = 0;
        while i < n
            invariant
                s@ == pgn@,
                n == s@.len(),
                n < usize::MAX,
                i <= n,
                wf(tree@),
                follows_moves(tree@),
                cursor < tree@.len(),
                tree@.len() <= i + 1,
                forall|k: int| 0 <= k < stack@.len() ==> #[trigger] stack@[k] < tree@.len(),
                pgn_tree(pgn@) == pgn_run(s@, i as int, PgnState { tree: tree@, cursor: cursor as int, stack: stack@ }),
            decreases n - i,
        {
            let c = s[i];
            if is_ascii_space(c) {
                i = i + 1;
            } else if c == ';' {
                assert(scan_to(s@, i as int, '\n') == scan_to(s@, i + 1, '\n'));
                i = scan_to_exec(&s, i + 1, '\n');
            } else if c == '[' {
                let j = scan_to_exec(&s, i, ']');
                i = if j + 1 > n { n } else { j + 1 };
            } else if c == '{' {
                let j = scan_to_exec(&s, i + 1, '}');
                let comment = sub_chars(&s, i + 1, j);
                match clk_in_chars(&comment) {
                    Some(ms) => {
                        let ghost before = tree@;
                        tree.set_mover_clock(cursor, ms);
                        proof { lemma_follows_same_nodes(before, tree@); }
                    },
                    None => {},
                }
                i = if j + 1 > n { n } else { j + 1 };
            } else if c == '(' {
                match tree.parent(cursor) {
                    Some(p) => {
                        assert(tree@[cursor as int].parent == Some(p));
                        stack.push(cursor);
                        cursor = p;
                    },
                    None => {
                        return Err("PGN has a variation '(' with no move to branch from".to_string());
                    },
                }
                i = i + 1;
            } else if c == ')' {
                match stack.pop() {
                    Some(x) => { cursor = x; },
                    None => {
                        return Err("PGN has an unmatched ')'".to_string());
                    },
                }
                i = i + 1;
            } else if c == '$' {
                assert(nag_end(s@, i as int) == nag_end(s@, i + 1));
                i = nag_end_exec(&s, i + 1);
            } else {
                let e = token_end_exec(&s, i);
                let tokc = sub_chars(&s, i, e);
                if is_move_number_chars(&tokc) || is_result_chars(&tokc) {
                    assert(tokc@.len() > 0);
                    assert(e > i);
                    i = e;
                } else {
                    let tok = string_of(&tokc);
                    if !Position::is_san_syntax(tok.as_str()) {
                        return Err(message_with_token("invalid move text: ", tok.as_str()));
                    }
                    assert(tok@.len() > 0);
                    assert(e > i);
                    let m = tree.position(cursor).san_move(tok.as_str());
                    match m {
                        None => {
                            return Err(message_with_token("illegal move: ", tok.as_str()));
                        },
                        Some(m) => {
                            proof { crate::tree::lemma_child_with_uci_from(tree@, cursor as int, m@.uci, 0); }
                            cursor = tree.play(cursor, m, None);
                        },
                    }
                    i = e;
                }
            }
        }
        if stack.len() > 0 {
            return Err("PGN has an unmatched '('".to_string());
        }
        Ok(tree)
    }
}

/// Playing the UCI moves `moves[i..]` from `cursor`, the `i`-th with the
/// clock `clocks[i]` (none past the end of `clocks`).
pub open spec fn uci_moves_run(
    moves: Seq<Seq<char>>,
    clocks: Seq<Option<(i64, i64)>>,
    i: int,
    t: Seq<NodeView>,
    cursor: int,
) -> Result<Seq<NodeView>, Seq<char>>
    decreases moves.len() - i,
{
    if 0 <= i < moves.len() {
        let u = moves[i];
        if !uci_syntax_ok(u) {
            Err(bad_move_msg(u))
        } else {
            match uci_step(t[cursor].fen, u) {
                None => Err(illegal_move_msg(u)),
                Some((nu, san, after)) => {
                    let clock = if i < clocks.len() { clocks[i] } else { None };
                    match child_with_uci(t, cursor, nu) {
                        Some(c) => uci_moves_run(moves, clocks, i + 1, t, c as int),
                        None => uci_moves_run(moves, clocks, i + 1, with_new_child(t, cursor, nu, san, after, clock), t.len() as int),
                    }
                },
            }
        }
    } else {
        Ok(t)
    }
}

/// The line a game's UCI moves make from the start position, whose root
/// clock reads `initial_ms` for both sides.
pub open spec fn uci_moves_tree(moves: Seq<Seq<char>>, clocks: Seq<Option<(i64, i64)>>, initial_ms: i64) -> Result<Seq<NodeView>, Seq<char>> {
    uci_moves_run(moves, clocks, 0, seq![root_node(start_fen(), Some((initial_ms, initial_ms)))], 0)
}

impl MoveTree {
    /// Builds the linear tree of a game from its UCI moves, each with the
    /// clock reading stored for it. Fails on the first move that does not
    /// parse (`bad move: "..."`) or is illegal (`illegal move: "..."`).
    pub fn from_uci_moves(moves: &[String], clocks: &[Option<(i64, i64)>], initial_time_ms: i64) -> (r: Result<MoveTree, String>)
        requires
            moves@.len() < usize::MAX,
        ensures
            match r {
                Ok(t) => uci_moves_tree(moves@.map_values(|m: String| m@), clocks@, initial_time_ms)
                    == Ok::<Seq<NodeView>, Seq<char>>(t@) && wf(t@) && follows_moves(t@),
                Err(m) => uci_moves_tree(moves@.map_values(|m: String| m@), clocks@, initial_time_ms)
                    == Err::<Seq<NodeView>, Seq<char>>(m@),
            },
    {
        let ghost mv = moves@.map_values(|m: String| m@);
        let mut tree = MoveTree::with_clocks(Position::start(), initial_time_ms);
        let mut cursor: NodeId = 0;
        let mut i: usize = 0;
        while i < moves.len()
            invariant
                mv == moves@.map_values(|m: String| m@),
                moves@.len() < usize::MAX,
                i <= moves@.len(),
                wf(tree@),
                follows_moves(tree@),
                cursor < tree@.len(),
                tree@.len() <= i + 1,
                uci_moves_tree(mv, clocks@, initial_time_ms) == uci_moves_run(mv, clocks@, i as int, tree@, cursor as int),
            decreases moves@.len() - i,
        {
            let u = moves[i].as_str();
            assert(u@ == mv[i as int]);
            if !Position::is_uci_syntax(u) {
                return Err(message_with_token("bad move: ", u));
            }
            match tree.position(cursor).uci_move(u) {
                None => {
                    return Err(message_with_token("illegal move: ", u));
                },
                Some(m) => {
                    let clock = if i < clocks.len() { clocks[i] } else { None };
                    proof { crate::tree::lemma_child_with_uci_from(tree@, cursor as int, m@.uci, 0); }
                    cursor = tree.play(cursor, m, clock);
                },
            }
            i = i + 1;
        }
        Ok(tree)
    }
}

} // verus!
