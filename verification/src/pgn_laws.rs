//! Reading back written PGN: the movetext a tree is written as reads back
//! as a tree that is written the same way.

use vstd::prelude::*;
use crate::clock_text::{clk_comment_ms, clk_index_from, is_move_number, is_result, is_stamp_char, stamp_len, timestamp_ms, trim_start};
use crate::pgn::{
    comment_text, continuation_pgn, move_pgn, move_text, number_text, parent_or_self, root_pgn, trim_end, tree_pgn,
    variations_pgn, pgn_tree,
    nag_end, pgn_run, pgn_step, played, scan_to, token_end, token_stop, unmatched_open_msg, PgnState, PgnStep,
};
use crate::clock_text::{timestamp_reads_back, timestamp_text};
use crate::position::{fen_fullmoves, fen_white_to_move, san_char, san_step, san_syntax_ok, san_text, step_holds};
use crate::text::{all_digits, is_digit, is_space, lemma_nat_text_reads_back, lemma_pad2_reads_back, nat_text, pad2_text};
use crate::position::start_fen;
use crate::tree::{follows_moves, follows_parent, deleted, lemma_child_with_uci_from, lemma_first_pos, lemma_without_members, promoted, without, first_pos, root_node, child_ok, child_with_uci, child_with_uci_from, last_mainline, lemma_wf_new_child, wf, with_mover_clock, with_new_child, NodeView};

verus! {

/// Reading `s` from `i` in state `st` to the end, without the final check
/// for open variations: the state reached, or why reading failed.
pub open spec fn pgn_walk(s: Seq<char>, i: int, st: PgnState) -> Result<PgnState, Seq<char>>
    decreases s.len() - i,
{
    if 0 <= i < s.len() {
        match pgn_step(s, i, st) {
            PgnStep::Fail(m) => Err(m),
            PgnStep::Next(st2, j) => {
                let j2 = if j > s.len() { s.len() as int } else { j };
                if j2 > i { pgn_walk(s, j2, st2) } else { Err(Seq::empty()) }
            },
        }
    } else {
        Ok(st)
    }
}

/// The end of a walk: the tree, unless a variation is still open.
pub open spec fn walk_result(w: Result<PgnState, Seq<char>>) -> Result<Seq<crate::tree::NodeView>, Seq<char>> {
    match w {
        Ok(st) => if st.stack.len() > 0 { Err(unmatched_open_msg()) } else { Ok(st.tree) },
        Err(m) => Err(m),
    }
}

proof fn lemma_run_is_walk(s: Seq<char>, i: int, st: PgnState)
    ensures
        pgn_run(s, i, st) == walk_result(pgn_walk(s, i, st)),
    decreases s.len() - i,
{
    if 0 <= i < s.len() {
        match pgn_step(s, i, st) {
            PgnStep::Fail(m) => {},
            PgnStep::Next(st2, j) => {
                let j2 = if j > s.len() { s.len() as int } else { j };
                if j2 > i {
                    lemma_run_is_walk(s, j2, st2);
                }
            },
        }
    }
}

proof fn lemma_scan_to_shift(p: Seq<char>, r: Seq<char>, i: int, c: char)
    requires
        0 <= i <= r.len(),
    ensures
        scan_to(p + r, p.len() + i, c) == p.len() + scan_to(r, i, c),
    decreases r.len() - i,
{
    if i < r.len() {
        assert((p + r)[p.len() + i] == r[i]);
        lemma_scan_to_shift(p, r, i + 1, c);
    }
}

proof fn lemma_token_end_shift(p: Seq<char>, r: Seq<char>, i: int)
    requires
        0 <= i <= r.len(),
    ensures
        token_end(p + r, p.len() + i) == p.len() + token_end(r, i),
    decreases r.len() - i,
{
    if i < r.len() {
        assert((p + r)[p.len() + i] == r[i]);
        lemma_token_end_shift(p, r, i + 1);
    }
}

proof fn lemma_nag_end_shift(p: Seq<char>, r: Seq<char>, i: int)
    requires
        0 <= i <= r.len(),
    ensures
        nag_end(p + r, p.len() + i) == p.len() + nag_end(r, i),
    decreases r.len() - i,
{
    if i < r.len() {
        assert((p + r)[p.len() + i] == r[i]);
        lemma_nag_end_shift(p, r, i + 1);
    }
}

proof fn lemma_scan_to_bounds(s: Seq<char>, i: int, c: char)
    requires
        0 <= i,
    ensures
        i <= scan_to(s, i, c),
        i <= s.len() ==> scan_to(s, i, c) <= s.len(),
    decreases s.len() - i,
{
    if 0 <= i < s.len() && s[i] != c {
        lemma_scan_to_bounds(s, i + 1, c);
    }
}

proof fn lemma_token_end_bounds(s: Seq<char>, i: int)
    requires
        0 <= i <= s.len(),
    ensures
        i <= token_end(s, i) <= s.len(),
    decreases s.len() - i,
{
    if i < s.len() && !crate::pgn::token_stop(s[i]) {
        lemma_token_end_bounds(s, i + 1);
    }
}

/// Whether two steps agree, the second taken `k` characters further on.
pub open spec fn step_shifted(a: PgnStep, b: PgnStep, k: int) -> bool {
    match a {
        PgnStep::Fail(m1) => b == PgnStep::Fail(m1),
        PgnStep::Next(s1, j1) => match b {
            PgnStep::Next(s2, j2) => s1 == s2 && j2 == j1 + k,
            PgnStep::Fail(_) => false,
        },
    }
}

proof fn lemma_step_shift(p: Seq<char>, r: Seq<char>, i: int, st: PgnState)
    requires
        0 <= i < r.len(),
    ensures
        step_shifted(pgn_step(r, i, st), pgn_step(p + r, p.len() + i, st), p.len() as int),
{
    let s = p + r;
    let k = p.len() as int;
    assert(s[k + i] == r[i]);
    let c = r[i];
    lemma_scan_to_shift(p, r, i, '\n');
    lemma_scan_to_shift(p, r, i, ']');
    lemma_scan_to_shift(p, r, i + 1, '}');
    lemma_token_end_shift(p, r, i);
    lemma_nag_end_shift(p, r, i);
    lemma_scan_to_bounds(r, i + 1, '}');
    let j = scan_to(r, i + 1, '}');
    assert(s.subrange(k + i + 1, k + j) =~= r.subrange(i + 1, j));
    lemma_token_end_bounds(r, i);
    let e = token_end(r, i);
    assert(s.subrange(k + i, k + e) =~= r.subrange(i, e));
}

/// Reading on from the end of a prefix is reading the rest alone.
pub proof fn lemma_walk_shift(p: Seq<char>, r: Seq<char>, i: int, st: PgnState)
    requires
        0 <= i,
    ensures
        pgn_walk(p + r, p.len() + i, st) == pgn_walk(r, i, st),
    decreases r.len() - i,
{
    let s = p + r;
    let k = p.len() as int;
    if i < r.len() {
        lemma_step_shift(p, r, i, st);
        match pgn_step(r, i, st) {
            PgnStep::Fail(m) => {},
            PgnStep::Next(st2, j) => {
                let j2 = if j > r.len() { r.len() as int } else { j };
                if j2 > i {
                    lemma_walk_shift(p, r, j2, st2);
                }
            },
        }
    }
}

/// A token that reads on its own: not empty, not opening with `$`, and
/// holding no character that ends a token.
pub open spec fn plain_token(t: Seq<char>) -> bool {
    &&& t.len() > 0
    &&& t[0] != '$'
    &&& forall|i: int| 0 <= i < t.len() ==> !token_stop(#[trigger] t[i])
}

/// `r` begins with a character that ends a token, or is empty.
pub open spec fn token_boundary(r: Seq<char>) -> bool {
    r.len() == 0 || token_stop(r[0])
}

proof fn lemma_token_end_of(t: Seq<char>, r: Seq<char>, i: int)
    requires
        plain_token(t),
        token_boundary(r),
        0 <= i <= t.len(),
    ensures
        token_end(t + r, i) == t.len(),
    decreases t.len() - i,
{
    let s = t + r;
    if i < t.len() {
        assert(s[i] == t[i]);
        lemma_token_end_of(t, r, i + 1);
    } else if r.len() > 0 {
        assert(s[i] == r[0]);
    }
}

proof fn lemma_walk_one(s: Seq<char>, st: PgnState, st2: PgnState, j: int)
    requires
        0 < s.len(),
        pgn_step(s, 0, st) == PgnStep::Next(st2, j),
        0 < j <= s.len(),
    ensures
        pgn_walk(s, 0, st) == pgn_walk(s, j, st2),
{
}

/// A space is skipped.
proof fn lemma_walk_space(r: Seq<char>, st: PgnState)
    ensures
        pgn_walk(seq![' '] + r, 0, st) == pgn_walk(r, 0, st),
{
    let s = seq![' '] + r;
    assert(s[0] == ' ');
    lemma_walk_one(s, st, st, 1);
    lemma_walk_shift(seq![' '], r, 0, st);
}

/// A move number or a result is skipped.
proof fn lemma_walk_skip_token(t: Seq<char>, r: Seq<char>, st: PgnState)
    requires
        plain_token(t),
        token_boundary(r),
        is_move_number(t) || is_result(t),
    ensures
        pgn_walk(t + r, 0, st) == pgn_walk(r, 0, st),
{
    let s = t + r;
    assert(s[0] == t[0]);
    assert(!token_stop(t[0]));
    lemma_token_end_of(t, r, 0);
    assert(s.subrange(0, t.len() as int) =~= t);
    lemma_walk_one(s, st, st, t.len() as int);
    lemma_walk_shift(t, r, 0, st);
}

/// A move is played from the cursor.
proof fn lemma_walk_move(t: Seq<char>, r: Seq<char>, st: PgnState, u: Seq<char>, san: Seq<char>, after: Seq<char>)
    requires
        plain_token(t),
        token_boundary(r),
        !is_move_number(t),
        !is_result(t),
        san_syntax_ok(t),
        san_step(st.tree[st.cursor].fen, t) == Some((u, san, after)),
    ensures
        pgn_walk(t + r, 0, st) == pgn_walk(r, 0, PgnState {
            tree: played(st.tree, st.cursor, u, san, after).0,
            cursor: played(st.tree, st.cursor, u, san, after).1,
            stack: st.stack,
        }),
{
    let s = t + r;
    assert(s[0] == t[0]);
    assert(!token_stop(t[0]));
    lemma_token_end_of(t, r, 0);
    assert(s.subrange(0, t.len() as int) =~= t);
    let st2 = PgnState {
        tree: played(st.tree, st.cursor, u, san, after).0,
        cursor: played(st.tree, st.cursor, u, san, after).1,
        stack: st.stack,
    };
    lemma_walk_one(s, st, st2, t.len() as int);
    lemma_walk_shift(t, r, 0, st2);
}

/// `(` steps back to the move before the cursor, remembering the cursor.
proof fn lemma_walk_open(r: Seq<char>, st: PgnState, p: usize)
    requires
        st.tree[st.cursor].parent == Some(p),
    ensures
        pgn_walk(seq!['('] + r, 0, st) == pgn_walk(r, 0, PgnState {
            tree: st.tree,
            cursor: p as int,
            stack: st.stack.push(st.cursor as usize),
        }),
{
    let s = seq!['('] + r;
    assert(s[0] == '(');
    let st2 = PgnState { tree: st.tree, cursor: p as int, stack: st.stack.push(st.cursor as usize) };
    lemma_walk_one(s, st, st2, 1);
    lemma_walk_shift(seq!['('], r, 0, st2);
}

/// `)` returns to the remembered cursor.
proof fn lemma_walk_close(r: Seq<char>, st: PgnState)
    requires
        st.stack.len() > 0,
    ensures
        pgn_walk(seq![')'] + r, 0, st) == pgn_walk(r, 0, PgnState {
            tree: st.tree,
            cursor: st.stack.last() as int,
            stack: st.stack.drop_last(),
        }),
{
    let s = seq![')'] + r;
    assert(s[0] == ')');
    let st2 = PgnState { tree: st.tree, cursor: st.stack.last() as int, stack: st.stack.drop_last() };
    lemma_walk_one(s, st, st2, 1);
    lemma_walk_shift(seq![')'], r, 0, st2);
}

proof fn lemma_scan_to_past(b: Seq<char>, r: Seq<char>, i: int)
    requires
        0 <= i <= b.len(),
        forall|k: int| 0 <= k < b.len() ==> b[k] != '}',
    ensures
        scan_to(b + seq!['}'] + r, i, '}') == b.len(),
    decreases b.len() - i,
{
    let s = b + seq!['}'] + r;
    if i < b.len() {
        assert(s[i] == b[i]);
        lemma_scan_to_past(b, r, i + 1);
    } else {
        assert(s[i] == '}');
    }
}

/// A `{ }` comment holding a clock reading sets the clock of the move at
/// the cursor.
proof fn lemma_walk_clock_comment(body: Seq<char>, r: Seq<char>, st: PgnState, ms: i64)
    requires
        forall|k: int| 0 <= k < body.len() ==> body[k] != '}',
        clk_comment_ms(body) == Some(ms),
    ensures
        pgn_walk(seq!['{'] + body + seq!['}'] + r, 0, st) == pgn_walk(r, 0, PgnState {
            tree: with_mover_clock(st.tree, st.cursor, ms),
            ..st
        }),
{
    let head = seq!['{'] + body + seq!['}'];
    let s = head + r;
    assert(s[0] == '{');
    assert(seq!['{'] + body + seq!['}'] + r =~= seq!['{'] + (body + seq!['}'] + r));
    lemma_scan_to_past(body, r, 0);
    lemma_scan_to_shift(seq!['{'], body + seq!['}'] + r, 0, '}');
    assert(scan_to(s, 1, '}') == body.len() + 1);
    assert(s.subrange(1, body.len() + 1int) =~= body);
    let st2 = PgnState { tree: with_mover_clock(st.tree, st.cursor, ms), ..st };
    lemma_walk_one(s, st, st2, body.len() + 2int);
    assert(head.len() == body.len() + 2);
    lemma_walk_shift(head, r, 0, st2);
}

proof fn lemma_number_token(n: nat, dots: Seq<char>)
    requires
        dots.len() >= 1,
        forall|j: int| 0 <= j < dots.len() ==> dots[j] == '.',
    ensures
        plain_token(nat_text(n) + dots),
        is_move_number(nat_text(n) + dots),
{
    lemma_nat_text_reads_back(n);
    let d = nat_text(n);
    let tok = d + dots;
    assert(tok[0] == d[0]);
    assert(is_digit(d[0]));
    assert forall|i: int| 0 <= i < tok.len() implies !token_stop(#[trigger] tok[i]) by {
        if i < d.len() {
            assert(tok[i] == d[i]);
            assert(is_digit(d[i]));
        } else {
            assert(tok[i] == dots[i - d.len()]);
        }
    }
    assert(tok.subrange(0, d.len() as int) =~= d);
    assert forall|j: int| d.len() <= j < tok.len() implies tok[j] == '.' by {
        assert(tok[j] == dots[j - d.len()]);
    }
}

/// The move number before a move is skipped.
proof fn lemma_walk_number(t: Seq<NodeView>, c: int, force: bool, r: Seq<char>, st: PgnState)
    ensures
        pgn_walk(number_text(t, c, force) + r, 0, st) == pgn_walk(r, 0, st),
{
    let p = parent_or_self(t, c);
    let white = fen_white_to_move(t[p].fen);
    if white || force {
        let n = fen_fullmoves(t[p].fen) as nat;
        let dots = if white { seq!['.'] } else { seq!['.', '.', '.'] };
        lemma_number_token(n, dots);
        let tok = nat_text(n) + dots;
        assert(number_text(t, c, force) + r =~= tok + (seq![' '] + r));
        assert((seq![' '] + r)[0] == ' ');
        lemma_walk_skip_token(tok, seq![' '] + r, st);
        lemma_walk_space(r, st);
    } else {
        assert(number_text(t, c, force) + r =~= r);
    }
}

/// A clock stamp: digits and colons, starting with a digit.
pub open spec fn stamp_chars(ts: Seq<char>) -> bool {
    &&& ts.len() > 0
    &&& is_digit(ts[0])
    &&& forall|i: int| 0 <= i < ts.len() ==> (is_digit(#[trigger] ts[i]) || ts[i] == ':')
}

proof fn lemma_timestamp_chars(ms: int)
    ensures
        stamp_chars(timestamp_text(ms)),
{
    let m = if ms < 0 { 0 } else { ms };
    let total = m / 1000;
    let a = nat_text((total / 3600) as nat);
    let b = pad2_text(((total % 3600) / 60) as nat);
    let c = pad2_text((total % 60) as nat);
    lemma_nat_text_reads_back((total / 3600) as nat);
    assert(0 <= (total % 3600) / 60 < 100) by (nonlinear_arith)
        requires
            total >= 0,
    ;
    lemma_pad2_reads_back(((total % 3600) / 60) as nat);
    lemma_pad2_reads_back((total % 60) as nat);
    let ts = timestamp_text(ms);
    assert(ts =~= a + seq![':'] + b + seq![':'] + c);
    assert(ts[0] == a[0]);
    assert forall|i: int| 0 <= i < ts.len() implies (is_digit(#[trigger] ts[i]) || ts[i] == ':') by {
        if i < a.len() {
            assert(ts[i] == a[i]);
        } else if i == a.len() {
        } else if i < a.len() + 1 + b.len() {
            assert(ts[i] == b[i - a.len() - 1]);
        } else if i == a.len() + 1 + b.len() {
        } else {
            assert(ts[i] == c[i - a.len() - 2 - b.len()]);
        }
    }
}

proof fn lemma_stamp_len_of(ts: Seq<char>, rest: Seq<char>)
    requires
        forall|i: int| 0 <= i < ts.len() ==> (is_digit(#[trigger] ts[i]) || ts[i] == ':'),
        rest.len() > 0,
        !is_stamp_char(rest[0]),
    ensures
        stamp_len(ts + rest) == ts.len(),
    decreases ts.len(),
{
    let s = ts + rest;
    if ts.len() > 0 {
        assert(s[0] == ts[0]);
        assert(s.drop_first() =~= ts.drop_first() + rest);
        assert forall|i: int| 0 <= i < ts.drop_first().len() implies (is_digit(#[trigger] ts.drop_first()[i]) || ts.drop_first()[i] == ':') by {
            assert(ts.drop_first()[i] == ts[i + 1]);
        }
        lemma_stamp_len_of(ts.drop_first(), rest);
    } else {
        assert(s =~= rest);
    }
}

/// The inside of a clock comment: `[%clk H:MM:SS]`.
pub open spec fn clk_body(ts: Seq<char>) -> Seq<char> {
    seq!['[', '%', 'c', 'l', 'k', ' '] + ts + seq![']']
}

proof fn lemma_clk_body(ts: Seq<char>)
    requires
        stamp_chars(ts),
    ensures
        clk_comment_ms(clk_body(ts)) == timestamp_ms(ts),
        forall|k: int| 0 <= k < clk_body(ts).len() ==> clk_body(ts)[k] != '}',
{
    let b = clk_body(ts);
    assert(b[0] == '[' && b[1] == '%' && b[2] == 'c' && b[3] == 'l' && b[4] == 'k');
    assert(clk_index_from(b, 1) == Some(1int));
    assert(clk_index_from(b, 0) == Some(1int));
    let raw = b.subrange(5, b.len() as int);
    assert(raw =~= seq![' '] + (ts + seq![']']));
    assert(is_space(raw[0]));
    assert(raw.drop_first() =~= ts + seq![']']);
    let rest = ts + seq![']'];
    assert(rest[0] == ts[0]);
    assert(!is_space(rest[0]));
    assert(trim_start(raw) == trim_start(rest));
    assert(trim_start(rest) == rest);
    lemma_stamp_len_of(ts, seq![']']);
    assert(rest.subrange(0, ts.len() as int) =~= ts);
    assert forall|k: int| 0 <= k < b.len() implies b[k] != '}' by {
        if 6 <= k < 6 + ts.len() {
            assert(b[k] == ts[k - 6]);
        }
    }
}

/// A reading rounded down to the second (negative readings as zero), as a
/// clock comment records it.
pub open spec fn whole_seconds_ms(ms: i64) -> i64 {
    (if ms < 0 { 0 } else { (ms / 1000) * 1000 }) as i64
}

/// The reading of the side that made move `c` (the side to move before it).
pub open spec fn mover_reading(t: Seq<NodeView>, c: int) -> Option<i64> {
    match t[c].clock {
        Some((w, b)) => Some(if fen_white_to_move(t[parent_or_self(t, c)].fen) { w } else { b }),
        None => None,
    }
}

/// The state after reading move `c`'s text from `st`: the move played from
/// the cursor, its clock comment applied.
pub open spec fn text_state(t: Seq<NodeView>, c: int, st: PgnState) -> PgnState {
    let (t2, id) = played(st.tree, st.cursor, t[c].uci, t[c].san, t[c].fen);
    PgnState {
        tree: match mover_reading(t, c) {
            Some(ms) => with_mover_clock(t2, id, whole_seconds_ms(ms)),
            None => t2,
        },
        cursor: id,
        stack: st.stack,
    }
}

/// What a move's SAN must be for its text to read back as the move.
pub open spec fn san_reads_back(san: Seq<char>) -> bool {
    &&& plain_token(san)
    &&& !is_move_number(san)
    &&& !is_result(san)
    &&& san_syntax_ok(san)
    &&& forall|i: int| 0 <= i < san.len() ==> !is_space(#[trigger] san[i])
}

/// Reading a move's text plays the move from the cursor and applies its
/// clock comment.
#[verifier::rlimit(40)]
proof fn lemma_walk_text(t: Seq<NodeView>, c: int, force: bool, r: Seq<char>, st: PgnState)
    requires
        0 <= c < t.len(),
        san_reads_back(t[c].san),
        san_step(st.tree[st.cursor].fen, t[c].san) == Some((t[c].uci, t[c].san, t[c].fen)),
    ensures
        pgn_walk(move_text(t, c, force) + r, 0, st) == pgn_walk(r, 0, text_state(t, c, st)),
{
    let san = t[c].san;
    let com = comment_text(t, c);
    let after = com + seq![' '] + r;
    assert(move_text(t, c, force) + r =~= number_text(t, c, force) + (san + after));
    lemma_walk_number(t, c, force, san + after, st);
    let (t2, id) = played(st.tree, st.cursor, t[c].uci, t[c].san, t[c].fen);
    let st2 = PgnState { tree: t2, cursor: id, stack: st.stack };
    match t[c].clock {
        Some((w, b)) => {
            let ms = if fen_white_to_move(t[parent_or_self(t, c)].fen) { w } else { b };
            let ts = timestamp_text(ms as int);
            lemma_timestamp_chars(ms as int);
            lemma_clk_body(ts);
            timestamp_reads_back(ms);
            assert(com =~= seq![' '] + (seq!['{'] + clk_body(ts) + seq!['}']));
            assert(after[0] == ' ');
            lemma_walk_move(san, after, st, t[c].uci, t[c].san, t[c].fen);
            assert(after =~= seq![' '] + (seq!['{'] + clk_body(ts) + seq!['}'] + (seq![' '] + r)));
            lemma_walk_space(seq!['{'] + clk_body(ts) + seq!['}'] + (seq![' '] + r), st2);
            lemma_walk_clock_comment(clk_body(ts), seq![' '] + r, st2, whole_seconds_ms(ms));
            let st3 = PgnState { tree: with_mover_clock(t2, id, whole_seconds_ms(ms)), ..st2 };
            lemma_walk_space(r, st3);
        },
        None => {
            assert(com =~= Seq::<char>::empty());
            assert(after =~= seq![' '] + r);
            assert(after[0] == ' ');
            lemma_walk_move(san, after, st, t[c].uci, t[c].san, t[c].fen);
            lemma_walk_space(r, st2);
        },
    }
}

/// A reading as a clock comment carries it back.
pub open spec fn whole_reading(r: Option<i64>) -> Option<i64> {
    match r {
        Some(ms) => Some(whole_seconds_ms(ms)),
        None => None,
    }
}

/// Move `c` of `t` reads back: its SAN is a plain token that, read in its
/// parent's position, is that very move.
pub open spec fn move_reads_back(t: Seq<NodeView>, c: int) -> bool {
    &&& san_reads_back(t[c].san)
    &&& t[c].parent is Some
    &&& san_step(t[t[c].parent->0 as int].fen, t[c].san) == Some((t[c].uci, t[c].san, t[c].fen))
}

/// No two children of a node are reached by the same move.
pub open spec fn siblings_distinct(t: Seq<NodeView>) -> bool {
    forall|p: int, i: int, j: int| #![trigger t[p].children[i], t[p].children[j]]
        0 <= p < t.len() && 0 <= i < j < t[p].children.len() ==> t[t[p].children[i] as int].uci != t[t[p].children[j] as int].uci
}

/// Node `d` of `t` is matched by node `m[d]` of `t2`: same move and
/// position, matched parent, its first children matched in order, and the
/// clock reading of its mover as a comment records it.
pub open spec fn maps_node(t: Seq<NodeView>, t2: Seq<NodeView>, m: Map<int, int>, d: int) -> bool {
    &&& 0 <= d < t.len()
    &&& 0 <= m[d] < t2.len()
    &&& (d != 0 ==> t2[m[d]].uci == t[d].uci && t2[m[d]].san == t[d].san)
    &&& t2[m[d]].fen == t[d].fen
    &&& (d != 0 ==> t[d].parent is Some && m.dom().contains(t[d].parent->0 as int) && t2[m[d]].parent == Some(
        m[t[d].parent->0 as int] as usize,
    ))
    &&& t2[m[d]].children.len() <= t[d].children.len()
    &&& forall|k: int| #![trigger t[d].children[k]]
        0 <= k < t2[m[d]].children.len() ==> m.dom().contains(t[d].children[k] as int) && t2[m[d]].children[k]
            == m[t[d].children[k] as int]
    &&& (d != 0 ==> mover_reading(t2, m[d]) == whole_reading(mover_reading(t, d)))
}

/// Every node of `t2` other than the root is listed among its parent's
/// children.
pub open spec fn parents_list_children(t2: Seq<NodeView>) -> bool {
    forall|x: int| 0 < x < t2.len() ==> (#[trigger] t2[t2[x].parent->0 as int]).children.contains(x as usize)
}

/// `m` matches the nodes of `t` read so far with the nodes of `t2`, which
/// are exactly their images.
#[verifier::opaque]
pub open spec fn piso(t: Seq<NodeView>, t2: Seq<NodeView>, m: Map<int, int>) -> bool {
    &&& wf(t2)
    &&& parents_list_children(t2)
    &&& m.dom().finite()
    &&& m.dom().len() == t2.len()
    &&& t2.len() <= usize::MAX
    &&& m.dom().contains(0)
    &&& m[0] == 0
    &&& forall|d: int| #[trigger] m.dom().contains(d) ==> maps_node(t, t2, m, d)
    &&& forall|d1: int, d2: int| #![trigger m[d1], m[d2]]
        m.dom().contains(d1) && m.dom().contains(d2) && m[d1] == m[d2] ==> d1 == d2
}

proof fn lemma_piso_node(t: Seq<NodeView>, t2: Seq<NodeView>, m: Map<int, int>, d: int)
    requires
        piso(t, t2, m),
        m.dom().contains(d),
    ensures
        maps_node(t, t2, m, d),
        wf(t2),
        t2.len() <= usize::MAX,
{
    reveal(piso);
}

proof fn lemma_no_child_with_uci(t2: Seq<NodeView>, x: int, uci: Seq<char>, k: int)
    requires
        0 <= x < t2.len(),
        0 <= k,
        forall|j: int| 0 <= j < t2[x].children.len() ==> 0 <= #[trigger] t2[x].children[j] < t2.len() && t2[t2[x].children[j] as int].uci != uci,
    ensures
        child_with_uci_from(t2, x, uci, k) is None,
    decreases t2[x].children.len() - k,
{
    if k < t2[x].children.len() {
        lemma_no_child_with_uci(t2, x, uci, k + 1);
    }
}

/// The `k`-th child of a matched node whose first `k` children are matched
/// is not matched yet.
proof fn lemma_next_child_unmapped(t: Seq<NodeView>, t2: Seq<NodeView>, m: Map<int, int>, id: int, k: int)
    requires
        wf(t),
        siblings_distinct(t),
        piso(t, t2, m),
        m.dom().contains(id),
        t2[m[id]].children.len() == k,
        0 <= k < t[id].children.len(),
    ensures
        !m.dom().contains(t[id].children[k] as int),
{
    reveal(piso);
    let ch = t[id].children[k] as int;
    assert(maps_node(t, t2, m, id));
    if m.dom().contains(ch) {
        assert(maps_node(t, t2, m, ch));
        assert(t[ch].parent == Some(id as usize));
        assert(ch != 0);
        let x = m[ch];
        assert(t2[x].parent == Some(m[id] as usize));
        assert(x != 0) by {
            assert(m[ch] == m[0] ==> ch == 0);
        }
        assert(t2[t2[x].parent->0 as int].children.contains(x as usize));
        assert(t2[x].parent->0 as int == m[id]);
        assert(t2[m[id]].children.contains(x as usize));
        let j = choose|j: int| 0 <= j < t2[m[id]].children.len() && t2[m[id]].children[j] == x as usize;
        assert(t2[m[id]].children[j] == m[t[id].children[j] as int]);
        let cj = t[id].children[j] as int;
        assert(m[cj] == m[ch]);
        assert(cj == ch);
        assert(t[t[id].children[j] as int].uci != t[t[id].children[k] as int].uci);
    }
}

proof fn lemma_clock_frame(t2: Seq<NodeView>, id: int, ms: i64)
    requires
        wf(t2),
        0 <= id < t2.len(),
    ensures
        ({
            let t3 = with_mover_clock(t2, id, ms);
            &&& t3.len() == t2.len()
            &&& forall|x: int| 0 <= x < t2.len() && x != id ==> #[trigger] t3[x] == t2[x]
            &&& t3[id].parent == t2[id].parent
            &&& t3[id].children == t2[id].children
            &&& t3[id].uci == t2[id].uci
            &&& t3[id].san == t2[id].san
            &&& t3[id].fen == t2[id].fen
            &&& wf(t3)
        }),
{
    let t3 = with_mover_clock(t2, id, ms);
    assert forall|i: int, k: int| #![trigger t3[i].children[k]]
        0 <= i < t3.len() && 0 <= k < t3[i].children.len() implies {
            &&& crate::tree::child_ok(t3, i, t3[i].children[k] as int)
            &&& t3[t3[i].children[k] as int].parent == Some(i as usize)
        } by {
        assert(t3[i].children == t2[i].children);
        assert(t2[i].children[k] == t3[i].children[k]);
        let ch = t2[i].children[k] as int;
        assert(t3[ch].parent == t2[ch].parent);
    }
    assert forall|i: int| #![trigger t3[i].parent] 0 < i < t3.len() implies t3[i].parent is Some && t3[i].parent->0 < i by {
        assert(t3[i].parent == t2[i].parent);
    }
}

proof fn lemma_whole_text(ms: i64)
    ensures
        timestamp_text(whole_seconds_ms(ms) as int) == timestamp_text(ms as int),
{
    if ms >= 0 {
        let w = (ms / 1000) * 1000;
        assert(w / 1000 == ms / 1000) by (nonlinear_arith)
            requires
                w == (ms / 1000) * 1000,
                ms >= 0,
        ;
        assert(0 <= w <= ms) by (nonlinear_arith)
            requires
                w == (ms / 1000) * 1000,
                ms >= 0,
        ;
    }
}

/// Adding child `id` (matching `c`, the `k`-th child of the node matched by
/// `mp`) keeps the nodes matched before matched.
proof fn lemma_old_nodes_stay(
    t: Seq<NodeView>,
    t2: Seq<NodeView>,
    tb: Seq<NodeView>,
    m: Map<int, int>,
    c: int,
    id: int,
    mp: int,
    k: int,
)
    requires
        piso(t, t2, m),
        !m.dom().contains(c),
        0 < c < t.len(),
        t[c].parent is Some,
        m.dom().contains(t[c].parent->0 as int),
        mp == m[t[c].parent->0 as int],
        id == t2.len(),
        tb.len() == t2.len() + 1,
        t2[mp].children.len() == k,
        0 <= k < t[t[c].parent->0 as int].children.len(),
        t[t[c].parent->0 as int].children[k] == c,
        forall|x: int| 0 <= x < t2.len() && x != mp ==> #[trigger] tb[x] == t2[x],
        tb[mp].children == t2[mp].children.push(id as usize),
        tb[mp].parent == t2[mp].parent,
        tb[mp].fen == t2[mp].fen,
        tb[mp].uci == t2[mp].uci,
        tb[mp].san == t2[mp].san,
        tb[mp].clock == t2[mp].clock,
    ensures
        forall|d: int| #[trigger] m.dom().contains(d) ==> maps_node(t, tb, m.insert(c, id), d),
{
    reveal(piso);
    let p = t[c].parent->0 as int;
    let m2 = m.insert(c, id);
    assert forall|d: int| #[trigger] m.dom().contains(d) implies maps_node(t, tb, m2, d) by {
        assert(maps_node(t, t2, m, d));
        assert(m2[d] == m[d]);
        let x = m[d];
        if d != 0 {
            let q = t[d].parent->0 as int;
            assert(m.dom().contains(q));
            assert(m2[q] == m[q]);
            assert(tb[x].parent == t2[x].parent);
            let pq = m[q];
            assert(maps_node(t, t2, m, q));
            assert(tb[pq].fen == t2[pq].fen);
            assert(parent_or_self(tb, x) == pq);
            assert(tb[x].clock == t2[x].clock);
            assert(mover_reading(tb, x) == mover_reading(t2, x));
        }
        if d == p {
            assert forall|kk: int| #![trigger t[d].children[kk]]
                0 <= kk < tb[x].children.len() implies m2.dom().contains(t[d].children[kk] as int)
                    && tb[x].children[kk] == m2[t[d].children[kk] as int] by {
                if kk < k {
                    assert(tb[x].children[kk] == t2[x].children[kk]);
                    assert(m.dom().contains(t[d].children[kk] as int));
                }
            }
        } else {
            assert(x != mp) by {
                assert(m[d] == m[p] ==> d == p);
            }
            assert(tb[x] == t2[x]);
            assert forall|kk: int| #![trigger t[d].children[kk]]
                0 <= kk < tb[x].children.len() implies m2.dom().contains(t[d].children[kk] as int)
                    && tb[x].children[kk] == m2[t[d].children[kk] as int] by {
                assert(m.dom().contains(t[d].children[kk] as int));
            }
        }
    }
}

/// Reading the text of move `c`, the `k`-th child of its parent, once the
/// parent's first `k` children are read: `c` is matched by a new node.
proof fn lemma_text_iso(t: Seq<NodeView>, c: int, k: int, force: bool, st: PgnState, m: Map<int, int>) -> (m2: Map<int, int>)
    requires
        wf(t),
        siblings_distinct(t),
        t.len() <= usize::MAX,
        0 < c < t.len(),
        move_reads_back(t, c),
        piso(t, st.tree, m),
        m.dom().contains(t[c].parent->0 as int),
        st.cursor == m[t[c].parent->0 as int],
        0 <= k < t[t[c].parent->0 as int].children.len(),
        t[t[c].parent->0 as int].children[k] == c,
        st.tree[st.cursor].children.len() == k,
    ensures
        m2 == m.insert(c, st.tree.len() as int),
        !m.dom().contains(c),
        ({
            let st2 = text_state(t, c, st);
            &&& piso(t, st2.tree, m2)
            &&& st2.cursor == m2[c]
            &&& st2.stack == st.stack
            &&& st2.tree.len() == st.tree.len() + 1
            &&& st2.tree[m2[c]].children.len() == 0
            &&& st2.tree[st.cursor].children.len() == k + 1
            &&& forall|d: int| #[trigger] m.dom().contains(d) && d != t[c].parent->0 as int
                ==> st2.tree[m[d]].children == st.tree[m[d]].children
        }),
{
    reveal(piso);
    let p = t[c].parent->0 as int;
    let t2 = st.tree;
    let mp = m[p];
    assert(maps_node(t, t2, m, p));
    lemma_next_child_unmapped(t, t2, m, p, k);
    assert(t[p].children[k] as int == c);
    // sizes
    vstd::set_lib::lemma_int_range(0, t.len() as int);
    assert(m.dom().insert(c).subset_of(vstd::set_lib::set_int_range(0, t.len() as int))) by {
        assert forall|d: int| m.dom().insert(c).contains(d) implies vstd::set_lib::set_int_range(0, t.len() as int).contains(d) by {
            if d != c {
                assert(maps_node(t, t2, m, d));
            }
        }
    }
    vstd::set_lib::lemma_len_subset(m.dom().insert(c), vstd::set_lib::set_int_range(0, t.len() as int));
    assert(t2.len() < usize::MAX);
    // no earlier child of the parent is reached by this move
    assert forall|j: int| 0 <= j < t2[mp].children.len() implies 0 <= #[trigger] t2[mp].children[j] < t2.len() && t2[t2[mp].children[j] as int].uci != t[c].uci by {
        assert(t2[mp].children[j] == m[t[p].children[j] as int]);
        let cj = t[p].children[j] as int;
        assert(maps_node(t, t2, m, cj));
        assert(t[t[p].children[j] as int].uci != t[t[p].children[k] as int].uci);
        assert(crate::tree::child_ok(t2, mp, t2[mp].children[j] as int));
    }
    lemma_no_child_with_uci(t2, mp, t[c].uci, 0);
    let id = t2.len() as int;
    let ta = with_new_child(t2, mp, t[c].uci, t[c].san, t[c].fen, None);
    lemma_wf_new_child(t2, mp, t[c].uci, t[c].san, t[c].fen, None);
    assert(played(t2, mp, t[c].uci, t[c].san, t[c].fen) == (ta, id));
    let st2 = text_state(t, c, st);
    let tb = st2.tree;
    let m2 = m.insert(c, id);
    assert(ta.len() == t2.len() + 1);
    assert(ta[id].parent == Some(mp as usize));
    match mover_reading(t, c) {
        Some(ms) => {
            lemma_clock_frame(ta, id, whole_seconds_ms(ms));
        },
        None => {},
    }
    assert(tb.len() == ta.len());
    assert(wf(tb));
    assert forall|x: int| 0 <= x < t2.len() && x != mp implies #[trigger] tb[x] == t2[x] by {
        assert(ta[x] == t2[x]);
    }
    assert(tb[mp].children == t2[mp].children.push(id as usize)) by {
        assert(ta[mp].children == t2[mp].children.push(id as usize));
    }
    assert(tb[mp].parent == t2[mp].parent && tb[mp].fen == t2[mp].fen && tb[mp].uci == t2[mp].uci
        && tb[mp].san == t2[mp].san && tb[mp].clock == t2[mp].clock);
    assert(tb[id].parent == Some(mp as usize) && tb[id].fen == t[c].fen && tb[id].uci == t[c].uci
        && tb[id].san == t[c].san && tb[id].children.len() == 0);
    // the new node's clock
    assert(parent_or_self(t, c) == p);
    assert(parent_or_self(tb, id) == mp);
    assert(mover_reading(tb, id) == whole_reading(mover_reading(t, c)));
    // every node stays matched
    lemma_old_nodes_stay(t, t2, tb, m, c, id, mp, k);
    assert(m2.dom().contains(p) && m2[p] == mp);
    assert(maps_node(t, tb, m2, c));
    assert forall|d: int| #[trigger] m2.dom().contains(d) implies maps_node(t, tb, m2, d) by {
        if d != c {
            assert(m.dom().contains(d));
        }
    }
    assert forall|d1: int, d2: int| #![trigger m2[d1], m2[d2]]
        m2.dom().contains(d1) && m2.dom().contains(d2) && m2[d1] == m2[d2] implies d1 == d2 by {
        if d1 != c && d2 != c {
            assert(m[d1] == m[d2]);
        } else if d1 != c {
            assert(maps_node(t, t2, m, d1));
        } else if d2 != c {
            assert(maps_node(t, t2, m, d2));
        }
    }
    assert forall|x: int| 0 < x < tb.len() implies (#[trigger] tb[tb[x].parent->0 as int]).children.contains(x as usize) by {
        if x == id {
            assert(tb[mp].children[k] == id as usize);
        } else {
            let q = t2[x].parent->0 as int;
            assert(t2[q].children.contains(x as usize));
            let j = choose|j: int| 0 <= j < t2[q].children.len() && t2[q].children[j] == x as usize;
            if q == mp {
                assert(tb[q].children[j] == x as usize);
            } else {
                assert(tb[q] == t2[q]);
            }
        }
    }
    assert(m2.dom() == m.dom().insert(c));
    m2
}

/// What every move of `t` needs for its text to read back.
pub open spec fn moves_read_back(t: Seq<NodeView>) -> bool {
    &&& wf(t)
    &&& siblings_distinct(t)
    &&& t.len() <= usize::MAX
    &&& forall|c: int| 0 < c < t.len() ==> #[trigger] move_reads_back(t, c)
}

/// `m2` agrees with `m` wherever `m` is defined.
pub open spec fn extends(m: Map<int, int>, m2: Map<int, int>) -> bool {
    &&& m.dom().subset_of(m2.dom())
    &&& forall|d: int| #[trigger] m.dom().contains(d) ==> m2[d] == m[d]
}

/// The nodes matched by `m`, other than `except`, keep their children.
pub open spec fn children_kept(m: Map<int, int>, t2: Seq<NodeView>, t3: Seq<NodeView>, except: int) -> bool {
    forall|d: int| #[trigger] m.dom().contains(d) && d != except ==> t3[m[d]].children == t2[m[d]].children
}

/// The nodes matched by `m2` but not by `m` have all their children.
pub open spec fn new_complete(t: Seq<NodeView>, t3: Seq<NodeView>, m: Map<int, int>, m2: Map<int, int>) -> bool {
    forall|d: int| #[trigger] m2.dom().contains(d) && !m.dom().contains(d) ==> t3[m2[d]].children.len() == t[d].children.len()
}

/// Reading what follows move `id` (none of whose children is read yet).
#[verifier::rlimit(60)]
#[verifier::spinoff_prover]
proof fn lemma_walk_cont(t: Seq<NodeView>, id: int, force: bool, r: Seq<char>, st: PgnState, m: Map<int, int>) -> (res: (PgnState, Map<int, int>))
    requires
        moves_read_back(t),
        piso(t, st.tree, m),
        m.dom().contains(id),
        st.cursor == m[id],
        st.tree[m[id]].children.len() == 0,
    ensures
        pgn_walk(continuation_pgn(t, id, force) + r, 0, st) == pgn_walk(r, 0, res.0),
        piso(t, res.0.tree, res.1),
        extends(m, res.1),
        res.0.stack == st.stack,
        res.1.dom().contains(last_mainline(t, id)),
        res.0.cursor == res.1[last_mainline(t, id)],
        res.0.tree[m[id]].children.len() == t[id].children.len(),
        children_kept(m, st.tree, res.0.tree, id),
        new_complete(t, res.0.tree, m, res.1),
    decreases t.len() - id, 1int, 0int, 0int,
{
    lemma_piso_node(t, st.tree, m, id);
    let ch = t[id].children;
    if ch.len() == 0 {
        assert(continuation_pgn(t, id, force) + r =~= r);
        (st, m)
    } else {
        let c0 = ch[0] as int;
        assert(child_ok(t, id, c0));
        assert(t[c0].parent == Some(id as usize));
        if ch.len() == 1 {
            let res = lemma_walk_line(t, c0, 0, force, r, st, m);
            assert(last_mainline(t, id) == last_mainline(t, c0));
            res
        } else {
            let rest = variations_pgn(t, id, 1) + continuation_pgn(t, c0, true) + r;
            assert(continuation_pgn(t, id, force) + r =~= move_text(t, c0, force) + rest);
            assert(move_reads_back(t, c0));
            lemma_walk_text(t, c0, force, rest, st);
            let m1 = lemma_text_iso(t, c0, 0, force, st, m);
            let st1 = text_state(t, c0, st);
            let rest2 = continuation_pgn(t, c0, true) + r;
            assert(rest =~= variations_pgn(t, id, 1) + rest2);
            let (st2, m2) = lemma_walk_var(t, id, 1, rest2, st1, m1);
            assert(m1.dom().contains(c0));
            assert(m2.dom().contains(c0));
            assert(m2[c0] == m1[c0]);
            assert(st2.cursor == m2[c0]);
            assert(st2.tree[m2[c0]].children.len() == 0);
            let (st3, m3) = lemma_walk_cont(t, c0, true, r, st2, m2);
            assert(last_mainline(t, id) == last_mainline(t, c0));
            assert(extends(m, m3)) by {
                assert forall|d: int| #[trigger] m.dom().contains(d) implies m3[d] == m[d] by {
                    assert(m1.dom().contains(d));
                    assert(m2.dom().contains(d));
                }
            }
            assert(st3.tree[m[id]].children.len() == t[id].children.len()) by {
                assert(m1[id] == m[id]);
                assert(m2.dom().contains(id));
                assert(m2[id] == m[id]);
            }
            assert(children_kept(m, st.tree, st3.tree, id)) by {
                assert forall|d: int| #[trigger] m.dom().contains(d) && d != id implies st3.tree[m[d]].children == st.tree[m[d]].children by {
                    assert(m1.dom().contains(d) && m1[d] == m[d]);
                    assert(m2.dom().contains(d) && m2[d] == m[d]);
                    assert(d != c0);
                }
            }
            assert(new_complete(t, st3.tree, m, m3)) by {
                assert forall|d: int| #[trigger] m3.dom().contains(d) && !m.dom().contains(d) implies st3.tree[m3[d]].children.len() == t[d].children.len() by {
                    if m2.dom().contains(d) {
                        assert(m3[d] == m2[d]);
                        if m1.dom().contains(d) {
                            assert(d == c0);
                        } else {
                            assert(st2.tree[m2[d]].children.len() == t[d].children.len());
                            assert(d != c0);
                        }
                    }
                }
            }
            (st3, m3)
        }
    }
}

/// Reading move `c` (the `k`-th child of its parent) and everything after it.
#[verifier::rlimit(60)]
#[verifier::spinoff_prover]
proof fn lemma_walk_line(t: Seq<NodeView>, c: int, k: int, force: bool, r: Seq<char>, st: PgnState, m: Map<int, int>) -> (res: (PgnState, Map<int, int>))
    requires
        moves_read_back(t),
        0 < c < t.len(),
        piso(t, st.tree, m),
        t[c].parent is Some,
        m.dom().contains(t[c].parent->0 as int),
        st.cursor == m[t[c].parent->0 as int],
        0 <= k < t[t[c].parent->0 as int].children.len(),
        t[t[c].parent->0 as int].children[k] == c,
        st.tree[st.cursor].children.len() == k,
    ensures
        pgn_walk(move_pgn(t, c, force) + r, 0, st) == pgn_walk(r, 0, res.0),
        piso(t, res.0.tree, res.1),
        extends(m, res.1),
        res.0.stack == st.stack,
        res.1.dom().contains(c),
        res.1.dom().contains(last_mainline(t, c)),
        res.0.cursor == res.1[last_mainline(t, c)],
        res.0.tree[st.cursor].children.len() == k + 1,
        children_kept(m, st.tree, res.0.tree, t[c].parent->0 as int),
        new_complete(t, res.0.tree, m, res.1),
    decreases t.len() - c, 2int, 0int, 0int,
{
    let p = t[c].parent->0 as int;
    assert(move_reads_back(t, c));
    let rest = continuation_pgn(t, c, false) + r;
    assert(move_pgn(t, c, force) + r =~= move_text(t, c, force) + rest);
    lemma_piso_node(t, st.tree, m, p);
    assert(st.tree[st.cursor].fen == t[p].fen);
    lemma_walk_text(t, c, force, rest, st);
    let m1 = lemma_text_iso(t, c, k, force, st, m);
    let st1 = text_state(t, c, st);
    let (st2, m2) = lemma_walk_cont(t, c, false, r, st1, m1);
    assert(extends(m, m2)) by {
        assert forall|d: int| #[trigger] m.dom().contains(d) implies m2[d] == m[d] by {
            assert(m1.dom().contains(d));
        }
    }
    assert(st2.tree[st.cursor].children.len() == k + 1) by {
        assert(m1.dom().contains(p) && m1[p] == m[p]);
        assert(p != c);
    }
    assert(children_kept(m, st.tree, st2.tree, p)) by {
        assert forall|d: int| #[trigger] m.dom().contains(d) && d != p implies st2.tree[m[d]].children == st.tree[m[d]].children by {
            assert(m1.dom().contains(d) && m1[d] == m[d]);
            assert(d != c);
        }
    }
    assert(new_complete(t, st2.tree, m, m2)) by {
        assert forall|d: int| #[trigger] m2.dom().contains(d) && !m.dom().contains(d) implies st2.tree[m2[d]].children.len() == t[d].children.len() by {
            if m1.dom().contains(d) {
                assert(d == c);
            }
        }
    }
    (st2, m2)
}

#[verifier::rlimit(60)]
#[verifier::spinoff_prover]
/// Reading one variation `( ... )`: the `k`-th child of `id` and what
/// follows it, read from `id`, the cursor coming back to where it was.
proof fn lemma_walk_paren(t: Seq<NodeView>, id: int, k: int, r: Seq<char>, st: PgnState, m: Map<int, int>) -> (res: (PgnState, Map<int, int>))
    requires
        moves_read_back(t),
        0 <= id < t.len(),
        piso(t, st.tree, m),
        m.dom().contains(id),
        1 <= k < t[id].children.len(),
        m.dom().contains(t[id].children[0] as int),
        st.cursor == m[t[id].children[0] as int],
        st.tree[m[id]].children.len() == k,
    ensures
        pgn_walk(seq!['(', ' '] + move_pgn(t, t[id].children[k] as int, true) + seq![')', ' '] + r, 0, st)
            == pgn_walk(r, 0, res.0),
        piso(t, res.0.tree, res.1),
        extends(m, res.1),
        res.0.stack == st.stack,
        res.0.cursor == st.cursor,
        res.0.tree[m[id]].children.len() == k + 1,
        children_kept(m, st.tree, res.0.tree, id),
        new_complete(t, res.0.tree, m, res.1),
    decreases t.len() - id, 0int, t[id].children.len() - k, 0int,
{
    let c0 = t[id].children[0] as int;
    let ck = t[id].children[k] as int;
    assert(child_ok(t, id, ck));
    assert(child_ok(t, id, c0));
    assert(t[ck].parent == Some(id as usize));
    lemma_piso_node(t, st.tree, m, c0);
    lemma_piso_node(t, st.tree, m, id);
    assert(t[c0].parent == Some(id as usize));
    assert(t[c0].parent->0 as int == id);
    assert(st.tree[st.cursor].parent == Some(m[id] as usize));
    let tail = seq![')', ' '] + r;
    let rest = move_pgn(t, ck, true) + tail;
    let whole = seq!['(', ' '] + move_pgn(t, ck, true) + seq![')', ' '] + r;
    assert(whole =~= seq!['('] + (seq![' '] + rest));
    lemma_walk_open(seq![' '] + rest, st, m[id] as usize);
    let st0 = PgnState { tree: st.tree, cursor: m[id], stack: st.stack.push(st.cursor as usize) };
    assert(pgn_walk(whole, 0, st) == pgn_walk(seq![' '] + rest, 0, st0));
    lemma_walk_space(rest, st0);
    assert(pgn_walk(whole, 0, st) == pgn_walk(rest, 0, st0));
    let (st1, m1) = lemma_walk_line(t, ck, k, true, tail, st0, m);
    assert(pgn_walk(whole, 0, st) == pgn_walk(tail, 0, st1));
    assert(tail =~= seq![')'] + (seq![' '] + r));
    assert(st1.stack.last() == st.cursor as usize);
    lemma_walk_close(seq![' '] + r, st1);
    assert(st1.stack.drop_last() =~= st.stack);
    let st2 = PgnState { tree: st1.tree, cursor: st.cursor, stack: st.stack };
    assert(pgn_walk(whole, 0, st) == pgn_walk(seq![' '] + r, 0, st2));
    lemma_walk_space(r, st2);
    assert(m1[id] == m[id]);
    (st2, m1)
}

/// Reading the variations `children[k..]` of `id`, the mainline child's move
/// having been read.
#[verifier::rlimit(60)]
#[verifier::spinoff_prover]
proof fn lemma_walk_var(t: Seq<NodeView>, id: int, k: int, r: Seq<char>, st: PgnState, m: Map<int, int>) -> (res: (PgnState, Map<int, int>))
    requires
        moves_read_back(t),
        0 <= id < t.len(),
        piso(t, st.tree, m),
        m.dom().contains(id),
        1 <= k <= t[id].children.len(),
        m.dom().contains(t[id].children[0] as int),
        st.cursor == m[t[id].children[0] as int],
        st.tree[m[id]].children.len() == k,
    ensures
        pgn_walk(variations_pgn(t, id, k) + r, 0, st) == pgn_walk(r, 0, res.0),
        piso(t, res.0.tree, res.1),
        extends(m, res.1),
        res.0.stack == st.stack,
        res.0.cursor == st.cursor,
        res.0.tree[m[id]].children.len() == t[id].children.len(),
        children_kept(m, st.tree, res.0.tree, id),
        new_complete(t, res.0.tree, m, res.1),
    decreases t.len() - id, 0int, t[id].children.len() - k, 1int,
{
    if k >= t[id].children.len() {
        assert(variations_pgn(t, id, k) + r =~= r);
        (st, m)
    } else {
        let ck = t[id].children[k] as int;
        assert(child_ok(t, id, ck));
        let tail = variations_pgn(t, id, k + 1) + r;
        assert(variations_pgn(t, id, k) + r =~= seq!['(', ' '] + move_pgn(t, ck, true) + seq![')', ' '] + tail);
        let (st1, m1) = lemma_walk_paren(t, id, k, tail, st, m);
        let c0 = t[id].children[0] as int;
        assert(m1.dom().contains(c0) && m1[c0] == m[c0]);
        assert(m1.dom().contains(id) && m1[id] == m[id]);
        let (st3, m3) = lemma_walk_var(t, id, k + 1, r, st1, m1);
        assert(extends(m, m3)) by {
            assert forall|d: int| #[trigger] m.dom().contains(d) implies m3[d] == m[d] by {
                assert(m1.dom().contains(d));
            }
        }
        assert(children_kept(m, st.tree, st3.tree, id)) by {
            assert forall|d: int| #[trigger] m.dom().contains(d) && d != id implies st3.tree[m[d]].children == st.tree[m[d]].children by {
                assert(m1.dom().contains(d) && m1[d] == m[d]);
            }
        }
        assert(new_complete(t, st3.tree, m, m3)) by {
            assert forall|d: int| #[trigger] m3.dom().contains(d) && !m.dom().contains(d) implies st3.tree[m3[d]].children.len() == t[d].children.len() by {
                if m1.dom().contains(d) {
                    assert(m3[d] == m1[d]);
                    assert(st1.tree[m1[d]].children.len() == t[d].children.len());
                    assert(d != id);
                }
            }
        }
        (st3, m3)
    }
}

proof fn lemma_clk_index_range(b: Seq<char>, i: int)
    requires
        0 <= i,
    ensures
        clk_index_from(b, i) matches Some(x) ==> i <= x && x + 4 <= b.len(),
    decreases b.len() - i,
{
    if i + 4 <= b.len() {
        lemma_clk_index_range(b, i + 1);
    }
}

proof fn lemma_clk_index_space(b: Seq<char>, i: int)
    requires
        0 <= i,
    ensures
        clk_index_from(b + seq![' '], i) == clk_index_from(b, i),
    decreases b.len() + 1 - i,
{
    let s = b + seq![' '];
    if i + 4 <= s.len() {
        if i + 4 <= b.len() {
            assert(s[i] == b[i] && s[i + 1] == b[i + 1] && s[i + 2] == b[i + 2] && s[i + 3] == b[i + 3]);
            lemma_clk_index_space(b, i + 1);
        } else {
            assert(s[i + 3] == ' ');
            lemma_clk_index_space(b, i + 1);
        }
    }
}

proof fn lemma_trim_start_space(u: Seq<char>)
    ensures
        trim_start(u + seq![' ']) == (if trim_start(u).len() == 0 { Seq::<char>::empty() } else { trim_start(u) + seq![' '] }),
    decreases u.len(),
{
    let s = u + seq![' '];
    if u.len() > 0 {
        assert(s[0] == u[0]);
        if is_space(u[0]) {
            assert(s.drop_first() =~= u.drop_first() + seq![' ']);
            lemma_trim_start_space(u.drop_first());
            assert(trim_start(s) == trim_start(s.drop_first()));
            assert(trim_start(u) == trim_start(u.drop_first()));
        } else {
            assert(trim_start(s) == s);
            assert(trim_start(u) == u);
        }
    } else {
        assert(s =~= seq![' ']);
        assert(is_space(s[0]));
        assert(s.drop_first() =~= Seq::<char>::empty());
        assert(trim_start(s) == trim_start(s.drop_first()));
        assert(trim_start(Seq::<char>::empty()) == Seq::<char>::empty());
        assert(trim_start(u) == u);
    }
}

proof fn lemma_stamp_len_space(v: Seq<char>)
    ensures
        stamp_len(v + seq![' ']) == stamp_len(v),
        0 <= stamp_len(v) <= v.len(),
    decreases v.len(),
{
    let s = v + seq![' '];
    if v.len() > 0 {
        assert(s[0] == v[0]);
        if is_stamp_char(v[0]) {
            assert(s.drop_first() =~= v.drop_first() + seq![' ']);
            lemma_stamp_len_space(v.drop_first());
        }
    } else {
        assert(s =~= seq![' ']);
        assert(!is_stamp_char(s[0]));
    }
}

/// A space after a comment's text changes nothing of its clock reading.
proof fn lemma_clk_comment_space(b: Seq<char>)
    ensures
        clk_comment_ms(b + seq![' ']) == clk_comment_ms(b),
{
    let s = b + seq![' '];
    lemma_clk_index_space(b, 0);
    lemma_clk_index_range(b, 0);
    match clk_index_from(b, 0) {
        Some(x) => {
            let u = b.subrange(x + 4, b.len() as int);
            assert(s.subrange(x + 4, s.len() as int) =~= u + seq![' ']);
            lemma_trim_start_space(u);
            let v = trim_start(u);
            if v.len() == 0 {
                assert(stamp_len(Seq::<char>::empty()) == 0);
                assert(v.subrange(0, 0) =~= Seq::<char>::empty());
                assert(Seq::<char>::empty().subrange(0, 0) =~= Seq::<char>::empty());
            } else {
                lemma_stamp_len_space(v);
                assert((v + seq![' ']).subrange(0, stamp_len(v)) =~= v.subrange(0, stamp_len(v)));
            }
        },
        None => {},
    }
}

proof fn lemma_scan_to_space(y: Seq<char>, i: int, c: char)
    requires
        0 <= i <= y.len(),
        c != ' ',
    ensures
        scan_to(y, i, c) <= y.len(),
        scan_to(y, i, c) < y.len() ==> scan_to(y + seq![' '], i, c) == scan_to(y, i, c),
        scan_to(y, i, c) == y.len() ==> scan_to(y + seq![' '], i, c) == y.len() + 1,
    decreases y.len() - i,
{
    let s = y + seq![' '];
    if i < y.len() {
        assert(s[i] == y[i]);
        lemma_scan_to_space(y, i + 1, c);
    } else {
        assert(s[i] == ' ');
        assert(scan_to(s, i + 1, c) == i + 1);
    }
}

proof fn lemma_token_end_space(y: Seq<char>, i: int)
    requires
        0 <= i <= y.len(),
    ensures
        token_end(y + seq![' '], i) == token_end(y, i),
        i <= token_end(y, i) <= y.len(),
    decreases y.len() - i,
{
    let s = y + seq![' '];
    if i < y.len() {
        assert(s[i] == y[i]);
        lemma_token_end_space(y, i + 1);
    } else {
        assert(s[i] == ' ');
    }
}

proof fn lemma_nag_end_space(y: Seq<char>, i: int)
    requires
        0 <= i <= y.len(),
    ensures
        nag_end(y + seq![' '], i) == nag_end(y, i),
        i <= nag_end(y, i) <= y.len(),
    decreases y.len() - i,
{
    let s = y + seq![' '];
    if i < y.len() {
        assert(s[i] == y[i]);
        lemma_nag_end_space(y, i + 1);
    } else {
        assert(s[i] == ' ');
    }
}

/// A step of reading `y` and the same step on `y` with a space after it:
/// the same, but that a step running to the end of `y` may run one
/// further.
pub open spec fn step_near(a: PgnStep, b: PgnStep, end: int) -> bool {
    match a {
        PgnStep::Fail(m1) => b == PgnStep::Fail(m1),
        PgnStep::Next(s1, j1) => match b {
            PgnStep::Next(s2, j2) => s1 == s2 && (j2 == j1 || (j1 >= end && j2 >= end)),
            PgnStep::Fail(_) => false,
        },
    }
}

proof fn lemma_step_space(y: Seq<char>, i: int, st: PgnState)
    requires
        0 <= i < y.len(),
    ensures
        step_near(pgn_step(y, i, st), pgn_step(y + seq![' '], i, st), y.len() as int),
{
    let s = y + seq![' '];
    assert(s[i] == y[i]);
    lemma_scan_to_space(y, i, '\n');
    lemma_scan_to_space(y, i, ']');
    lemma_scan_to_space(y, i + 1, '}');
    lemma_token_end_space(y, i);
    lemma_nag_end_space(y, i);
    let j = scan_to(y, i + 1, '}');
    lemma_scan_to_bounds(y, i + 1, '}');
    if j < y.len() {
        assert(s.subrange(i + 1, j) =~= y.subrange(i + 1, j));
    } else {
        assert(s.subrange(i + 1, j + 1) =~= y.subrange(i + 1, j) + seq![' ']);
        lemma_clk_comment_space(y.subrange(i + 1, j));
    }
    let e = token_end(y, i);
    assert(s.subrange(i, e) =~= y.subrange(i, e));
}

/// A space at the end of the text changes nothing of how it reads.
proof fn lemma_walk_space_end(y: Seq<char>, i: int, st: PgnState)
    requires
        0 <= i <= y.len(),
    ensures
        pgn_walk(y + seq![' '], i, st) == pgn_walk(y, i, st),
    decreases y.len() - i,
{
    let s = y + seq![' '];
    if i == y.len() {
        assert(s[i] == ' ');
        assert(pgn_step(s, i, st) == PgnStep::Next(st, i + 1));
        assert(pgn_walk(s, i + 1, st) == Ok::<PgnState, Seq<char>>(st));
    } else {
        lemma_step_space(y, i, st);
        match pgn_step(y, i, st) {
            PgnStep::Fail(m) => {},
            PgnStep::Next(st2, j) => {
                let jy = if j > y.len() { y.len() as int } else { j };
                if jy > i {
                    if jy < y.len() {
                        lemma_walk_space_end(y, jy, st2);
                    } else {
                        lemma_walk_space_end(y, y.len() as int, st2);
                        assert(pgn_walk(y, jy, st2) == Ok::<PgnState, Seq<char>>(st2));
                    }
                }
            },
        }
    }
}

/// Every whitespace character of `s` is a plain space.
pub open spec fn spaces_plain(s: Seq<char>) -> bool {
    forall|i: int| 0 <= i < s.len() && is_space(#[trigger] s[i]) ==> s[i] == ' '
}

proof fn lemma_spaces_concat(a: Seq<char>, b: Seq<char>)
    requires
        spaces_plain(a),
        spaces_plain(b),
    ensures
        spaces_plain(a + b),
{
    assert forall|i: int| 0 <= i < (a + b).len() && is_space(#[trigger] (a + b)[i]) implies (a + b)[i] == ' ' by {
        if i < a.len() {
            assert((a + b)[i] == a[i]);
        } else {
            assert((a + b)[i] == b[i - a.len()]);
        }
    }
}

proof fn lemma_spaces_text(t: Seq<NodeView>, c: int, force: bool)
    requires
        0 <= c < t.len(),
        forall|i: int| 0 <= i < t[c].san.len() ==> !is_space(#[trigger] t[c].san[i]),
    ensures
        spaces_plain(move_text(t, c, force)),
{
    let p = parent_or_self(t, c);
    let white = fen_white_to_move(t[p].fen);
    let num = number_text(t, c, force);
    if white || force {
        let n = fen_fullmoves(t[p].fen) as nat;
        lemma_nat_text_reads_back(n);
        let d = nat_text(n);
        let dots = if white { seq!['.'] } else { seq!['.', '.', '.'] };
        assert(num =~= d + dots + seq![' ']);
        assert forall|i: int| 0 <= i < num.len() && is_space(#[trigger] num[i]) implies num[i] == ' ' by {
            if i < d.len() {
                assert(num[i] == d[i]);
                assert(is_digit(d[i]));
            }
        }
    } else {
        assert(num =~= Seq::<char>::empty());
    }
    let com = comment_text(t, c);
    match t[c].clock {
        Some((w, b)) => {
            let ms = if white { w } else { b };
            let ts = timestamp_text(ms as int);
            lemma_timestamp_chars(ms as int);
            assert(com =~= seq![' ', '{', '[', '%', 'c', 'l', 'k', ' '] + ts + seq![']', '}']);
            assert forall|i: int| 0 <= i < com.len() && is_space(#[trigger] com[i]) implies com[i] == ' ' by {
                if 8 <= i < 8 + ts.len() {
                    assert(com[i] == ts[i - 8]);
                }
            }
        },
        None => {
            assert(com =~= Seq::<char>::empty());
        },
    }
    lemma_spaces_concat(num, t[c].san);
    lemma_spaces_concat(num + t[c].san, com);
    lemma_spaces_concat(num + t[c].san + com, seq![' ']);
}

proof fn lemma_spaces_move(t: Seq<NodeView>, id: int, force: bool)
    requires
        wf(t),
        forall|c: int| 0 < c < t.len() ==> #[trigger] move_reads_back(t, c),
    ensures
        0 < id < t.len() ==> spaces_plain(move_pgn(t, id, force)),
    decreases t.len() - id, 2int, 0int,
{
    if 0 < id < t.len() {
        assert(move_reads_back(t, id));
        lemma_spaces_text(t, id, force);
        lemma_spaces_cont(t, id, false);
        lemma_spaces_concat(move_text(t, id, force), continuation_pgn(t, id, false));
    }
}

proof fn lemma_spaces_cont(t: Seq<NodeView>, id: int, force: bool)
    requires
        wf(t),
        forall|c: int| 0 < c < t.len() ==> #[trigger] move_reads_back(t, c),
    ensures
        0 <= id < t.len() ==> spaces_plain(continuation_pgn(t, id, force)),
    decreases t.len() - id, 1int, 0int,
{
    if 0 <= id < t.len() {
        let ch = t[id].children;
        if ch.len() == 0 || !child_ok(t, id, ch[0] as int) {
            assert(continuation_pgn(t, id, force) =~= Seq::<char>::empty());
        } else if ch.len() == 1 {
            lemma_spaces_move(t, ch[0] as int, force);
        } else {
            let c0 = ch[0] as int;
            assert(move_reads_back(t, c0));
            lemma_spaces_text(t, c0, force);
            lemma_spaces_var(t, id, 1);
            lemma_spaces_cont(t, c0, true);
            lemma_spaces_concat(move_text(t, c0, force), variations_pgn(t, id, 1));
            lemma_spaces_concat(move_text(t, c0, force) + variations_pgn(t, id, 1), continuation_pgn(t, c0, true));
        }
    }
}

proof fn lemma_spaces_var(t: Seq<NodeView>, id: int, k: int)
    requires
        wf(t),
        forall|c: int| 0 < c < t.len() ==> #[trigger] move_reads_back(t, c),
    ensures
        0 <= id < t.len() ==> spaces_plain(variations_pgn(t, id, k)),
    decreases t.len() - id, 0int, t[id].children.len() - k,
{
    if 0 <= id < t.len() && 0 <= k < t[id].children.len() && child_ok(t, id, t[id].children[k] as int) {
        let ck = t[id].children[k] as int;
        lemma_spaces_move(t, ck, true);
        lemma_spaces_var(t, id, k + 1);
        let a = seq!['(', ' '];
        let b = seq![')', ' '];
        assert(spaces_plain(a)) by {
            assert forall|i: int| 0 <= i < a.len() && is_space(#[trigger] a[i]) implies a[i] == ' ' by {}
        }
        assert(spaces_plain(b)) by {
            assert forall|i: int| 0 <= i < b.len() && is_space(#[trigger] b[i]) implies b[i] == ' ' by {}
        }
        lemma_spaces_concat(a, move_pgn(t, ck, true));
        lemma_spaces_concat(a + move_pgn(t, ck, true), b);
        lemma_spaces_concat(a + move_pgn(t, ck, true) + b, variations_pgn(t, id, k + 1));
    } else if 0 <= id < t.len() {
        assert(variations_pgn(t, id, k) =~= Seq::<char>::empty());
    }
}

/// Past the first, the root's children are written as its variations.
proof fn lemma_root_is_variations(t: Seq<NodeView>, k: int)
    requires
        1 <= k,
        t.len() > 0,
    ensures
        root_pgn(t, k) == variations_pgn(t, 0, k),
    decreases t[0].children.len() - k,
{
    if k < t[0].children.len() && child_ok(t, 0, t[0].children[k] as int) {
        lemma_root_is_variations(t, k + 1);
    }
}

/// Text whose whitespace is plain spaces reads as it does without its
/// trailing whitespace.
proof fn lemma_walk_trim(x: Seq<char>, st: PgnState)
    requires
        spaces_plain(x),
    ensures
        pgn_walk(trim_end(x), 0, st) == pgn_walk(x, 0, st),
    decreases x.len(),
{
    if x.len() > 0 && is_space(x.last()) {
        let y = x.drop_last();
        assert(x.last() == x[x.len() - 1]);
        assert(x =~= y + seq![' ']);
        assert(spaces_plain(y)) by {
            assert forall|i: int| 0 <= i < y.len() && is_space(#[trigger] y[i]) implies y[i] == ' ' by {
                assert(y[i] == x[i]);
            }
        }
        lemma_walk_space_end(y, 0, st);
        lemma_walk_trim(y, st);
    }
}

/// Every matched node has all its children matched.
pub open spec fn all_complete(t: Seq<NodeView>, t2: Seq<NodeView>, m: Map<int, int>) -> bool {
    forall|d: int| #[trigger] m.dom().contains(d) ==> t2[m[d]].children.len() == t[d].children.len()
}

proof fn lemma_comment_by_reading(t: Seq<NodeView>, c: int)
    ensures
        comment_text(t, c) == (match mover_reading(t, c) {
            Some(ms) => seq![' ', '{', '[', '%', 'c', 'l', 'k', ' '] + timestamp_text(ms as int) + seq![']', '}'],
            None => Seq::<char>::empty(),
        }),
{
}

proof fn lemma_print_text(t: Seq<NodeView>, t2: Seq<NodeView>, m: Map<int, int>, c: int, force: bool)
    requires
        piso(t, t2, m),
        m.dom().contains(c),
        c != 0,
    ensures
        move_text(t2, m[c], force) == move_text(t, c, force),
{
    lemma_piso_node(t, t2, m, c);
    let p = t[c].parent->0 as int;
    lemma_piso_node(t, t2, m, p);
    assert(parent_or_self(t, c) == p);
    assert(parent_or_self(t2, m[c]) == m[p]);
    assert(number_text(t2, m[c], force) == number_text(t, c, force));
    lemma_comment_by_reading(t, c);
    lemma_comment_by_reading(t2, m[c]);
    match mover_reading(t, c) {
        Some(ms) => {
            lemma_whole_text(ms);
        },
        None => {},
    }
    assert(comment_text(t2, m[c]) == comment_text(t, c));
}

proof fn lemma_print_move(t: Seq<NodeView>, t2: Seq<NodeView>, m: Map<int, int>, c: int, force: bool)
    requires
        wf(t),
        piso(t, t2, m),
        all_complete(t, t2, m),
    ensures
        0 < c < t.len() && m.dom().contains(c) ==> move_pgn(t2, m[c], force) == move_pgn(t, c, force),
    decreases t.len() - c, 2int, 0int,
{
    if 0 < c < t.len() && m.dom().contains(c) {
        lemma_piso_node(t, t2, m, c);
        lemma_print_text(t, t2, m, c, force);
        lemma_print_cont(t, t2, m, c, false);
    }
}

proof fn lemma_print_cont(t: Seq<NodeView>, t2: Seq<NodeView>, m: Map<int, int>, id: int, force: bool)
    requires
        wf(t),
        piso(t, t2, m),
        all_complete(t, t2, m),
    ensures
        0 <= id < t.len() && m.dom().contains(id) ==> continuation_pgn(t2, m[id], force) == continuation_pgn(t, id, force),
    decreases t.len() - id, 1int, 0int,
{
    if 0 <= id < t.len() && m.dom().contains(id) {
        lemma_piso_node(t, t2, m, id);
        let x = m[id];
        let ch = t[id].children;
        let ch2 = t2[x].children;
        assert(ch2.len() == ch.len());
        if ch.len() > 0 {
            let c0 = ch[0] as int;
            assert(child_ok(t, id, c0));
            assert(m.dom().contains(c0) && ch2[0] == m[c0]);
            assert(child_ok(t2, x, ch2[0] as int));
            lemma_piso_node(t, t2, m, c0);
            assert(m[c0] >= 0);
            assert(ch2[0] as int == m[c0]);
            if ch.len() == 1 {
                lemma_print_move(t, t2, m, c0, force);
            } else {
                lemma_print_text(t, t2, m, c0, force);
                lemma_print_var(t, t2, m, id, 1);
                lemma_print_cont(t, t2, m, c0, true);
            }
        }
    }
}

proof fn lemma_print_var(t: Seq<NodeView>, t2: Seq<NodeView>, m: Map<int, int>, id: int, k: int)
    requires
        wf(t),
        piso(t, t2, m),
        all_complete(t, t2, m),
    ensures
        0 <= id < t.len() && m.dom().contains(id) && 0 <= k ==> variations_pgn(t2, m[id], k) == variations_pgn(t, id, k),
    decreases t.len() - id, 0int, t[id].children.len() - k,
{
    if 0 <= id < t.len() && m.dom().contains(id) && 0 <= k {
        lemma_piso_node(t, t2, m, id);
        let x = m[id];
        if k < t[id].children.len() {
            let ck = t[id].children[k] as int;
            assert(child_ok(t, id, ck));
            assert(m.dom().contains(ck) && t2[x].children[k] == m[ck]);
            assert(child_ok(t2, x, t2[x].children[k] as int));
            lemma_piso_node(t, t2, m, ck);
            assert(t2[x].children[k] as int == m[ck]);
            lemma_print_move(t, t2, m, ck, true);
            lemma_print_var(t, t2, m, id, k + 1);
        }
    }
}

proof fn lemma_print_root(t: Seq<NodeView>, t2: Seq<NodeView>, m: Map<int, int>)
    requires
        wf(t),
        piso(t, t2, m),
        all_complete(t, t2, m),
    ensures
        root_pgn(t2, 0) == root_pgn(t, 0),
{
    reveal(piso);
    assert(maps_node(t, t2, m, 0));
    if t[0].children.len() > 0 {
        let c0 = t[0].children[0] as int;
        assert(child_ok(t, 0, c0));
        assert(m.dom().contains(c0) && t2[0].children[0] == m[c0]);
        assert(child_ok(t2, 0, t2[0].children[0] as int));
        lemma_print_move(t, t2, m, c0, true);
        assert(maps_node(t, t2, m, c0));
        assert(t2[0].children[0] as int == m[c0]);
        lemma_root_is_variations(t, 1);
        lemma_root_is_variations(t2, 1);
        lemma_print_var(t, t2, m, 0, 1);
    }
}

/// The root has no variation, or its first move has no reply. (A variation
/// of the first move is written after the whole mainline, and so read back
/// as a variation of the mainline's last move.)
pub open spec fn root_variations_readable(t: Seq<NodeView>) -> bool {
    t[0].children.len() <= 1 || t[t[0].children[0] as int].children.len() == 0
}

proof fn lemma_start_piso(t: Seq<NodeView>)
    requires
        wf(t),
        t[0].fen == start_fen(),
    ensures
        piso(t, seq![root_node(start_fen(), None)], map![0int => 0int]),
{
    reveal(piso);
    let t2 = seq![root_node(start_fen(), None)];
    let m = map![0int => 0int];
    assert(m.dom() =~= set![0int]);
    assert(maps_node(t, t2, m, 0));
}

/// Movetext written from a tree reads back as a tree that is written the
/// same way: the same moves in the same places, with the same variations in
/// the same order and the same clock comments. This holds of a tree that
/// starts from the standard position, whose every move's SAN is a plain
/// token (no whitespace or PGN punctuation, not a move number or a result)
/// that reads back in its parent's position as that very move, whose
/// children of one node are reached by different moves, and whose root has
/// no variation unless its first move has no reply.
pub proof fn written_pgn_reads_back(t: Seq<NodeView>)
    requires
        moves_read_back(t),
        t[0].fen == start_fen(),
        root_variations_readable(t),
    ensures
        pgn_tree(tree_pgn(t)) matches Ok(t2) && wf(t2) && tree_pgn(t2) == tree_pgn(t),
{
    let st0 = PgnState { tree: seq![root_node(start_fen(), None)], cursor: 0, stack: Seq::empty() };
    let m0 = map![0int => 0int];
    lemma_start_piso(t);
    let x = root_pgn(t, 0);
    lemma_run_is_walk(trim_end(x), 0, st0);
    if t[0].children.len() == 0 {
        assert(x =~= Seq::<char>::empty());
        assert(trim_end(x) =~= Seq::<char>::empty());
        let t2 = st0.tree;
        lemma_piso_node(t, t2, m0, 0);
        assert(t2[0].children.len() == 0);
        assert(root_pgn(t2, 0) =~= Seq::<char>::empty());
    } else {
        let c0 = t[0].children[0] as int;
        assert(child_ok(t, 0, c0));
        assert(t[c0].parent == Some(0usize));
        lemma_root_is_variations(t, 1);
        let r = variations_pgn(t, 0, 1);
        assert(x =~= move_pgn(t, c0, true) + r);
        lemma_spaces_move(t, c0, true);
        lemma_spaces_var(t, 0, 1);
        lemma_spaces_concat(move_pgn(t, c0, true), r);
        lemma_walk_trim(x, st0);
        assert(m0.dom().contains(0));
        let (st1, m1) = lemma_walk_line(t, c0, 0, true, r, st0, m0);
        assert(m1.dom().contains(0) && m1[0] == 0);
        let (stf, mf) = if t[0].children.len() == 1 {
            assert(r =~= Seq::<char>::empty());
            assert(pgn_walk(r, 0, st1) == Ok::<PgnState, Seq<char>>(st1));
            (st1, m1)
        } else {
            assert(last_mainline(t, c0) == c0);
            assert(r + Seq::<char>::empty() =~= r);
            let (st2, m2) = lemma_walk_var(t, 0, 1, Seq::<char>::empty(), st1, m1);
            assert(pgn_walk(Seq::<char>::empty(), 0, st2) == Ok::<PgnState, Seq<char>>(st2));
            assert(all_complete(t, st2.tree, m2)) by {
                assert forall|d: int| #[trigger] m2.dom().contains(d) implies st2.tree[m2[d]].children.len() == t[d].children.len() by {
                    if d == 0 {
                        assert(m2[0] == m1[0]);
                    } else if m1.dom().contains(d) {
                        assert(!m0.dom().contains(d));
                        assert(m2[d] == m1[d]);
                        assert(st2.tree[m1[d]].children == st1.tree[m1[d]].children);
                    }
                }
            }
            (st2, m2)
        };
        assert(stf.stack =~= Seq::<usize>::empty());
        assert(all_complete(t, stf.tree, mf)) by {
            assert forall|d: int| #[trigger] mf.dom().contains(d) implies stf.tree[mf[d]].children.len() == t[d].children.len() by {
                if d == 0 {
                    assert(mf[0] == 0);
                } else {
                    assert(!m0.dom().contains(d));
                    if t[0].children.len() == 1 {
                    }
                }
            }
        }
        lemma_piso_node(t, stf.tree, mf, 0);
        lemma_print_root(t, stf.tree, mf);
    }
}

/// SAN text of the shape shakmaty writes, which shakmaty reads as SAN, is a
/// plain token, neither a move number nor a result, and holds no space.
proof fn lemma_san_text_reads_back(s: Seq<char>)
    requires
        san_text(s),
        san_syntax_ok(s),
    ensures
        san_reads_back(s),
{
    assert(san_char(s[0]));
    assert forall|i: int| 0 <= i < s.len() implies !token_stop(#[trigger] s[i]) && !is_space(s[i]) by {
        assert(san_char(s[i]));
    }
    if is_move_number(s) {
        let k = choose|k: int| #![trigger s.subrange(0, k)]
            0 < k < s.len() && all_digits(s.subrange(0, k)) && forall|j: int| k <= j < s.len() ==> s[j] == '.';
        assert(s.subrange(0, k)[0] == s[0]);
        assert(is_digit(s.subrange(0, k)[0]));
    }
    if is_result(s) {
        assert(s[0] == '1' || s[0] == '0' || s[0] == '*');
    }
}

/// Movetext written from a tree that the library's own changes built reads
/// back as a tree written the same way. Such a tree starts as a lone root
/// and grows by `play` (by moves that hold, which every `ChessMove` does),
/// `delete`, `promote` and clock changes, which keep each node following
/// its move (`follows_moves`) and the children of a node reached by
/// different moves (`siblings_distinct`); the root must start from the
/// standard position and have no variation unless its first move has no
/// reply.
pub proof fn built_trees_read_back(t: Seq<NodeView>)
    requires
        wf(t),
        follows_moves(t),
        siblings_distinct(t),
        t.len() <= usize::MAX,
        t[0].fen == start_fen(),
        root_variations_readable(t),
    ensures
        pgn_tree(tree_pgn(t)) matches Ok(t2) && wf(t2) && tree_pgn(t2) == tree_pgn(t),
{
    assert forall|c: int| 0 < c < t.len() implies #[trigger] move_reads_back(t, c) by {
        assert(t[c].parent is Some);
        assert(follows_parent(t, c));
        let p = t[c].parent->0 as int;
        assert(step_holds(t[p].fen, t[c].uci, t[c].san, t[c].fen));
        lemma_san_text_reads_back(t[c].san);
    }
    written_pgn_reads_back(t);
}

/// No two of the children `ch` are reached by the same move.
pub open spec fn ucis_distinct(t: Seq<NodeView>, ch: Seq<usize>) -> bool {
    forall|i: int, j: int| #![trigger ch[i], ch[j]] 0 <= i < j < ch.len() ==> t[ch[i] as int].uci != t[ch[j] as int].uci
}

proof fn lemma_siblings_by_node(t: Seq<NodeView>)
    ensures
        siblings_distinct(t) <==> forall|p: int| 0 <= p < t.len() ==> ucis_distinct(t, #[trigger] t[p].children),
{
    if siblings_distinct(t) {
        assert forall|p: int| 0 <= p < t.len() implies ucis_distinct(t, #[trigger] t[p].children) by {
            assert forall|i: int, j: int| #![trigger t[p].children[i], t[p].children[j]]
                0 <= i < j < t[p].children.len() implies t[t[p].children[i] as int].uci != t[t[p].children[j] as int].uci by {}
        }
    }
    if forall|p: int| 0 <= p < t.len() ==> ucis_distinct(t, #[trigger] t[p].children) {
        assert forall|p: int, i: int, j: int| #![trigger t[p].children[i], t[p].children[j]]
            0 <= p < t.len() && 0 <= i < j < t[p].children.len() implies t[t[p].children[i] as int].uci
                != t[t[p].children[j] as int].uci by {
            assert(ucis_distinct(t, t[p].children));
        }
    }
}

proof fn lemma_without_distinct(t: Seq<NodeView>, ch: Seq<usize>, id: usize)
    requires
        ucis_distinct(t, ch),
    ensures
        ucis_distinct(t, without(ch, id)),
    decreases ch.len(),
{
    if ch.len() > 0 {
        let rest = ch.drop_last();
        assert(ucis_distinct(t, rest)) by {
            assert forall|i: int, j: int| #![trigger rest[i], rest[j]] 0 <= i < j < rest.len() implies t[rest[i] as int].uci != t[rest[j] as int].uci by {
                assert(rest[i] == ch[i] && rest[j] == ch[j]);
            }
        }
        lemma_without_distinct(t, rest, id);
        if ch.last() != id {
            let w = without(rest, id);
            lemma_without_members(rest, id);
            let v = w.push(ch.last());
            assert forall|i: int, j: int| #![trigger v[i], v[j]] 0 <= i < j < v.len() implies t[v[i] as int].uci != t[v[j] as int].uci by {
                if j < w.len() {
                    assert(v[i] == w[i] && v[j] == w[j]);
                } else {
                    assert(v[i] == w[i]);
                    assert(rest.contains(w[i]));
                    let k = choose|k: int| 0 <= k < rest.len() && rest[k] == w[i];
                    assert(ch[k] == rest[k]);
                    assert(v[j] == ch[ch.len() - 1]);
                    assert(t[ch[k] as int].uci != t[ch[ch.len() - 1] as int].uci);
                }
            }
        }
    }
}

proof fn lemma_promote_distinct(t: Seq<NodeView>, ch: Seq<usize>, k: int)
    requires
        ucis_distinct(t, ch),
        0 <= k < ch.len(),
    ensures
        ucis_distinct(t, seq![ch[k]] + ch.remove(k)),
{
    let v = seq![ch[k]] + ch.remove(k);
    let r = ch.remove(k);
    assert forall|i: int, j: int| #![trigger v[i], v[j]] 0 <= i < j < v.len() implies t[v[i] as int].uci != t[v[j] as int].uci by {
        let jj = if j - 1 < k { j - 1 } else { j };
        assert(v[j] == r[j - 1]);
        assert(r[j - 1] == ch[jj]);
        if i == 0 {
            assert(v[0] == ch[k]);
            assert(jj != k);
            if jj < k {
                assert(t[ch[jj] as int].uci != t[ch[k] as int].uci);
            } else {
                assert(t[ch[k] as int].uci != t[ch[jj] as int].uci);
            }
        } else {
            let ii = if i - 1 < k { i - 1 } else { i };
            assert(v[i] == r[i - 1]);
            assert(r[i - 1] == ch[ii]);
            assert(ii < jj);
        }
    }
}

/// Every change the tree offers (playing a move from a node, deleting or
/// promoting a node, setting a clock) keeps the children of each node
/// reached by different moves.
pub proof fn tree_changes_keep_moves_distinct(
    t: Seq<NodeView>,
    at: int,
    uci: Seq<char>,
    san: Seq<char>,
    fen: Seq<char>,
    id: int,
    ms: i64,
)
    requires
        wf(t),
        siblings_distinct(t),
        t.len() < usize::MAX,
        0 <= at < t.len(),
        0 <= id < t.len(),
    ensures
        siblings_distinct(played(t, at, uci, san, fen).0),
        siblings_distinct(deleted(t, id)),
        siblings_distinct(promoted(t, id)),
        siblings_distinct(with_mover_clock(t, id, ms)),
{
    lemma_siblings_by_node(t);
    // playing
    match child_with_uci(t, at, uci) {
        Some(c) => {},
        None => {
            let t2 = with_new_child(t, at, uci, san, fen, None);
            let n = t.len() as usize;
            lemma_no_match_means_other_ucis(t, at, uci, 0);
            assert forall|p: int| 0 <= p < t2.len() implies ucis_distinct(t2, #[trigger] t2[p].children) by {
                if p == at {
                    let ch = t2[p].children;
                    assert(ch == t[at].children.push(n));
                    assert forall|i: int, j: int| #![trigger ch[i], ch[j]] 0 <= i < j < ch.len() implies t2[ch[i] as int].uci != t2[ch[j] as int].uci by {
                        assert(t[at].children[i] == ch[i]);
                        assert(child_ok(t, at, ch[i] as int));
                        assert(t2[ch[i] as int] == t[ch[i] as int]);
                        if j < t[at].children.len() {
                            assert(t[at].children[j] == ch[j]);
                            assert(child_ok(t, at, ch[j] as int));
                            assert(t2[ch[j] as int] == t[ch[j] as int]);
                            assert(ucis_distinct(t, t[at].children));
                        } else {
                            assert(ch[j] == n);
                            assert(t2[n as int].uci == uci);
                            assert(t[t[at].children[i] as int].uci != uci);
                        }
                    }
                } else if p < t.len() {
                    let ch = t2[p].children;
                    assert(ch == t[p].children);
                    assert forall|i: int, j: int| #![trigger ch[i], ch[j]] 0 <= i < j < ch.len() implies t2[ch[i] as int].uci != t2[ch[j] as int].uci by {
                        assert(child_ok(t, p, ch[i] as int));
                        assert(child_ok(t, p, ch[j] as int));
                        assert(ucis_distinct(t, t[p].children));
                    }
                } else {
                    assert(t2[p].children.len() == 0);
                }
            }
            lemma_siblings_by_node(t2);
        },
    }
    // deleting
    if id != 0 {
        match t[id].parent {
            Some(q) => {
                let t2 = deleted(t, id);
                lemma_without_distinct(t, t[q as int].children, id as usize);
                assert forall|x: int| 0 <= x < t.len() implies #[trigger] t2[x].uci == t[x].uci by {}
                assert forall|p: int| 0 <= p < t2.len() implies ucis_distinct(t2, #[trigger] t2[p].children) by {
                    let ch = t2[p].children;
                    if p == q as int {
                        assert(ch == without(t[q as int].children, id as usize));
                        assert(ucis_distinct(t, ch));
                    } else {
                        assert(ch == t[p].children);
                        assert(ucis_distinct(t, ch));
                    }
                    assert forall|i: int| 0 <= i < ch.len() implies 0 <= #[trigger] ch[i] < t.len() by {
                        if p == q as int {
                            lemma_without_members(t[q as int].children, id as usize);
                            assert(t[q as int].children.contains(ch[i]));
                            let kk = choose|kk: int| 0 <= kk < t[q as int].children.len() && t[q as int].children[kk] == ch[i];
                            assert(child_ok(t, q as int, t[q as int].children[kk] as int));
                        } else {
                            assert(child_ok(t, p, t[p].children[i] as int));
                        }
                    }
                    assert forall|i: int, j: int| #![trigger ch[i], ch[j]]
                        0 <= i < j < ch.len() implies t2[ch[i] as int].uci != t2[ch[j] as int].uci by {
                        assert(0 <= ch[i] < t.len() && 0 <= ch[j] < t.len());
                        assert(t[ch[i] as int].uci != t[ch[j] as int].uci);
                    }
                }
                lemma_siblings_by_node(t2);
            },
            None => {},
        }
    }
    // promoting
    match t[id].parent {
        Some(q) => {
            let ch = t[q as int].children;
            lemma_first_pos(ch, id as usize);
            match first_pos(ch, id as usize) {
                Some(k) => {
                    let t2 = promoted(t, id);
                    lemma_promote_distinct(t, ch, k);
                    assert forall|x: int| 0 <= x < t.len() implies #[trigger] t2[x].uci == t[x].uci by {}
                    assert forall|p: int| 0 <= p < t2.len() implies ucis_distinct(t2, #[trigger] t2[p].children) by {
                        let c2 = t2[p].children;
                        if p == q as int {
                            assert(c2 == seq![id as usize] + ch.remove(k));
                            assert(ch[k] == id as usize);
                            assert(ucis_distinct(t, c2));
                        } else {
                            assert(c2 == t[p].children);
                            assert(ucis_distinct(t, c2));
                        }
                        assert forall|i: int, j: int| #![trigger c2[i], c2[j]]
                            0 <= i < j < c2.len() implies t2[c2[i] as int].uci != t2[c2[j] as int].uci by {
                            assert(t[c2[i] as int].uci != t[c2[j] as int].uci);
                        }
                    }
                    lemma_siblings_by_node(t2);
                },
                None => {},
            }
        },
        None => {},
    }
    // setting a clock
    let t3 = with_mover_clock(t, id, ms);
    assert forall|p: int| 0 <= p < t3.len() implies ucis_distinct(t3, #[trigger] t3[p].children) by {
        assert forall|i: int, j: int| #![trigger t3[p].children[i], t3[p].children[j]]
            0 <= i < j < t3[p].children.len() implies t3[t3[p].children[i] as int].uci != t3[t3[p].children[j] as int].uci by {
            assert(ucis_distinct(t, t[p].children));
        }
    }
    lemma_siblings_by_node(t3);
}

proof fn lemma_no_match_means_other_ucis(t: Seq<NodeView>, p: int, uci: Seq<char>, k: int)
    requires
        wf(t),
        0 <= p < t.len(),
        0 <= k,
        child_with_uci_from(t, p, uci, k) is None,
    ensures
        forall|j: int| k <= j < t[p].children.len() ==> t[#[trigger] t[p].children[j] as int].uci != uci,
    decreases t[p].children.len() - k,
{
    if k < t[p].children.len() {
        assert(child_ok(t, p, t[p].children[k] as int));
        lemma_no_match_means_other_ucis(t, p, uci, k + 1);
    }
}

/// What every reading state keeps: a well-formed tree whose children are
/// reached by different moves, a cursor and remembered cursors in it, and no
/// more nodes than characters read plus the root.
pub open spec fn reading_ok(st: PgnState, i: int) -> bool {
    &&& wf(st.tree)
    &&& siblings_distinct(st.tree)
    &&& 0 <= st.cursor < st.tree.len()
    &&& forall|k: int| 0 <= k < st.stack.len() ==> #[trigger] st.stack[k] < st.tree.len()
    &&& st.tree.len() <= i + 1
}

proof fn lemma_step_keeps_reading_ok(s: Seq<char>, i: int, st: PgnState)
    requires
        0 <= i < s.len(),
        s.len() < usize::MAX,
        reading_ok(st, i),
    ensures
        pgn_step(s, i, st) matches PgnStep::Next(st2, j) ==> reading_ok(st2, i + 1),
{
    let t = st.tree;
    let c = s[i];
    lemma_token_end_bounds(s, i);
    if ascii_space_or_skip(c) {
    } else if c == '{' {
        let j = scan_to(s, i + 1, '}');
        match clk_comment_ms(s.subrange(i + 1, j)) {
            Some(ms) => {
                tree_changes_keep_moves_distinct(t, st.cursor, Seq::empty(), Seq::empty(), Seq::empty(), st.cursor, ms);
                lemma_clock_frame(t, st.cursor, ms);
            },
            None => {},
        }
    } else if c == '(' {
        match t[st.cursor].parent {
            Some(p) => {
                if st.cursor > 0 {
                    assert(t[st.cursor].parent->0 < st.cursor);
                }
                let st2 = PgnState { tree: t, cursor: p as int, stack: st.stack.push(st.cursor as usize) };
                assert forall|k: int| 0 <= k < st2.stack.len() implies #[trigger] st2.stack[k] < st2.tree.len() by {
                    if k < st.stack.len() {
                        assert(st2.stack[k] == st.stack[k]);
                    }
                }
            },
            None => {},
        }
    } else if c == ')' {
        if st.stack.len() > 0 {
            let st2 = PgnState { tree: t, cursor: st.stack.last() as int, stack: st.stack.drop_last() };
            assert(st.stack.last() == st.stack[st.stack.len() - 1]);
            assert forall|k: int| 0 <= k < st2.stack.len() implies #[trigger] st2.stack[k] < st2.tree.len() by {
                assert(st2.stack[k] == st.stack[k]);
            }
        }
    } else if c == '$' {
    } else {
        let e = token_end(s, i);
        let tok = s.subrange(i, e);
        if !(is_move_number(tok) || is_result(tok)) && san_syntax_ok(tok) {
            match san_step(t[st.cursor].fen, tok) {
                Some((u, san, after)) => {
                    tree_changes_keep_moves_distinct(t, st.cursor, u, san, after, st.cursor, 0);
                    lemma_child_with_uci_from(t, st.cursor, u, 0);
                    match child_with_uci(t, st.cursor, u) {
                        Some(ch) => {},
                        None => {
                            lemma_wf_new_child(t, st.cursor, u, san, after, None);
                            let t2 = with_new_child(t, st.cursor, u, san, after, None);
                            assert forall|k: int| 0 <= k < st.stack.len() implies #[trigger] st.stack[k] < t2.len() by {}
                        },
                    }
                },
                None => {},
            }
        }
    }
}

/// The characters a reading step passes over without changing the state.
pub open spec fn ascii_space_or_skip(c: char) -> bool {
    crate::pgn::ascii_space(c) || c == ';' || c == '['
}

proof fn lemma_run_keeps_reading_ok(s: Seq<char>, i: int, st: PgnState)
    requires
        0 <= i,
        s.len() < usize::MAX,
        reading_ok(st, i),
    ensures
        pgn_run(s, i, st) matches Ok(t) ==> siblings_distinct(t) && wf(t),
    decreases s.len() - i,
{
    if 0 <= i < s.len() {
        lemma_step_keeps_reading_ok(s, i, st);
        match pgn_step(s, i, st) {
            PgnStep::Fail(m) => {},
            PgnStep::Next(st2, j) => {
                let j2 = if j > s.len() { s.len() as int } else { j };
                if j2 > i {
                    assert(reading_ok(st2, j2));
                    lemma_run_keeps_reading_ok(s, j2, st2);
                }
            },
        }
    }
}

/// A tree read from PGN never has two children of a node reached by the
/// same move: a move played again from a node reaches the child it reached
/// before.
pub proof fn read_trees_keep_moves_distinct(s: Seq<char>)
    requires
        s.len() < usize::MAX,
    ensures
        pgn_tree(s) matches Ok(t) ==> siblings_distinct(t) && wf(t),
{
    let st0 = PgnState { tree: seq![root_node(start_fen(), None)], cursor: 0, stack: Seq::empty() };
    assert(wf(st0.tree));
    assert(siblings_distinct(st0.tree));
    lemma_run_keeps_reading_ok(s, 0, st0);
}

} // verus!
