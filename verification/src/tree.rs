//! The analysis board's move tree: positions joined by moves, with
//! variations branching off any node and an optional clock reading per
//! node. Nodes live in an arena indexed by `NodeId`; node 0 is the root.

use vstd::prelude::*;
use crate::position::{ChessMove, Position, fen_white_to_move, fen_fullmoves, move_holds, plain_turn, step_holds, MoveView};

verus! {

pub type NodeId = usize;

#[derive(Debug)]
pub struct MoveNode {
    pub parent: Option<NodeId>,
    /// `children[0]` is the mainline continuation; anything after that is a
    /// variation.
    pub children: Vec<NodeId>,
    /// UCI of the move that reached this node; empty for the root.
    pub uci: String,
    /// SAN of the move that reached this node; empty for the root.
    pub san: String,
    /// Position after this node's move (the root position for node 0).
    pub position: Position,
    /// (white_ms_left, black_ms_left) as of this move, when known.
    pub clock: Option<(i64, i64)>,
}

/// A node as the contracts see it.
pub ghost struct NodeView {
    pub parent: Option<usize>,
    pub children: Seq<usize>,
    pub uci: Seq<char>,
    pub san: Seq<char>,
    pub fen: Seq<char>,
    pub clock: Option<(i64, i64)>,
}

impl View for MoveNode {
    type V = NodeView;

    open spec fn view(&self) -> NodeView {
        NodeView {
            parent: self.parent,
            children: self.children@,
            uci: self.uci@,
            san: self.san@,
            fen: self.position@,
            clock: self.clock,
        }
    }
}


/// One move as the move list shows it.
#[derive(Debug)]
pub struct DisplayNode {
    pub id: NodeId,
    pub san: String,
    /// PGN move number: the fullmove counter of the parent position.
    pub fullmove: u32,
    pub is_white: bool,
    /// Whether the move number is shown before this move: every white
    /// move, and the first move of any run.
    pub show_number: bool,
}

pub ghost struct DisplayNodeView {
    pub id: usize,
    pub san: Seq<char>,
    pub fullmove: u32,
    pub is_white: bool,
    pub show_number: bool,
}

impl View for DisplayNode {
    type V = DisplayNodeView;

    open spec fn view(&self) -> DisplayNodeView {
        DisplayNodeView {
            id: self.id,
            san: self.san@,
            fullmove: self.fullmove,
            is_white: self.is_white,
            show_number: self.show_number,
        }
    }
}

/// A contiguous run of moves at one depth, as `flatten` produces them.
/// Depth 0 is the mainline; each nesting of `( )` adds one.
#[derive(Debug)]
pub struct Segment {
    pub depth: usize,
    pub nodes: Vec<DisplayNode>,
}

pub ghost struct SegmentView {
    pub depth: nat,
    pub nodes: Seq<DisplayNodeView>,
}

impl View for Segment {
    type V = SegmentView;

    open spec fn view(&self) -> SegmentView {
        SegmentView { depth: self.depth as nat, nodes: self.nodes@.map_values(|n: DisplayNode| n@) }
    }
}

/// One continuous line (the mainline or a single variation): its own runs
/// of moves interleaved with the variations that branch off it.
#[derive(Debug)]
pub struct MoveLine {
    pub depth: usize,
    pub items: Vec<LineItem>,
}

#[derive(Debug)]
pub enum LineItem {
    /// A run of this line's own moves.
    Moves(Vec<DisplayNode>),
    /// A variation branching off here, one depth deeper.
    Variation(MoveLine),
}

pub ghost struct MoveLineView {
    pub depth: nat,
    pub items: Seq<LineItemView>,
}

pub ghost enum LineItemView {
    Moves(Seq<DisplayNodeView>),
    Variation(MoveLineView),
}

pub open spec fn nodes_view(v: Seq<DisplayNode>) -> Seq<DisplayNodeView> {
    v.map_values(|n: DisplayNode| n@)
}

pub open spec fn line_view(l: MoveLine) -> MoveLineView
    decreases l, 0int,
{
    MoveLineView { depth: l.depth as nat, items: items_view(l.items@, 0) }
}

pub open spec fn items_view(s: Seq<LineItem>, k: int) -> Seq<LineItemView>
    decreases s, s.len() - k,
{
    if 0 <= k < s.len() {
        seq![item_view(s[k])] + items_view(s, k + 1)
    } else {
        Seq::empty()
    }
}

pub open spec fn item_view(i: LineItem) -> LineItemView
    decreases i, 0int,
{
    match i {
        LineItem::Moves(ns) => LineItemView::Moves(nodes_view(ns@)),
        LineItem::Variation(sub) => LineItemView::Variation(line_view(sub)),
    }
}

#[derive(Debug)]
pub struct MoveTree {
    nodes: Vec<MoveNode>,
}

impl View for MoveTree {
    type V = Seq<NodeView>;

    closed spec fn view(&self) -> Seq<NodeView> {
        self.nodes@.map_values(|n: MoveNode| n@)
    }
}

/// `c` is a usable child index of `p`: later in the arena than `p`.
pub open spec fn child_ok(t: Seq<NodeView>, p: int, c: int) -> bool {
    0 <= p < c < t.len()
}

/// The arena shape every tree keeps: a root without a parent, every other
/// node with a parent earlier in the arena, and child lists that point back
/// through `parent`.
pub open spec fn wf(t: Seq<NodeView>) -> bool {
    &&& t.len() >= 1
    &&& t[0].parent is None
    &&& forall|i: int| #![trigger t[i].parent]
        0 < i < t.len() ==> t[i].parent is Some && t[i].parent->0 < i
    &&& forall|i: int, k: int| #![trigger t[i].children[k]]
        0 <= i < t.len() && 0 <= k < t[i].children.len() ==> {
            &&& child_ok(t, i, t[i].children[k] as int)
            &&& t[t[i].children[k] as int].parent == Some(i as usize)
        }
}

/// A fresh root node.
pub open spec fn root_node(fen: Seq<char>, clock: Option<(i64, i64)>) -> NodeView {
    NodeView { parent: None, children: Seq::empty(), uci: Seq::empty(), san: Seq::empty(), fen, clock }
}

/// The first child of `p`, from position `k` on, reached by the move `uci`.
pub open spec fn child_with_uci_from(t: Seq<NodeView>, p: int, uci: Seq<char>, k: int) -> Option<usize>
    decreases t[p].children.len() - k,
{
    if 0 <= k < t[p].children.len() {
        let c = t[p].children[k];
        if 0 <= c < t.len() && t[c as int].uci == uci {
            Some(c)
        } else {
            child_with_uci_from(t, p, uci, k + 1)
        }
    } else {
        None
    }
}

pub open spec fn child_with_uci(t: Seq<NodeView>, p: int, uci: Seq<char>) -> Option<usize> {
    child_with_uci_from(t, p, uci, 0)
}

pub proof fn lemma_child_with_uci_from(t: Seq<NodeView>, p: int, uci: Seq<char>, k: int)
    requires
        wf(t),
        0 <= p < t.len(),
        0 <= k,
    ensures
        child_with_uci_from(t, p, uci, k) matches Some(c) ==> child_ok(t, p, c as int) && t[c as int].uci == uci,
    decreases t[p].children.len() - k,
{
    if 0 <= k < t[p].children.len() {
        let c = t[p].children[k];
        assert(child_ok(t, p, c as int));
        lemma_child_with_uci_from(t, p, uci, k + 1);
    }
}

/// The tree after adding a new child of `at` reached by a move with the
/// given UCI, SAN and resulting FEN.
pub open spec fn with_new_child(
    t: Seq<NodeView>,
    at: int,
    uci: Seq<char>,
    san: Seq<char>,
    fen: Seq<char>,
    clock: Option<(i64, i64)>,
) -> Seq<NodeView> {
    let id = t.len() as usize;
    t.update(at, NodeView { children: t[at].children.push(id), ..t[at] }).push(
        NodeView { parent: Some(at as usize), children: Seq::empty(), uci, san, fen, clock },
    )
}

/// Following first children from `id` to the end of its mainline.
pub open spec fn last_mainline(t: Seq<NodeView>, id: int) -> int
    decreases t.len() - id,
{
    if 0 <= id < t.len() && t[id].children.len() > 0 && child_ok(t, id, t[id].children[0] as int) {
        last_mainline(t, t[id].children[0] as int)
    } else {
        id
    }
}

/// The node ids from the root down to `id`.
pub open spec fn path_to(t: Seq<NodeView>, id: int) -> Seq<usize>
    decreases id,
{
    if 0 <= id < t.len() {
        match t[id].parent {
            Some(p) => if p < id { path_to(t, p as int).push(id as usize) } else { seq![id as usize] },
            None => seq![id as usize],
        }
    } else {
        Seq::empty()
    }
}

/// The clock at `id`: its own, else the nearest ancestor's.
pub open spec fn clock_at(t: Seq<NodeView>, id: int) -> Option<(i64, i64)>
    decreases id,
{
    if 0 <= id < t.len() {
        match t[id].clock {
            Some(c) => Some(c),
            None => match t[id].parent {
                Some(p) => if p < id { clock_at(t, p as int) } else { None },
                None => None,
            },
        }
    } else {
        None
    }
}

/// `ch` with every occurrence of `id` taken out, order kept.
pub open spec fn without(ch: Seq<usize>, id: usize) -> Seq<usize>
    decreases ch.len(),
{
    if ch.len() == 0 {
        ch
    } else if ch.last() == id {
        without(ch.drop_last(), id)
    } else {
        without(ch.drop_last(), id).push(ch.last())
    }
}

pub proof fn lemma_without_members(ch: Seq<usize>, id: usize)
    ensures
        forall|j: int| 0 <= j < without(ch, id).len() ==> ch.contains(#[trigger] without(ch, id)[j]),
        !without(ch, id).contains(id),
    decreases ch.len(),
{
    if ch.len() > 0 {
        lemma_without_members(ch.drop_last(), id);
        let w = without(ch, id);
        assert forall|j: int| 0 <= j < w.len() implies ch.contains(#[trigger] w[j]) by {
            if j < without(ch.drop_last(), id).len() {
                let x = without(ch.drop_last(), id)[j];
                assert(ch.drop_last().contains(x));
                let i = choose|i: int| 0 <= i < ch.drop_last().len() && ch.drop_last()[i] == x;
                assert(ch[i] == x);
            } else {
                assert(w[j] == ch[ch.len() - 1]);
            }
        }
    }
}

/// The position of the first occurrence of `x` in `s`, when there is one.
pub open spec fn first_pos(s: Seq<usize>, x: usize) -> Option<int>
    decreases s.len(),
{
    if s.len() == 0 {
        None
    } else if s[0] == x {
        Some(0)
    } else {
        match first_pos(s.drop_first(), x) {
            Some(k) => Some(k + 1),
            None => None,
        }
    }
}

pub proof fn lemma_first_pos(s: Seq<usize>, x: usize)
    ensures
        match first_pos(s, x) {
            Some(k) => 0 <= k < s.len() && s[k] == x && forall|j: int| 0 <= j < k ==> s[j] != x,
            None => forall|j: int| 0 <= j < s.len() ==> s[j] != x,
        },
    decreases s.len(),
{
    if s.len() > 0 && s[0] != x {
        lemma_first_pos(s.drop_first(), x);
        match first_pos(s.drop_first(), x) {
            Some(k) => {
                assert forall|j: int| 0 <= j < k + 1 implies s[j] != x by {
                    if j > 0 { assert(s[j] == s.drop_first()[j - 1]); }
                }
            },
            None => {
                assert forall|j: int| 0 <= j < s.len() implies s[j] != x by {
                    if j > 0 { assert(s[j] == s.drop_first()[j - 1]); }
                }
            },
        }
    }
}

/// The tree after `delete(id)`.
pub open spec fn deleted(t: Seq<NodeView>, id: int) -> Seq<NodeView> {
    if id == 0 {
        t
    } else {
        match t[id].parent {
            Some(p) => t.update(p as int, NodeView { children: without(t[p as int].children, id as usize), ..t[p as int] }),
            None => t,
        }
    }
}

/// The tree after `promote(id)`: `id` moved to the front of its parent's
/// children (its first occurrence, when it is there at all).
pub open spec fn promoted(t: Seq<NodeView>, id: int) -> Seq<NodeView> {
    match t[id].parent {
        Some(p) => {
            let ch = t[p as int].children;
            match first_pos(ch, id as usize) {
                Some(k) => t.update(p as int, NodeView { children: seq![id as usize] + ch.remove(k), ..t[p as int] }),
                None => t,
            }
        },
        None => t,
    }
}

/// The tree after `set_mover_clock(id, ms)`: the mover (the side to move in
/// the parent position) gets `ms`, the other side keeps the parent's
/// inherited reading (0 when there is none).
pub open spec fn with_mover_clock(t: Seq<NodeView>, id: int, ms: i64) -> Seq<NodeView> {
    match t[id].parent {
        Some(p) => {
            let (w, b) = match clock_at(t, p as int) {
                Some(c) => c,
                None => (0i64, 0i64),
            };
            let clock = if fen_white_to_move(t[p as int].fen) { (ms, b) } else { (w, ms) };
            t.update(id, NodeView { clock: Some(clock), ..t[id] })
        },
        None => t,
    }
}

/// Node `i` holds what its move gives from its parent (if it has one in
/// the arena), by its UCI and by its SAN.
pub open spec fn follows_parent(t: Seq<NodeView>, i: int) -> bool {
    match t[i].parent {
        Some(p) => 0 <= p < t.len() ==> step_holds(t[p as int].fen, t[i].uci, t[i].san, t[i].fen),
        None => true,
    }
}

/// Every node but the root holds what its move gives from its parent:
/// stepping from the parent's position by the node's UCI, or by its SAN,
/// gives the node's UCI, SAN and position.
pub open spec fn follows_moves(t: Seq<NodeView>) -> bool {
    forall|i: int| #![trigger t[i].parent]
        0 < i < t.len() ==> follows_parent(t, i)
}

/// Adding a child reached by a move that holds from its parent keeps every
/// node following its move.
pub proof fn lemma_follows_new_child(
    t: Seq<NodeView>,
    at: int,
    uci: Seq<char>,
    san: Seq<char>,
    fen: Seq<char>,
    clock: Option<(i64, i64)>,
)
    requires
        wf(t),
        follows_moves(t),
        0 <= at < t.len(),
        t.len() < usize::MAX,
        step_holds(t[at].fen, uci, san, fen),
    ensures
        follows_moves(with_new_child(t, at, uci, san, fen, clock)),
{
    let e = with_new_child(t, at, uci, san, fen, clock);
    assert forall|i: int| #![trigger e[i].parent]
        0 < i < e.len() implies follows_parent(e, i) by {
        if i < t.len() {
            assert(e[i].parent == t[i].parent);
            assert(e[i].uci == t[i].uci && e[i].san == t[i].san && e[i].fen == t[i].fen);
            assert(follows_parent(t, i));
            if let Some(p) = t[i].parent {
                if 0 <= p < t.len() {
                    assert(e[p as int].fen == t[p as int].fen);
                }
            }
        } else {
            assert(i == t.len());
            assert((at as usize) as int == at);
            assert(e[i].parent == Some(at as usize));
            assert(e[i].uci == uci && e[i].san == san && e[i].fen == fen);
            assert(e[at].fen == t[at].fen);
        }
    }
}

pub proof fn lemma_wf_new_child(
    t: Seq<NodeView>,
    at: int,
    uci: Seq<char>,
    san: Seq<char>,
    fen: Seq<char>,
    clock: Option<(i64, i64)>,
)
    requires
        wf(t),
        0 <= at < t.len(),
        t.len() < usize::MAX,
    ensures
        wf(with_new_child(t, at, uci, san, fen, clock)),
{
    let e = with_new_child(t, at, uci, san, fen, clock);
    assert forall|i: int, k: int| #![trigger e[i].children[k]]
        0 <= i < e.len() && 0 <= k < e[i].children.len() implies {
            &&& child_ok(e, i, e[i].children[k] as int)
            &&& e[e[i].children[k] as int].parent == Some(i as usize)
        } by {
        if i == at && k == t[at].children.len() {
        } else {
            assert(e[i].children[k] == t[i].children[k]);
        }
    }
}


pub open spec fn segments_view(v: Seq<Segment>) -> Seq<SegmentView> {
    v.map_values(|s: Segment| s@)
}

pub open spec fn items_seq(v: Seq<LineItem>) -> Seq<LineItemView> {
    v.map_values(|i: LineItem| item_view(i))
}

pub proof fn lemma_items_view_map(s: Seq<LineItem>, k: int)
    requires
        0 <= k <= s.len(),
    ensures
        items_view(s, k) == s.subrange(k, s.len() as int).map_values(|i: LineItem| item_view(i)),
    decreases s.len() - k,
{
    if k < s.len() {
        lemma_items_view_map(s, k + 1);
        assert(items_view(s, k) =~= s.subrange(k, s.len() as int).map_values(|i: LineItem| item_view(i)));
    } else {
        assert(items_view(s, k) =~= s.subrange(k, s.len() as int).map_values(|i: LineItem| item_view(i)));
    }
}

/// How the move list shows node `c`: its SAN, with the move number and
/// colour taken from the parent position; the number is shown for white
/// moves and for the first move of a run.
pub open spec fn display_at(t: Seq<NodeView>, c: int, first: bool) -> DisplayNodeView {
    let p = match t[c].parent {
        Some(p) => p as int,
        None => c,
    };
    let white = fen_white_to_move(t[p].fen);
    DisplayNodeView {
        id: c as usize,
        san: t[c].san,
        fullmove: fen_fullmoves(t[p].fen),
        is_white: white,
        show_number: first || white,
    }
}

/// The segments of the line that continues the pending run `pending` with
/// node `cur`: the run grows along single children; at a branch it is
/// closed, each variation's segments follow (one depth deeper), and the
/// mainline continues as a fresh run.
pub open spec fn run_segments(t: Seq<NodeView>, cur: int, depth: nat, pending: Seq<DisplayNodeView>) -> Seq<SegmentView>
    decreases t.len() - cur, 1int, 0int,
{
    if 0 <= cur < t.len() {
        let run = pending.push(display_at(t, cur, pending.len() == 0));
        let ch = t[cur].children;
        if ch.len() == 0 {
            seq![SegmentView { depth, nodes: run }]
        } else if !child_ok(t, cur, ch[0] as int) {
            Seq::empty()
        } else if ch.len() == 1 {
            run_segments(t, ch[0] as int, depth, run)
        } else {
            seq![SegmentView { depth, nodes: run }] + variation_segments(t, cur, 1, depth + 1)
                + run_segments(t, ch[0] as int, depth, Seq::empty())
        }
    } else {
        Seq::empty()
    }
}

/// The segments of the variations `children[k..]` of `p`, in order.
pub open spec fn variation_segments(t: Seq<NodeView>, p: int, k: int, depth: nat) -> Seq<SegmentView>
    decreases t.len() - p, 0int, t[p].children.len() - k,
{
    if 0 <= p < t.len() && 0 <= k < t[p].children.len() && child_ok(t, p, t[p].children[k] as int) {
        run_segments(t, t[p].children[k] as int, depth, Seq::empty()) + variation_segments(t, p, k + 1, depth)
    } else {
        Seq::empty()
    }
}

/// The segments of the lines starting at the root's children `k..`: the
/// first at depth 0, every other one as a separate line at depth 1.
pub open spec fn root_segments(t: Seq<NodeView>, k: int) -> Seq<SegmentView>
    decreases t[0].children.len() - k,
{
    if 0 <= k < t[0].children.len() && child_ok(t, 0, t[0].children[k] as int) {
        run_segments(t, t[0].children[k] as int, if k == 0 { 0 } else { 1 }, Seq::empty())
            + root_segments(t, k + 1)
    } else {
        Seq::empty()
    }
}

/// The items of the line that continues the pending run `pending` with node
/// `cur` (see `run_segments`; here variations nest as items of their own).
pub open spec fn line_items(t: Seq<NodeView>, cur: int, depth: nat, pending: Seq<DisplayNodeView>) -> Seq<LineItemView>
    decreases t.len() - cur, 1int, 0int,
{
    if 0 <= cur < t.len() {
        let run = pending.push(display_at(t, cur, pending.len() == 0));
        let ch = t[cur].children;
        if ch.len() == 0 {
            seq![LineItemView::Moves(run)]
        } else if !child_ok(t, cur, ch[0] as int) {
            Seq::empty()
        } else if ch.len() == 1 {
            line_items(t, ch[0] as int, depth, run)
        } else {
            seq![LineItemView::Moves(run)] + variation_items(t, cur, 1, depth + 1)
                + line_items(t, ch[0] as int, depth, Seq::empty())
        }
    } else {
        Seq::empty()
    }
}

/// Each variation `children[k..]` of `p` as a line of its own.
pub open spec fn variation_items(t: Seq<NodeView>, p: int, k: int, depth: nat) -> Seq<LineItemView>
    decreases t.len() - p, 0int, t[p].children.len() - k,
{
    if 0 <= p < t.len() && 0 <= k < t[p].children.len() && child_ok(t, p, t[p].children[k] as int) {
        seq![LineItemView::Variation(MoveLineView {
            depth,
            items: line_items(t, t[p].children[k] as int, depth, Seq::empty()),
        })] + variation_items(t, p, k + 1, depth)
    } else {
        Seq::empty()
    }
}

/// The items of the top-level line from the root's children `k..`: the
/// first child's line flows inline, every other one is a depth-1 variation.
pub open spec fn root_items(t: Seq<NodeView>, k: int) -> Seq<LineItemView>
    decreases t[0].children.len() - k,
{
    if 0 <= k < t[0].children.len() && child_ok(t, 0, t[0].children[k] as int) {
        let c = t[0].children[k] as int;
        (if k == 0 {
            line_items(t, c, 0, Seq::empty())
        } else {
            seq![LineItemView::Variation(MoveLineView { depth: 1, items: line_items(t, c, 1, Seq::empty()) })]
        }) + root_items(t, k + 1)
    } else {
        Seq::empty()
    }
}

impl MoveTree {
    proof fn lemma_view(&self)
        ensures
            self@.len() == self.nodes@.len(),
            forall|i: int| 0 <= i < self.nodes@.len() ==> #[trigger] self@[i] == self.nodes@[i]@,
    {
    }

    /// A tree holding only `root`, with no clock data.
    pub fn new(root: Position) -> (t: MoveTree)
        ensures
            t@ == seq![root_node(root@, None)],
            wf(t@),
            follows_moves(t@),
    {
        let mut nodes: Vec<MoveNode> = Vec::new();
        nodes.push(MoveNode {
            parent: None,
            children: Vec::new(),
            uci: String::new(),
            san: String::new(),
            position: root,
            clock: None,
        });
        let t = MoveTree { nodes };
        assert(t@ =~= seq![root_node(root@, None)]);
        t
    }

    /// A tree holding only `root`, whose clock reads `initial_ms` for both
    /// sides.
    pub fn with_clocks(root: Position, initial_ms: i64) -> (t: MoveTree)
        ensures
            t@ == seq![root_node(root@, Some((initial_ms, initial_ms)))],
            wf(t@),
            follows_moves(t@),
    {
        let mut nodes: Vec<MoveNode> = Vec::new();
        nodes.push(MoveNode {
            parent: None,
            children: Vec::new(),
            uci: String::new(),
            san: String::new(),
            position: root,
            clock: Some((initial_ms, initial_ms)),
        });
        let t = MoveTree { nodes };
        assert(t@ =~= seq![root_node(root@, Some((initial_ms, initial_ms)))]);
        t
    }

    pub fn root(&self) -> (r: NodeId)
        ensures
            r == 0,
    {
        0
    }

    /// The number of nodes in the arena, unlinked ones included.
    pub fn len(&self) -> (n: usize)
        ensures
            n == self@.len(),
    {
        self.nodes.len()
    }

    pub fn position(&self, id: NodeId) -> (p: &Position)
        requires
            id < self@.len(),
        ensures
            p@ == self@[id as int].fen,
    {
        &self.nodes[id].position
    }

    pub fn parent(&self, id: NodeId) -> (p: Option<NodeId>)
        requires
            id < self@.len(),
        ensures
            p == self@[id as int].parent,
    {
        self.nodes[id].parent
    }

    pub fn children(&self, id: NodeId) -> (c: &[NodeId])
        requires
            id < self@.len(),
        ensures
            c@ == self@[id as int].children,
    {
        self.nodes[id].children.as_slice()
    }

    pub fn san(&self, id: NodeId) -> (s: &str)
        requires
            id < self@.len(),
        ensures
            s@ == self@[id as int].san,
    {
        self.nodes[id].san.as_str()
    }

    pub fn uci(&self, id: NodeId) -> (s: &str)
        requires
            id < self@.len(),
        ensures
            s@ == self@[id as int].uci,
    {
        self.nodes[id].uci.as_str()
    }

    pub fn clock(&self, id: NodeId) -> (c: Option<(i64, i64)>)
        requires
            id < self@.len(),
        ensures
            c == self@[id as int].clock,
    {
        self.nodes[id].clock
    }

    pub fn first_child(&self, id: NodeId) -> (c: Option<NodeId>)
        requires
            id < self@.len(),
        ensures
            c == (if self@[id as int].children.len() > 0 { Some(self@[id as int].children[0]) } else { None }),
    {
        if self.nodes[id].children.len() > 0 {
            Some(self.nodes[id].children[0])
        } else {
            None
        }
    }

    /// Follows first children from `id` to the end of its mainline.
    pub fn last_mainline_from(&self, id: NodeId) -> (r: NodeId)
        requires
            wf(self@),
            id < self@.len(),
        ensures
            r == last_mainline(self@, id as int),
            r < self@.len(),
    {
        let mut cur = id;
        while self.nodes[cur].children.len() > 0
            invariant
                wf(self@),
                cur < self@.len(),
                last_mainline(self@, cur as int) == last_mainline(self@, id as int),
            decreases self@.len() - cur,
        {
            proof { self.lemma_view(); }
            assert(self@[cur as int].children[0] == self.nodes@[cur as int].children@[0]);
            cur = self.nodes[cur].children[0];
        }
        proof { self.lemma_view(); }
        cur
    }

    /// Plays `m` from `at`. If a child reached by the same UCI already
    /// exists it is returned and the tree is left as it was; otherwise a new
    /// child is appended.
    pub fn play(&mut self, at: NodeId, m: ChessMove, clock: Option<(i64, i64)>) -> (id: NodeId)
        requires
            wf(old(self)@),
            at < old(self)@.len(),
            m@.before == old(self)@[at as int].fen,
            old(self)@.len() < usize::MAX,
        ensures
            wf(final(self)@),
            match child_with_uci(old(self)@, at as int, m@.uci) {
                Some(c) => id == c && final(self)@ == old(self)@,
                None => id == old(self)@.len() && final(self)@ == with_new_child(
                    old(self)@, at as int, m@.uci, m@.san, m@.after, clock,
                ),
            },
            follows_moves(old(self)@) ==> follows_moves(final(self)@) && final(self)@[id as int].fen == m@.after
                && final(self)@[id as int].san == m@.san && final(self)@[id as int].parent == Some(at),
    {
        proof { self.lemma_view(); }
        let ghost t = self@;
        let n = self.nodes[at].children.len();
        let mut k: usize = 0;
        while k < n
            invariant
                t == self@,
                wf(t),
                at < t.len(),
                m@.before == t[at as int].fen,
                n == t[at as int].children.len(),
                k <= n,
                self@.len() == self.nodes@.len(),
                forall|i: int| 0 <= i < self.nodes@.len() ==> #[trigger] self@[i] == self.nodes@[i]@,
                child_with_uci(t, at as int, m@.uci) == child_with_uci_from(t, at as int, m@.uci, k as int),
            decreases n - k,
        {
            let c = self.nodes[at].children[k];
            assert(c == t[at as int].children[k as int]);
            assert(child_ok(t, at as int, c as int));
            if self.nodes[c].uci == *m.uci_ref() {
                proof {
                    assert(t[c as int].parent == Some(at));
                    assert(0 < c);
                    assert(t[c as int].uci == m@.uci);
                    if follows_moves(t) {
                        assert(follows_parent(t, c as int));
                        assert(step_holds(t[at as int].fen, m@.uci, m@.san, m@.after));
                    }
                }
                return c;
            }
            k = k + 1;
        }
        let id = self.nodes.len();
        let (u, s, after) = m.into_parts();
        self.nodes.push(MoveNode {
            parent: Some(at),
            children: Vec::new(),
            uci: u,
            san: s,
            position: after,
            clock,
        });
        self.nodes[at].children.push(id);
        proof {
            self.lemma_view();
            let t2 = self@;
            let e = with_new_child(t, at as int, m@.uci, m@.san, m@.after, clock);
            assert(t2.len() == e.len());
            assert forall|i: int| 0 <= i < e.len() implies #[trigger] t2[i] == e[i] by {
                if i == at as int {
                    assert(t2[i].children =~= e[i].children);
                }
            }
            assert(t2 =~= e);
            lemma_wf_new_child(t, at as int, m@.uci, m@.san, m@.after, clock);
            if follows_moves(t) {
                lemma_follows_new_child(t, at as int, m@.uci, m@.san, m@.after, clock);
            }
        }
        id
    }

    /// Unlinks `id` (and so everything under it) from its parent. The root
    /// cannot be deleted; unlinked nodes stay in the arena.
    pub fn delete(&mut self, id: NodeId)
        requires
            wf(old(self)@),
            id < old(self)@.len(),
        ensures
            wf(final(self)@),
            final(self)@ == deleted(old(self)@, id as int),
    {
        if id == 0 {
            return;
        }
        proof { self.lemma_view(); }
        let ghost t = self@;
        if let Some(p) = self.nodes[id].parent {
            assert(self@[id as int].parent == Some(p));
            assert(t[id as int].parent == Some(p));
            let n = self.nodes[p].children.len();
            let mut kept: Vec<NodeId> = Vec::new();
            let mut k: usize = 0;
            while k < n
                invariant
                    t == self@,
                    wf(t),
                    p < t.len(),
                    n == t[p as int].children.len(),
                    k <= n,
                    self@.len() == self.nodes@.len(),
                    forall|i: int| 0 <= i < self.nodes@.len() ==> #[trigger] self@[i] == self.nodes@[i]@,
                    kept@ == without(t[p as int].children.subrange(0, k as int), id),
                decreases n - k,
            {
                let c = self.nodes[p].children[k];
                assert(t[p as int].children.subrange(0, k + 1).drop_last() =~= t[p as int].children.subrange(0, k as int));
                if c != id {
                    kept.push(c);
                }
                k = k + 1;
            }
            assert(t[p as int].children.subrange(0, n as int) =~= t[p as int].children);
            self.nodes[p].children = kept;
            proof {
                self.lemma_view();
                let e = deleted(t, id as int);
                assert forall|i: int| 0 <= i < e.len() implies #[trigger] self@[i] == e[i] by {}
                assert(self@ =~= e);
                lemma_without_members(t[p as int].children, id);
                assert forall|i: int, k: int| #![trigger e[i].children[k]]
                    0 <= i < e.len() && 0 <= k < e[i].children.len() implies {
                        &&& child_ok(e, i, e[i].children[k] as int)
                        &&& e[e[i].children[k] as int].parent == Some(i as usize)
                    } by {
                    if i == p as int {
                        let x = e[i].children[k];
                        assert(t[i].children.contains(x));
                        let j = choose|j: int| 0 <= j < t[i].children.len() && t[i].children[j] == x;
                        assert(t[i].children[j] == x);
                    }
                }
            }
        }
    }

    /// Moves `id` to the front of its parent's children, making it the
    /// mainline continuation.
    pub fn promote(&mut self, id: NodeId)
        requires
            wf(old(self)@),
            id < old(self)@.len(),
        ensures
            wf(final(self)@),
            final(self)@ == promoted(old(self)@, id as int),
    {
        proof { self.lemma_view(); }
        let ghost t = self@;
        if let Some(p) = self.nodes[id].parent {
            assert(self@[id as int].parent == Some(p));
            assert(t[id as int].parent == Some(p));
            let n = self.nodes[p].children.len();
            let mut k: usize = 0;
            while k < n
                invariant
                    t == self@,
                    wf(t),
                    p < t.len(),
                    n == t[p as int].children.len(),
                    k <= n,
                    self@.len() == self.nodes@.len(),
                    forall|i: int| 0 <= i < self.nodes@.len() ==> #[trigger] self@[i] == self.nodes@[i]@,
                    forall|j: int| 0 <= j < k ==> t[p as int].children[j] != id,
                    old(self)@ == t,
                decreases n - k,
            {
                if self.nodes[p].children[k] == id {
                    proof {
                        lemma_first_pos(t[p as int].children, id);
                        match first_pos(t[p as int].children, id) {
                            Some(f) => { assert(f == k); },
                            None => { assert(t[p as int].children[k as int] != id); },
                        }
                        assert(first_pos(t[p as int].children, id) == Some(k as int));
                    }
                    let ghost old_ch = t[p as int].children;
                    self.nodes[p].children.remove(k);
                    self.nodes[p].children.insert(0, id);
                    proof {
                        self.lemma_view();
                        let e = promoted(t, id as int);
                        assert(self@[p as int].children =~= seq![id] + old_ch.remove(k as int));
                        assert forall|i: int| 0 <= i < e.len() implies #[trigger] self@[i] == e[i] by {}
                        assert(self@ =~= e);
                        assert forall|i: int, j: int| #![trigger e[i].children[j]]
                            0 <= i < e.len() && 0 <= j < e[i].children.len() implies {
                                &&& child_ok(e, i, e[i].children[j] as int)
                                &&& e[e[i].children[j] as int].parent == Some(i as usize)
                            } by {
                            if i == p as int {
                                if j == 0 {
                                    assert(e[i].children[j] == old_ch[k as int]);
                                } else if j - 1 < k {
                                    assert(e[i].children[j] == old_ch[j - 1]);
                                } else {
                                    assert(e[i].children[j] == old_ch[j]);
                                }
                            }
                        }
                        assert(self@ == promoted(t, id as int));
                        assert(wf(self@));
                    }
                    return;
                }
                k = k + 1;
            }
            proof {
                lemma_first_pos(t[p as int].children, id);
            }
        }
    }

    /// The node ids from the root down to `id`.
    pub fn path_from_root(&self, id: NodeId) -> (path: Vec<NodeId>)
        requires
            wf(self@),
            id < self@.len(),
        ensures
            path@ == path_to(self@, id as int),
    {
        proof { self.lemma_view(); }
        let mut rev: Vec<NodeId> = Vec::new();
        let mut cur: Option<NodeId> = Some(id);
        while cur.is_some()
            invariant
                wf(self@),
                self@.len() == self.nodes@.len(),
                forall|i: int| 0 <= i < self.nodes@.len() ==> #[trigger] self@[i] == self.nodes@[i]@,
                cur matches Some(c) ==> c < self@.len(),
                path_to(self@, id as int) == (match cur {
                    Some(c) => path_to(self@, c as int),
                    None => Seq::empty(),
                }) + rev@.reverse(),
            decreases (match cur { Some(c) => c + 1, None => 0 }),
        {
            let c = cur.unwrap();
            rev.push(c);
            cur = self.nodes[c].parent;
            proof {
                assert(rev@.reverse() =~= seq![c] + rev@.drop_last().reverse());
            }
        }
        let mut path: Vec<NodeId> = Vec::new();
        let mut k = rev.len();
        while k > 0
            invariant
                k <= rev@.len(),
                path@ == rev@.subrange(k as int, rev@.len() as int).reverse(),
            decreases k,
        {
            k = k - 1;
            path.push(rev[k]);
            assert(path@ =~= rev@.subrange(k as int, rev@.len() as int).reverse());
        }
        assert(rev@.subrange(0, rev@.len() as int) =~= rev@);
        path
    }

    /// The clock at `id`: its own reading, else the nearest ancestor's.
    pub fn clock_at(&self, id: NodeId) -> (c: Option<(i64, i64)>)
        requires
            wf(self@),
            id < self@.len(),
        ensures
            c == clock_at(self@, id as int),
    {
        proof { self.lemma_view(); }
        let mut cur: Option<NodeId> = Some(id);
        while cur.is_some()
            invariant
                wf(self@),
                self@.len() == self.nodes@.len(),
                forall|i: int| 0 <= i < self.nodes@.len() ==> #[trigger] self@[i] == self.nodes@[i]@,
                cur matches Some(c) ==> c < self@.len(),
                clock_at(self@, id as int) == (match cur {
                    Some(c) => clock_at(self@, c as int),
                    None => None,
                }),
            decreases (match cur { Some(c) => c + 1, None => 0 }),
        {
            let c = cur.unwrap();
            if let Some(clock) = self.nodes[c].clock {
                return Some(clock);
            }
            cur = self.nodes[c].parent;
        }
        None
    }

    /// Records that after `id`'s move the mover had `ms` left; the other
    /// side's reading carries over from the nearest ancestor. Does nothing at
    /// the root, which has no mover.
    pub(crate) fn set_mover_clock(&mut self, id: NodeId, ms: i64)
        requires
            wf(old(self)@),
            id < old(self)@.len(),
        ensures
            wf(final(self)@),
            final(self)@ == with_mover_clock(old(self)@, id as int, ms),
    {
        proof { self.lemma_view(); }
        let ghost t = self@;
        let parent = match self.nodes[id].parent {
            Some(p) => p,
            None => { return; },
        };
        assert(self@[id as int].parent == Some(parent));
        let (parent_w, parent_b) = match self.clock_at(parent) {
            Some(c) => c,
            None => (0i64, 0i64),
        };
        let clock = if self.nodes[parent].position.white_to_move() { (ms, parent_b) } else { (parent_w, ms) };
        self.nodes[id].clock = Some(clock);
        proof {
            self.lemma_view();
            let e = with_mover_clock(t, id as int, ms);
            assert forall|i: int| 0 <= i < e.len() implies #[trigger] self@[i] == e[i] by {}
            assert(self@ =~= e);
            assert forall|i: int, k: int| #![trigger e[i].children[k]]
                0 <= i < e.len() && 0 <= k < e[i].children.len() implies {
                    &&& child_ok(e, i, e[i].children[k] as int)
                    &&& e[e[i].children[k] as int].parent == Some(i as usize)
                } by {
                assert(e[i].children == t[i].children);
            }
        }
    }

    fn display_node(&self, cur: NodeId, first: bool) -> (d: DisplayNode)
        requires
            wf(self@),
            cur < self@.len(),
            self@[cur as int].parent is Some,
        ensures
            d@ == display_at(self@, cur as int, first),
    {
        proof { self.lemma_view(); }
        let p = match self.nodes[cur].parent {
            Some(p) => p,
            None => cur,
        };
        assert(p < cur);
        let pos = &self.nodes[p].position;
        let white = pos.white_to_move();
        DisplayNode {
            id: cur,
            san: self.nodes[cur].san.clone(),
            fullmove: pos.fullmoves(),
            is_white: white,
            show_number: first || white,
        }
    }

    fn flatten_line(&self, first_move: NodeId, depth: usize, out: &mut Vec<Segment>)
        requires
            wf(self@),
            first_move < self@.len(),
            self@[first_move as int].parent is Some,
            depth <= first_move,
        ensures
            segments_view(final(out)@) == segments_view(old(out)@) + run_segments(self@, first_move as int, depth as nat, Seq::empty()),
        decreases self@.len() - first_move,
    {
        proof { self.lemma_view(); }
        let ghost t = self@;
        let ghost start = segments_view(out@);
        let mut nodes: Vec<DisplayNode> = Vec::new();
        let mut cur = first_move;
        assert(nodes_view(nodes@) =~= Seq::<DisplayNodeView>::empty());
        loop
            invariant_except_break
                start + run_segments(t, first_move as int, depth as nat, Seq::empty())
                    == segments_view(out@) + run_segments(t, cur as int, depth as nat, nodes_view(nodes@)),
            invariant
                t == self@,
                wf(t),
                self@.len() == self.nodes@.len(),
                forall|i: int| 0 <= i < self.nodes@.len() ==> #[trigger] self@[i] == self.nodes@[i]@,
                first_move <= cur < t.len(),
                depth <= first_move,
                t[cur as int].parent is Some,
            ensures
                segments_view(out@) == start + run_segments(t, first_move as int, depth as nat, Seq::empty()),
            decreases t.len() - cur,
        {
            let ghost pending = nodes_view(nodes@);
            let first = nodes.len() == 0;
            let dn = self.display_node(cur, first);
            nodes.push(dn);
            let ghost run = pending.push(display_at(t, cur as int, pending.len() == 0));
            assert(nodes_view(nodes@) =~= run);
            let n = self.nodes[cur].children.len();
            if n == 0 {
                let ghost before = out@;
                assert(run_segments(t, cur as int, depth as nat, pending) == seq![SegmentView { depth: depth as nat, nodes: run }]);
                out.push(Segment { depth, nodes });
                assert(segments_view(out@) =~= segments_view(before) + seq![SegmentView { depth: depth as nat, nodes: run }]);
                break;
            }
            let c0 = self.nodes[cur].children[0];
            assert(c0 == t[cur as int].children[0]);
            assert(child_ok(t, cur as int, c0 as int));
            if n == 1 {
                cur = c0;
            } else {
                let mut run_nodes: Vec<DisplayNode> = Vec::new();
                std::mem::swap(&mut run_nodes, &mut nodes);
                let ghost before = out@;
                out.push(Segment { depth, nodes: run_nodes });
                assert(segments_view(out@) =~= segments_view(before) + seq![SegmentView { depth: depth as nat, nodes: run }]);
                let ghost branch = segments_view(out@);
                let mut k: usize = 1;
                while k < n
                    invariant
                        t == self@,
                        wf(t),
                        self@.len() == self.nodes@.len(),
                        forall|i: int| 0 <= i < self.nodes@.len() ==> #[trigger] self@[i] == self.nodes@[i]@,
                        first_move <= cur < t.len(),
                        depth <= first_move,
                        n == t[cur as int].children.len(),
                        1 <= k <= n,
                        branch + variation_segments(t, cur as int, 1, (depth + 1) as nat)
                            == segments_view(out@) + variation_segments(t, cur as int, k as int, (depth + 1) as nat),
                    decreases n - k,
                {
                    let v = self.nodes[cur].children[k];
                    assert(v == t[cur as int].children[k as int]);
                    assert(child_ok(t, cur as int, v as int));
                    let ghost mid = segments_view(out@);
                    self.flatten_line(v, depth + 1, out);
                    k = k + 1;
                    assert(mid + variation_segments(t, cur as int, (k - 1) as int, (depth + 1) as nat)
                        == segments_view(out@) + variation_segments(t, cur as int, k as int, (depth + 1) as nat));
                }
                cur = c0;
                assert(nodes_view(nodes@) =~= Seq::<DisplayNodeView>::empty());
            }
        }
    }

    /// The tree as contiguous runs for rendering: the mainline at depth 0,
    /// each variation one level deeper than the line it branches from, and
    /// the mainline resuming as a fresh run after each branch.
    pub fn flatten(&self) -> (out: Vec<Segment>)
        requires
            wf(self@),
        ensures
            segments_view(out@) == root_segments(self@, 0),
    {
        proof { self.lemma_view(); }
        let ghost t = self@;
        let mut out: Vec<Segment> = Vec::new();
        let n = self.nodes[0].children.len();
        let mut i: usize = 0;
        assert(segments_view(out@) =~= Seq::<SegmentView>::empty());
        while i < n
            invariant
                t == self@,
                wf(t),
                self@.len() == self.nodes@.len(),
                forall|j: int| 0 <= j < self.nodes@.len() ==> #[trigger] self@[j] == self.nodes@[j]@,
                n == t[0].children.len(),
                i <= n,
                root_segments(t, 0) == segments_view(out@) + root_segments(t, i as int),
            decreases n - i,
        {
            let child = self.nodes[0].children[i];
            assert(child == t[0].children[i as int]);
            assert(child_ok(t, 0, child as int));
            let ghost mid = segments_view(out@);
            self.flatten_line(child, if i == 0 { 0 } else { 1 }, &mut out);
            i = i + 1;
        }
        assert(root_segments(t, i as int) =~= Seq::<SegmentView>::empty());
        assert(segments_view(out@) =~= segments_view(out@) + Seq::<SegmentView>::empty());
        out
    }

    fn line_items(&self, first_move: NodeId, depth: usize) -> (items: Vec<LineItem>)
        requires
            wf(self@),
            first_move < self@.len(),
            self@[first_move as int].parent is Some,
            depth <= first_move,
        ensures
            items_seq(items@) == line_items(self@, first_move as int, depth as nat, Seq::empty()),
        decreases self@.len() - first_move, 0int,
    {
        proof { self.lemma_view(); }
        let ghost t = self@;
        let mut items: Vec<LineItem> = Vec::new();
        let mut nodes: Vec<DisplayNode> = Vec::new();
        let mut cur = first_move;
        assert(nodes_view(nodes@) =~= Seq::<DisplayNodeView>::empty());
        assert(items_seq(items@) =~= Seq::<LineItemView>::empty());
        loop
            invariant_except_break
                line_items(t, first_move as int, depth as nat, Seq::empty())
                    == items_seq(items@) + line_items(t, cur as int, depth as nat, nodes_view(nodes@)),
            invariant
                t == self@,
                wf(t),
                self@.len() == self.nodes@.len(),
                forall|i: int| 0 <= i < self.nodes@.len() ==> #[trigger] self@[i] == self.nodes@[i]@,
                first_move <= cur < t.len(),
                depth <= first_move,
                t[cur as int].parent is Some,
            ensures
                items_seq(items@) == line_items(t, first_move as int, depth as nat, Seq::empty()),
            decreases t.len() - cur,
        {
            let ghost pending = nodes_view(nodes@);
            let first = nodes.len() == 0;
            let dn = self.display_node(cur, first);
            nodes.push(dn);
            let ghost run = pending.push(display_at(t, cur as int, pending.len() == 0));
            assert(nodes_view(nodes@) =~= run);
            let n = self.nodes[cur].children.len();
            if n == 0 {
                let ghost before = items@;
                assert(line_items(t, cur as int, depth as nat, pending) == seq![LineItemView::Moves(run)]);
                items.push(LineItem::Moves(nodes));
                assert(items_seq(items@) =~= items_seq(before) + seq![LineItemView::Moves(run)]);
                break;
            }
            let c0 = self.nodes[cur].children[0];
            assert(c0 == t[cur as int].children[0]);
            assert(child_ok(t, cur as int, c0 as int));
            if n == 1 {
                cur = c0;
            } else {
                let mut run_nodes: Vec<DisplayNode> = Vec::new();
                std::mem::swap(&mut run_nodes, &mut nodes);
                let ghost before = items@;
                items.push(LineItem::Moves(run_nodes));
                assert(items_seq(items@) =~= items_seq(before) + seq![LineItemView::Moves(run)]);
                let ghost branch = items_seq(items@);
                let mut k: usize = 1;
                while k < n
                    invariant
                        t == self@,
                        wf(t),
                        self@.len() == self.nodes@.len(),
                        forall|i: int| 0 <= i < self.nodes@.len() ==> #[trigger] self@[i] == self.nodes@[i]@,
                        first_move <= cur < t.len(),
                        depth <= first_move,
                        n == t[cur as int].children.len(),
                        1 <= k <= n,
                        branch + variation_items(t, cur as int, 1, (depth + 1) as nat)
                            == items_seq(items@) + variation_items(t, cur as int, k as int, (depth + 1) as nat),
                    decreases n - k,
                {
                    let v = self.nodes[cur].children[k];
                    assert(v == t[cur as int].children[k as int]);
                    assert(child_ok(t, cur as int, v as int));
                    let line = self.build_line(v, depth + 1);
                    let ghost mid = items@;
                    items.push(LineItem::Variation(line));
                    assert(items_seq(items@) =~= items_seq(mid) + seq![item_view(LineItem::Variation(line))]);
                    k = k + 1;
                }
                cur = c0;
                assert(nodes_view(nodes@) =~= Seq::<DisplayNodeView>::empty());
            }
        }
        items
    }

    fn build_line(&self, first_move: NodeId, depth: usize) -> (l: MoveLine)
        requires
            wf(self@),
            first_move < self@.len(),
            self@[first_move as int].parent is Some,
            depth <= first_move,
        ensures
            line_view(l) == (MoveLineView {
                depth: depth as nat,
                items: line_items(self@, first_move as int, depth as nat, Seq::empty()),
            }),
        decreases self@.len() - first_move, 1int,
    {
        let items = self.line_items(first_move, depth);
        let l = MoveLine { depth, items };
        proof {
            lemma_items_view_map(l.items@, 0);
            assert(l.items@.subrange(0, l.items@.len() as int) =~= l.items@);
        }
        l
    }

    /// The tree as nested lines: the mainline flows as one line, each
    /// variation appears as its own line, one level deeper, exactly where it
    /// branches off.
    pub fn flatten_tree(&self) -> (l: MoveLine)
        requires
            wf(self@),
        ensures
            line_view(l) == (MoveLineView { depth: 0, items: root_items(self@, 0) }),
    {
        proof { self.lemma_view(); }
        let ghost t = self@;
        let mut items: Vec<LineItem> = Vec::new();
        let n = self.nodes[0].children.len();
        let mut i: usize = 0;
        assert(items_seq(items@) =~= Seq::<LineItemView>::empty());
        while i < n
            invariant
                t == self@,
                wf(t),
                self@.len() == self.nodes@.len(),
                forall|j: int| 0 <= j < self.nodes@.len() ==> #[trigger] self@[j] == self.nodes@[j]@,
                n == t[0].children.len(),
                i <= n,
                root_items(t, 0) == items_seq(items@) + root_items(t, i as int),
            decreases n - i,
        {
            let child = self.nodes[0].children[i];
            assert(child == t[0].children[i as int]);
            assert(child_ok(t, 0, child as int));
            let ghost before = items@;
            if i == 0 {
                let mut first = self.line_items(child, 0);
                items.append(&mut first);
                assert(items_seq(items@) =~= items_seq(before) + line_items(t, child as int, 0, Seq::empty()));
            } else {
                let line = self.build_line(child, 1);
                items.push(LineItem::Variation(line));
                assert(items_seq(items@) =~= items_seq(before) + seq![item_view(LineItem::Variation(line))]);
            }
            i = i + 1;
        }
        assert(root_items(t, i as int) =~= Seq::<LineItemView>::empty());
        let l = MoveLine { depth: 0, items };
        proof {
            lemma_items_view_map(l.items@, 0);
            assert(l.items@.subrange(0, l.items@.len() as int) =~= l.items@);
            assert(items_seq(l.items@) =~= items_seq(l.items@) + Seq::<LineItemView>::empty());
        }
        l
    }
}

proof fn lemma_new_child_is_found(
    t: Seq<NodeView>,
    at: int,
    uci: Seq<char>,
    san: Seq<char>,
    fen: Seq<char>,
    clock: Option<(i64, i64)>,
    k: int,
)
    requires
        wf(t),
        0 <= at < t.len(),
        t.len() < usize::MAX,
        0 <= k <= t[at].children.len(),
        child_with_uci_from(t, at, uci, k) is None,
    ensures
        child_with_uci_from(with_new_child(t, at, uci, san, fen, clock), at, uci, k) == Some(t.len() as usize),
    decreases t[at].children.len() - k,
{
    let e = with_new_child(t, at, uci, san, fen, clock);
    if k < t[at].children.len() {
        let c = t[at].children[k];
        assert(child_ok(t, at, c as int));
        assert(e[at].children[k] == c);
        assert(e[c as int] == t[c as int]);
        lemma_new_child_is_found(t, at, uci, san, fen, clock, k + 1);
    } else {
        assert(e[at].children[k] == t.len() as usize);
    }
}

/// Playing a move twice from the same node reaches the same node: when the
/// first play adds a child, the second finds that child (and so, by
/// `play`'s contract, returns it and leaves the tree as it is).
pub proof fn replaying_a_move_finds_its_node(
    t: Seq<NodeView>,
    at: int,
    uci: Seq<char>,
    san: Seq<char>,
    fen: Seq<char>,
    clock: Option<(i64, i64)>,
)
    requires
        wf(t),
        0 <= at < t.len(),
        t.len() < usize::MAX,
    ensures
        child_with_uci(t, at, uci) is None ==> child_with_uci(with_new_child(t, at, uci, san, fen, clock), at, uci)
            == Some(t.len() as usize),
{
    if child_with_uci(t, at, uci) is None {
        lemma_new_child_is_found(t, at, uci, san, fen, clock, 0);
    }
}

/// Every change the tree offers keeps each node holding what its move gives
/// from its parent: adding a child by a move that holds from its parent,
/// deleting or promoting a node, and setting a clock. (A tree starts as a
/// lone root, which follows trivially.)
pub proof fn tree_changes_keep_positions_following_moves(
    t: Seq<NodeView>,
    at: int,
    m: MoveView,
    clock: Option<(i64, i64)>,
    id: int,
    ms: i64,
)
    requires
        wf(t),
        follows_moves(t),
        t.len() < usize::MAX,
        0 <= at < t.len(),
        0 <= id < t.len(),
        move_holds(m),
        m.before == t[at].fen,
    ensures
        follows_moves(with_new_child(t, at, m.uci, m.san, m.after, clock)),
        follows_moves(deleted(t, id)),
        follows_moves(promoted(t, id)),
        follows_moves(with_mover_clock(t, id, ms)),
{
    lemma_follows_new_child(t, at, m.uci, m.san, m.after, clock);
    lemma_follows_same_nodes(t, deleted(t, id));
    lemma_follows_same_nodes(t, promoted(t, id));
    lemma_follows_same_nodes(t, with_mover_clock(t, id, ms));
}

/// A change that touches no node's parent, move or position keeps every
/// node following its move.
pub(crate) proof fn lemma_follows_same_nodes(t: Seq<NodeView>, e: Seq<NodeView>)
    requires
        follows_moves(t),
        e.len() == t.len(),
        forall|i: int| 0 <= i < t.len() ==> #[trigger] e[i].parent == t[i].parent && e[i].uci == t[i].uci
            && e[i].san == t[i].san && e[i].fen == t[i].fen,
    ensures
        follows_moves(e),
{
    assert forall|i: int| #![trigger e[i].parent] 0 < i < e.len() implies follows_parent(e, i) by {
        assert(e[i].parent == t[i].parent);
        assert(follows_parent(t, i));
        if let Some(p) = t[i].parent {
            if 0 <= p < t.len() {
                assert(e[p as int].parent == t[p as int].parent);
            }
        }
    }
}

/// The display node `n` shows a move of `t` numbered from the position it
/// is played from: `n` is a node other than the root, with that node's SAN,
/// the fullmove counter of its parent's position, and that position's side
/// to move.
pub open spec fn numbered_from_parent(t: Seq<NodeView>, n: DisplayNodeView) -> bool {
    &&& 0 < n.id < t.len()
    &&& match t[n.id as int].parent {
        Some(p) => {
            &&& 0 <= p < t.len()
            &&& n.fullmove == fen_fullmoves(t[p as int].fen)
            &&& n.is_white == fen_white_to_move(t[p as int].fen)
            &&& n.san == t[n.id as int].san
        },
        None => false,
    }
}

/// Every node of every segment is numbered from its parent, and shows its
/// number exactly when it is a white move or opens its segment.
pub open spec fn all_numbered(t: Seq<NodeView>, segs: Seq<SegmentView>) -> bool {
    forall|s: int, k: int| #![trigger segs[s].nodes[k]]
        0 <= s < segs.len() && 0 <= k < segs[s].nodes.len() ==> numbered_from_parent(t, segs[s].nodes[k])
            && segs[s].nodes[k].show_number == (k == 0 || segs[s].nodes[k].is_white)
}

proof fn lemma_all_numbered_concat(t: Seq<NodeView>, a: Seq<SegmentView>, b: Seq<SegmentView>)
    requires
        all_numbered(t, a),
        all_numbered(t, b),
    ensures
        all_numbered(t, a + b),
{
    let c = a + b;
    assert forall|s: int, k: int| #![trigger c[s].nodes[k]]
        0 <= s < c.len() && 0 <= k < c[s].nodes.len() implies numbered_from_parent(t, c[s].nodes[k])
            && c[s].nodes[k].show_number == (k == 0 || c[s].nodes[k].is_white) by {
        if s < a.len() {
            assert(c[s] == a[s]);
            assert(a[s].nodes[k] == c[s].nodes[k]);
        } else {
            assert(c[s] == b[s - a.len()]);
            assert(b[s - a.len()].nodes[k] == c[s].nodes[k]);
        }
    }
}

proof fn lemma_run_numbered(t: Seq<NodeView>, cur: int, depth: nat, pending: Seq<DisplayNodeView>)
    requires
        wf(t),
        t.len() <= usize::MAX,
        0 < cur,
        forall|k: int| 0 <= k < pending.len() ==> numbered_from_parent(t, #[trigger] pending[k])
            && pending[k].show_number == (k == 0 || pending[k].is_white),
    ensures
        all_numbered(t, run_segments(t, cur, depth, pending)),
    decreases t.len() - cur, 1int, 0int,
{
    if cur < t.len() {
        let d = display_at(t, cur, pending.len() == 0);
        assert(t[cur].parent is Some);
        assert(numbered_from_parent(t, d));
        let run = pending.push(d);
        assert forall|k: int| 0 <= k < run.len() implies numbered_from_parent(t, #[trigger] run[k])
            && run[k].show_number == (k == 0 || run[k].is_white) by {
            if k < pending.len() {
                assert(run[k] == pending[k]);
            }
        }
        let ch = t[cur].children;
        let one = seq![SegmentView { depth, nodes: run }];
        assert(all_numbered(t, one)) by {
            assert forall|s: int, k: int| #![trigger one[s].nodes[k]]
                0 <= s < one.len() && 0 <= k < one[s].nodes.len() implies numbered_from_parent(t, one[s].nodes[k])
                    && one[s].nodes[k].show_number == (k == 0 || one[s].nodes[k].is_white) by {
                assert(one[s].nodes == run);
            }
        }
        if ch.len() == 0 {
        } else if !child_ok(t, cur, ch[0] as int) {
            assert(all_numbered(t, Seq::<SegmentView>::empty()));
        } else if ch.len() == 1 {
            lemma_run_numbered(t, ch[0] as int, depth, run);
        } else {
            lemma_variations_numbered(t, cur, 1, depth + 1);
            lemma_run_numbered(t, ch[0] as int, depth, Seq::empty());
            lemma_all_numbered_concat(t, one, variation_segments(t, cur, 1, depth + 1));
            lemma_all_numbered_concat(
                t,
                one + variation_segments(t, cur, 1, depth + 1),
                run_segments(t, ch[0] as int, depth, Seq::empty()),
            );
        }
    } else {
        assert(all_numbered(t, Seq::<SegmentView>::empty()));
    }
}

proof fn lemma_variations_numbered(t: Seq<NodeView>, p: int, k: int, depth: nat)
    requires
        wf(t),
        t.len() <= usize::MAX,
        0 <= p,
    ensures
        all_numbered(t, variation_segments(t, p, k, depth)),
    decreases t.len() - p, 0int, t[p].children.len() - k,
{
    if 0 <= p < t.len() && 0 <= k < t[p].children.len() && child_ok(t, p, t[p].children[k] as int) {
        let c = t[p].children[k] as int;
        lemma_run_numbered(t, c, depth, Seq::empty());
        lemma_variations_numbered(t, p, k + 1, depth);
        lemma_all_numbered_concat(t, run_segments(t, c, depth, Seq::empty()), variation_segments(t, p, k + 1, depth));
    } else {
        assert(all_numbered(t, Seq::<SegmentView>::empty()));
    }
}

proof fn lemma_roots_numbered(t: Seq<NodeView>, k: int)
    requires
        wf(t),
        t.len() <= usize::MAX,
        0 <= k,
    ensures
        all_numbered(t, root_segments(t, k)),
    decreases t[0].children.len() - k,
{
    if 0 <= k < t[0].children.len() && child_ok(t, 0, t[0].children[k] as int) {
        let c = t[0].children[k] as int;
        let depth: nat = if k == 0 { 0 } else { 1 };
        lemma_run_numbered(t, c, depth, Seq::empty());
        lemma_roots_numbered(t, k + 1);
        lemma_all_numbered_concat(t, run_segments(t, c, depth, Seq::empty()), root_segments(t, k + 1));
    } else {
        assert(all_numbered(t, Seq::<SegmentView>::empty()));
    }
}

/// Each move of `run` after the first is the only continuation of the move
/// before it.
pub open spec fn consecutive(t: Seq<NodeView>, run: Seq<DisplayNodeView>) -> bool {
    forall|k: int| #![trigger run[k]]
        0 <= k && k + 1 < run.len() ==> 0 <= run[k].id < t.len() && t[run[k].id as int].children.len() == 1
            && t[run[k].id as int].children[0] == run[k + 1].id
}

pub open spec fn all_consecutive(t: Seq<NodeView>, segs: Seq<SegmentView>) -> bool {
    forall|s: int| 0 <= s < segs.len() ==> consecutive(t, #[trigger] segs[s].nodes)
}

proof fn lemma_all_consecutive_concat(t: Seq<NodeView>, a: Seq<SegmentView>, b: Seq<SegmentView>)
    requires
        all_consecutive(t, a),
        all_consecutive(t, b),
    ensures
        all_consecutive(t, a + b),
{
    let c = a + b;
    assert forall|s: int| 0 <= s < c.len() implies consecutive(t, #[trigger] c[s].nodes) by {
        if s < a.len() {
            assert(c[s] == a[s]);
        } else {
            assert(c[s] == b[s - a.len()]);
        }
    }
}

proof fn lemma_run_consecutive(t: Seq<NodeView>, cur: int, depth: nat, pending: Seq<DisplayNodeView>)
    requires
        wf(t),
        t.len() <= usize::MAX,
        0 < cur,
        consecutive(t, pending),
        pending.len() > 0 ==> 0 <= pending.last().id < t.len() && t[pending.last().id as int].children.len() == 1
            && t[pending.last().id as int].children[0] == cur as usize,
    ensures
        all_consecutive(t, run_segments(t, cur, depth, pending)),
    decreases t.len() - cur, 1int, 0int,
{
    if cur < t.len() {
        let d = display_at(t, cur, pending.len() == 0);
        let run = pending.push(d);
        assert forall|k: int| #![trigger run[k]]
                0 <= k && k + 1 < run.len() implies 0 <= run[k].id < t.len() && t[run[k].id as int].children.len()
                    == 1 && t[run[k].id as int].children[0] == run[k + 1].id by {
                let j = k + 1;
                if j < pending.len() {
                    assert(run[k] == pending[k] && run[j] == pending[j]);
                } else {
                    assert(k == pending.len() - 1);
                    assert(run[k] == pending.last());
                    assert(run[j] == d);
                    assert(d.id == cur as usize);
                }
            }
        assert(consecutive(t, run));
        let ch = t[cur].children;
        let one = seq![SegmentView { depth, nodes: run }];
        assert(all_consecutive(t, one)) by {
            assert forall|s: int| 0 <= s < one.len() implies consecutive(t, #[trigger] one[s].nodes) by {
                assert(one[s].nodes == run);
            }
        }
        if ch.len() == 0 {
        } else if !child_ok(t, cur, ch[0] as int) {
            assert(all_consecutive(t, Seq::<SegmentView>::empty()));
        } else if ch.len() == 1 {
            assert(run.last() == d);
            lemma_run_consecutive(t, ch[0] as int, depth, run);
        } else {
            lemma_variations_consecutive(t, cur, 1, depth + 1);
            lemma_run_consecutive(t, ch[0] as int, depth, Seq::empty());
            lemma_all_consecutive_concat(t, one, variation_segments(t, cur, 1, depth + 1));
            lemma_all_consecutive_concat(
                t,
                one + variation_segments(t, cur, 1, depth + 1),
                run_segments(t, ch[0] as int, depth, Seq::empty()),
            );
        }
    } else {
        assert(all_consecutive(t, Seq::<SegmentView>::empty()));
    }
}

proof fn lemma_variations_consecutive(t: Seq<NodeView>, p: int, k: int, depth: nat)
    requires
        wf(t),
        t.len() <= usize::MAX,
        0 <= p,
    ensures
        all_consecutive(t, variation_segments(t, p, k, depth)),
    decreases t.len() - p, 0int, t[p].children.len() - k,
{
    if 0 <= p < t.len() && 0 <= k < t[p].children.len() && child_ok(t, p, t[p].children[k] as int) {
        let c = t[p].children[k] as int;
        lemma_run_consecutive(t, c, depth, Seq::empty());
        lemma_variations_consecutive(t, p, k + 1, depth);
        lemma_all_consecutive_concat(t, run_segments(t, c, depth, Seq::empty()), variation_segments(t, p, k + 1, depth));
    } else {
        assert(all_consecutive(t, Seq::<SegmentView>::empty()));
    }
}

proof fn lemma_roots_consecutive(t: Seq<NodeView>, k: int)
    requires
        wf(t),
        t.len() <= usize::MAX,
        0 <= k,
    ensures
        all_consecutive(t, root_segments(t, k)),
    decreases t[0].children.len() - k,
{
    if 0 <= k < t[0].children.len() && child_ok(t, 0, t[0].children[k] as int) {
        let c = t[0].children[k] as int;
        let depth: nat = if k == 0 { 0 } else { 1 };
        lemma_run_consecutive(t, c, depth, Seq::empty());
        lemma_roots_consecutive(t, k + 1);
        lemma_all_consecutive_concat(t, run_segments(t, c, depth, Seq::empty()), root_segments(t, k + 1));
    } else {
        assert(all_consecutive(t, Seq::<SegmentView>::empty()));
    }
}

/// Each segment of the flattened move list is a run of moves along one
/// line: every move after the first is the only continuation of the move
/// before it (a move with replies to choose between ends its segment).
pub proof fn flattened_segments_follow_single_replies(t: Seq<NodeView>)
    requires
        wf(t),
        t.len() <= usize::MAX,
    ensures
        all_consecutive(t, root_segments(t, 0)),
{
    lemma_roots_consecutive(t, 0);
}

/// Every move in the flattened move list (`flatten`) is a node of the tree
/// other than the root, shown with its own SAN, the move number of the
/// position it is played from (its parent's fullmove counter, so a black
/// reply carries the same number as the white move before it) and that
/// position's side to move; its number is shown exactly when it is a white
/// move or the first move of its segment.
pub proof fn flattened_moves_are_numbered_from_their_parent(t: Seq<NodeView>)
    requires
        wf(t),
        t.len() <= usize::MAX,
    ensures
        all_numbered(t, root_segments(t, 0)),
{
    lemma_roots_numbered(t, 0);
}

/// Along every line of a tree whose nodes follow their moves, the side to
/// move alternates: each node has the other side to move than its parent,
/// provided the root's FEN is written plainly (as every FEN shakmaty writes
/// is, the standard start among them).
pub proof fn sides_alternate_along_the_tree(t: Seq<NodeView>, i: int)
    requires
        wf(t),
        follows_moves(t),
        plain_turn(t[0].fen),
        0 < i < t.len(),
    ensures
        fen_white_to_move(t[i].fen) == !fen_white_to_move(t[t[i].parent->0 as int].fen),
{
    let p = t[i].parent->0 as int;
    assert(follows_parent(t, i));
    if p > 0 {
        assert(t[p].parent is Some);
        assert(follows_parent(t, p));
    }
}

/// Deleting leaves the root alone; deleting any other node unlinks it from
/// its parent's children, keeps every other child there, and changes no
/// other node.
pub proof fn delete_unlinks_only_the_node(t: Seq<NodeView>, id: usize)
    requires
        wf(t),
        id < t.len(),
    ensures
        id == 0 ==> deleted(t, id as int) == t,
        id > 0 ==> {
            let p = t[id as int].parent->0 as int;
            let d = deleted(t, id as int);
            &&& d.len() == t.len()
            &&& !d[p].children.contains(id)
            &&& forall|x: usize| x != id && t[p].children.contains(x) ==> d[p].children.contains(x)
            &&& forall|x: usize| d[p].children.contains(x) ==> t[p].children.contains(x)
            &&& forall|i: int| 0 <= i < t.len() && i != p ==> d[i] == t[i]
        },
{
    if id > 0 {
        let p = t[id as int].parent->0 as int;
        let d = deleted(t, id as int);
        lemma_without_members(t[p].children, id);
        lemma_without_keeps(t[p].children, id);
        assert forall|x: usize| d[p].children.contains(x) implies t[p].children.contains(x) by {
            let j = choose|j: int| 0 <= j < d[p].children.len() && d[p].children[j] == x;
            assert(t[p].children.contains(d[p].children[j]));
        }
    }
}

proof fn lemma_without_keeps(ch: Seq<usize>, id: usize)
    ensures
        forall|x: usize| x != id && ch.contains(x) ==> without(ch, id).contains(x),
    decreases ch.len(),
{
    if ch.len() > 0 {
        lemma_without_keeps(ch.drop_last(), id);
        let w = without(ch, id);
        let w0 = without(ch.drop_last(), id);
        assert forall|x: usize| x != id && ch.contains(x) implies w.contains(x) by {
            let j = choose|j: int| 0 <= j < ch.len() && ch[j] == x;
            if j == ch.len() - 1 {
                assert(w[w.len() - 1] == x);
            } else {
                assert(ch.drop_last()[j] == x);
                assert(ch.drop_last().contains(x));
                let k = choose|k: int| 0 <= k < w0.len() && w0[k] == x;
                if ch.last() == id {
                    assert(w[k] == x);
                } else {
                    assert(w[k] == x);
                }
            }
        }
    }
}

/// Promoting a node that its parent lists puts it first among the
/// parent's children, keeps the same children (as a multiset), and changes
/// no other node.
pub proof fn promote_makes_it_the_mainline(t: Seq<NodeView>, id: usize)
    requires
        wf(t),
        0 < id < t.len(),
        t[t[id as int].parent->0 as int].children.contains(id),
    ensures
        ({
            let p = t[id as int].parent->0 as int;
            let r = promoted(t, id as int);
            &&& r.len() == t.len()
            &&& r[p].children[0] == id
            &&& r[p].children.to_multiset() == t[p].children.to_multiset()
            &&& forall|i: int| 0 <= i < t.len() && i != p ==> r[i] == t[i]
        }),
{
    broadcast use vstd::seq_lib::group_to_multiset_ensures, vstd::multiset::group_multiset_axioms;
    let p = t[id as int].parent->0 as int;
    let ch = t[p].children;
    lemma_first_pos(ch, id);
    let k = first_pos(ch, id)->0;
    let j = choose|j: int| 0 <= j < ch.len() && ch[j] == id;
    assert(ch[j] == id);
    let r = promoted(t, id as int);
    assert(seq![id] + ch.remove(k) =~= ch.remove(k).insert(0, id));
    assert(r[p].children.to_multiset() =~= ch.to_multiset());
}

/// The path to a node starts at the root, ends at the node, and each step
/// goes from a parent to one of its children.
pub proof fn path_runs_from_the_root(t: Seq<NodeView>, id: usize)
    requires
        wf(t),
        id < t.len(),
    ensures
        ({
            let path = path_to(t, id as int);
            &&& path.len() >= 1
            &&& path[0] == 0
            &&& path.last() == id
            &&& forall|j: int| 0 <= j < path.len() ==> #[trigger] path[j] < t.len()
            &&& forall|j: int| 0 < j < path.len() ==> t[path[j] as int].parent == Some(#[trigger] path[j - 1])
        }),
    decreases id,
{
    if id > 0 {
        let p = t[id as int].parent->0;
        path_runs_from_the_root(t, p);
        let path = path_to(t, id as int);
        let pp = path_to(t, p as int);
        assert(path == pp.push(id));
        assert forall|j: int| 0 <= j < path.len() implies #[trigger] path[j] < t.len() by {
            if j < path.len() - 1 {
                assert(path[j] == pp[j]);
            }
        }
        assert forall|j: int| 0 < j < path.len() implies t[path[j] as int].parent == Some(#[trigger] path[j - 1]) by {
            if j < path.len() - 1 {
                assert(path[j] == pp[j]);
                assert(path[j - 1] == pp[j - 1]);
            } else {
                assert(path[j] == id);
                assert(path[j - 1] == pp[pp.len() - 1]);
            }
        }
    }
}

} // verus!
