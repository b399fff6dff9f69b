//! Board geometry and what the board shows: which way it faces, where a
//! square is drawn, which moves a drag from one square to another means,
//! captured material, and the move list of a game.

use vstd::prelude::*;
use crate::player::{PlayerRole, Side};
use crate::position::{
    attacks_of, check_of, fen_white_to_move, legal_ucis_of, moves_via, piece_attacks, plain_san, start_fen, swapped_fen, uci_step,
    ChessMove, MoveView, Position,
};
use crate::text::{chars_of, digit_value, field, field_at};
use crate::tree::{DisplayNodeView, LineItem, LineItemView, item_view};

verus! {

#[derive(Debug, Clone, Copy, PartialEq, Eq, Structural)]
pub enum BoardPerspective {
    White,
    Black,
}

/// The side a participant sees the board from: Black for the black
/// player, White for everyone else.
pub open spec fn perspective_of(role: Option<PlayerRole>) -> BoardPerspective {
    match role {
        Some(PlayerRole::Player(Side::Black)) => BoardPerspective::Black,
        _ => BoardPerspective::White,
    }
}

impl From<Option<PlayerRole>> for BoardPerspective {
    fn from(role: Option<PlayerRole>) -> (p: BoardPerspective) {
        match role {
            Some(PlayerRole::Player(Side::Black)) => BoardPerspective::Black,
            _ => BoardPerspective::White,
        }
    }
}

impl vstd::std_specs::convert::FromSpecImpl<Option<PlayerRole>> for BoardPerspective {
    open spec fn obeys_from_spec() -> bool {
        true
    }

    open spec fn from_spec(role: Option<PlayerRole>) -> BoardPerspective {
        perspective_of(role)
    }
}

/// The (row, column) at which square `sq` (0 = a1 .. 63 = h8) is drawn,
/// counting from the top-left corner: White sees rank 8 on top and the
/// a-file on the left, Black sees both mirrored.
pub fn visual_row_col(sq: u8, perspective: BoardPerspective) -> (rc: (usize, usize))
    requires
        sq < 64,
    ensures
        rc == (match perspective {
            BoardPerspective::White => ((7 - sq / 8) as usize, (sq % 8) as usize),
            BoardPerspective::Black => ((sq / 8) as usize, (7 - sq % 8) as usize),
        }),
{
    let rank = (sq / 8) as usize;
    let file = (sq % 8) as usize;
    match perspective {
        BoardPerspective::White => (7 - rank, file),
        BoardPerspective::Black => (rank, 7 - file),
    }
}

/// The square (0 = a1 .. 63 = h8) named by the two characters of `u` at
/// `k`, when they are a file letter and a rank digit.
pub open spec fn uci_square(u: Seq<char>, k: int) -> Option<u8> {
    if 0 <= k && k + 2 <= u.len() && 'a' <= u[k] && u[k] <= 'h' && '1' <= u[k + 1] && u[k + 1] <= '8' {
        Some(((u[k + 1] as int - '1' as int) * 8 + (u[k] as int - 'a' as int)) as u8)
    } else {
        None
    }
}

fn square_at(u: &Vec<char>, k: usize) -> (r: Option<u8>)
    ensures
        r == uci_square(u@, k as int),
{
    if k <= u.len() && u.len() - k >= 2 {
        let f = u[k];
        let r = u[k + 1];
        if 'a' <= f && f <= 'h' && '1' <= r && r <= '8' {
            let sq = ((r as u32) - ('1' as u32)) * 8 + ((f as u32) - ('a' as u32));
            return Some(sq as u8);
        }
    }
    None
}

/// The square a player drops on to make `m`: its UCI destination, which
/// for castling (in standard notation) is the king's target square.
pub fn move_target(m: &ChessMove) -> (sq: Option<u8>)
    ensures
        sq == uci_square(m@.uci, 2),
{
    let u = chars_of(m.uci_str());
    square_at(&u, 2)
}

/// The square `m` starts from (its UCI origin).
pub fn move_origin(m: &ChessMove) -> (sq: Option<u8>)
    ensures
        sq == uci_square(m@.uci, 0),
{
    let u = chars_of(m.uci_str());
    square_at(&u, 0)
}

/// Whether `m` goes from `from` to the drop square `to`.
pub open spec fn goes_between(m: MoveView, from: u8, to: u8) -> bool {
    uci_square(m.uci, 0) == Some(from) && uci_square(m.uci, 2) == Some(to)
}

/// The moves of `legal` from `from` to `to`: at most one, except for a
/// promotion, which comes once per piece it can promote to.
pub fn matching_moves(legal: &[ChessMove], from: u8, to: u8) -> (r: Vec<ChessMove>)
    ensures
        r@.map_values(|m: ChessMove| m@) == legal@.map_values(|m: ChessMove| m@).filter(|m: MoveView| goes_between(m, from, to)),
{
    let ghost all = legal@.map_values(|m: ChessMove| m@);
    let mut out: Vec<ChessMove> = Vec::new();
    let mut i: usize = 0;
    assert(all.take(0) =~= Seq::<MoveView>::empty());
    while i < legal.len()
        invariant
            all == legal@.map_values(|m: ChessMove| m@),
            i <= legal@.len(),
            out@.map_values(|m: ChessMove| m@) == all.take(i as int).filter(|m: MoveView| goes_between(m, from, to)),
        decreases legal@.len() - i,
    {
        let m = &legal[i];
        let u = chars_of(m.uci_str());
        let hit = square_at(&u, 0) == Some(from) && square_at(&u, 2) == Some(to);
        let ghost before = out@.map_values(|m: ChessMove| m@);
        assert(all.take(i + 1).drop_last() =~= all.take(i as int));
        assert(all.take(i + 1).last() == m@);
        proof { reveal(Seq::filter); }
        if hit {
            out.push(m.clone());
            assert(out@.map_values(|m: ChessMove| m@) =~= before.push(m@));
        }
        i = i + 1;
    }
    assert(all.take(legal@.len() as int) =~= all);
    out
}

/// How many times `c` occurs in `s`.
pub open spec fn count_char(s: Seq<char>, c: char) -> nat
    decreases s.len(),
{
    if s.len() == 0 {
        0
    } else {
        count_char(s.drop_last(), c) + (if s.last() == c { 1nat } else { 0nat })
    }
}

fn count_in(s: &Vec<char>, c: char) -> (n: u64)
    ensures
        n == count_char(s@, c),
{
    let mut n: u64 = 0;
    let mut i: usize = 0;
    assert(s@.take(0) =~= Seq::<char>::empty());
    while i < s.len()
        invariant
            i <= s@.len(),
            n == count_char(s@.take(i as int), c),
            n <= i,
        decreases s@.len() - i,
    {
        assert(s@.take(i + 1).drop_last() =~= s@.take(i as int));
        if s[i] == c {
            n = n + 1;
        }
        i = i + 1;
    }
    assert(s@.take(s@.len() as int) =~= s@);
    n
}

/// How many of a side's starting `base` pieces of kind `c` (its FEN letter)
/// are missing from the placement `p`, never below zero.
pub open spec fn missing(p: Seq<char>, c: char, base: int) -> int {
    if count_char(p, c) >= base { 0 } else { base - count_char(p, c) }
}

/// The material value (pawn 1, knight and bishop 3, rook 5, queen 9) a
/// side has lost, judged against its starting set; `white` picks the
/// upper-case letters.
pub open spec fn material_lost(p: Seq<char>, white: bool) -> int {
    if white {
        missing(p, 'P', 8) + 3 * missing(p, 'N', 2) + 3 * missing(p, 'B', 2) + 5 * missing(p, 'R', 2) + 9 * missing(p, 'Q', 1)
    } else {
        missing(p, 'p', 8) + 3 * missing(p, 'n', 2) + 3 * missing(p, 'b', 2) + 5 * missing(p, 'r', 2) + 9 * missing(p, 'q', 1)
    }
}

/// The captured-material lead of `side` in `fen`: what the other side has
/// lost minus what `side` has lost, read from the FEN's piece placement.
pub open spec fn advantage(fen: Seq<char>, side: Side) -> int {
    let p = field(fen, ' ', 0);
    let white = side == Side::White;
    material_lost(p, !white) - material_lost(p, white)
}

/// How many times `c` occurs in `a + b`.
proof fn lemma_count_concat(a: Seq<char>, b: Seq<char>, c: char)
    ensures
        count_char(a + b, c) == count_char(a, c) + count_char(b, c),
    decreases b.len(),
{
    if b.len() == 0 {
        assert(a + b =~= a);
    } else {
        lemma_count_concat(a, b.drop_last(), c);
        assert((a + b).drop_last() =~= a + b.drop_last());
    }
}

/// Counting in one rank of the starting placement, for any letter.
proof fn lemma_count_rank(r: Seq<char>, ch: char)
    requires
        r.len() == 8,
    ensures
        count_char(r, ch) == (if r[0] == ch { 1int } else { 0int }) + (if r[1] == ch { 1int } else { 0int }) + (if r[2]
            == ch { 1int } else { 0int }) + (if r[3] == ch { 1int } else { 0int }) + (if r[4] == ch { 1int } else { 0int })
            + (if r[5] == ch { 1int } else { 0int }) + (if r[6] == ch { 1int } else { 0int }) + (if r[7] == ch { 1int } else { 0int }),
{
    reveal_with_fuel(count_char, 9);
    assert(r.drop_last().drop_last().drop_last().drop_last().drop_last().drop_last().drop_last().drop_last().len() == 0);
}

/// In the starting placement each side has its full set: eight pawns, two
/// knights, bishops and rooks, and a queen.
proof fn lemma_start_counts()
    ensures
        material_lost("rnbqkbnr/pppppppp/8/8/8/8/PPPPPPPP/RNBQKBNR"@, true) == 0,
        material_lost("rnbqkbnr/pppppppp/8/8/8/8/PPPPPPPP/RNBQKBNR"@, false) == 0,
{
    reveal_strlit("rnbqkbnr/pppppppp/8/8/8/8/PPPPPPPP/RNBQKBNR");
    let p = "rnbqkbnr/pppppppp/8/8/8/8/PPPPPPPP/RNBQKBNR"@;
    let back = seq!['r', 'n', 'b', 'q', 'k', 'b', 'n', 'r'];
    let pawns = seq!['p', 'p', 'p', 'p', 'p', 'p', 'p', 'p'];
    let middle = seq!['/', '8', '/', '8', '/', '8', '/', '8'];
    let up_pawns = seq!['P', 'P', 'P', 'P', 'P', 'P', 'P', 'P'];
    let up_back = seq!['R', 'N', 'B', 'Q', 'K', 'B', 'N', 'R'];
    let sep = seq!['/'];
    assert(p =~= back + sep + pawns + middle + sep + up_pawns + sep + up_back);
    assert forall|ch: char| 'A' <= ch <= 'z' implies #[trigger] count_char(p, ch) == (if ch == 'P' || ch == 'p' {
        8int
    } else if ch == 'Q' || ch == 'q' || ch == 'K' || ch == 'k' {
        1int
    } else if ch == 'N' || ch == 'n' || ch == 'B' || ch == 'b' || ch == 'R' || ch == 'r' {
        2int
    } else {
        0int
    }) by {
        lemma_count_rank(back, ch);
        lemma_count_rank(pawns, ch);
        lemma_count_rank(middle, ch);
        lemma_count_rank(up_pawns, ch);
        lemma_count_rank(up_back, ch);
        assert(count_char(sep, ch) == 0) by {
            reveal_with_fuel(count_char, 2);
            assert(sep.drop_last().len() == 0);
            assert(sep.last() == '/');
        }
        lemma_count_concat(back, sep, ch);
        lemma_count_concat(back + sep, pawns, ch);
        lemma_count_concat(back + sep + pawns, middle, ch);
        lemma_count_concat(back + sep + pawns + middle, sep, ch);
        lemma_count_concat(back + sep + pawns + middle + sep, up_pawns, ch);
        lemma_count_concat(back + sep + pawns + middle + sep + up_pawns, sep, ch);
        lemma_count_concat(back + sep + pawns + middle + sep + up_pawns + sep, up_back, ch);
    }
    assert(count_char(p, 'P') == 8);
    assert(count_char(p, 'N') == 2);
    assert(count_char(p, 'B') == 2);
    assert(count_char(p, 'R') == 2);
    assert(count_char(p, 'Q') == 1);
    assert(count_char(p, 'p') == 8);
    assert(count_char(p, 'n') == 2);
    assert(count_char(p, 'b') == 2);
    assert(count_char(p, 'r') == 2);
    assert(count_char(p, 'q') == 1);
}

/// The points a piece is worth, by FEN letter of either colour: pawn 1,
/// knight and bishop 3, rook 5, queen 9; 0 for anything else.
pub open spec fn piece_points(x: char) -> int {
    if x == 'P' || x == 'p' {
        1
    } else if x == 'N' || x == 'n' || x == 'B' || x == 'b' {
        3
    } else if x == 'R' || x == 'r' {
        5
    } else if x == 'Q' || x == 'q' {
        9
    } else {
        0
    }
}

/// How many of a kind of piece a side starts with.
pub open spec fn starting_count(x: char) -> int {
    if x == 'P' || x == 'p' {
        8
    } else if x == 'Q' || x == 'q' {
        1
    } else {
        2
    }
}

proof fn lemma_count_without(a: Seq<char>, x: char, b: Seq<char>, c: char)
    ensures
        count_char(a + seq![x] + b, c) == count_char(a + b, c) + (if x == c { 1int } else { 0int }),
{
    lemma_count_concat(a, seq![x], c);
    lemma_count_concat(a + seq![x], b, c);
    lemma_count_concat(a, b, c);
    assert(count_char(seq![x], c) == (if x == c { 1int } else { 0int })) by {
        reveal_with_fuel(count_char, 2);
        assert(seq![x].drop_last().len() == 0);
    }
}

/// Taking one piece off the board (one that its side still had no more of
/// than it starts with) raises the other side's captured-material lead by
/// the piece's points and lowers its own side's lead by as much.
pub proof fn losing_a_piece_costs_its_points(fen1: Seq<char>, fen2: Seq<char>, a: Seq<char>, x: char, b: Seq<char>)
    requires
        field(fen1, ' ', 0) == a + seq![x] + b,
        field(fen2, ' ', 0) == a + b,
        piece_points(x) > 0,
        count_char(a + b, x) < starting_count(x),
    ensures
        'a' <= x <= 'z' ==> advantage(fen2, Side::White) == advantage(fen1, Side::White) + piece_points(x)
            && advantage(fen2, Side::Black) == advantage(fen1, Side::Black) - piece_points(x),
        'A' <= x <= 'Z' ==> advantage(fen2, Side::Black) == advantage(fen1, Side::Black) + piece_points(x)
            && advantage(fen2, Side::White) == advantage(fen1, Side::White) - piece_points(x),
{
    losing_a_piece_or_a_surplus_one(fen1, fen2, a, x, b);
}

/// Taking a piece off the board changes the leads by its points when its
/// side had no more of that kind than it starts with, and not at all when it
/// still has a full set without it (a surplus piece, as from a promotion, is
/// not counted).
pub proof fn losing_a_piece_or_a_surplus_one(fen1: Seq<char>, fen2: Seq<char>, a: Seq<char>, x: char, b: Seq<char>)
    requires
        field(fen1, ' ', 0) == a + seq![x] + b,
        field(fen2, ' ', 0) == a + b,
        piece_points(x) > 0,
    ensures
        count_char(a + b, x) < starting_count(x) && 'a' <= x <= 'z' ==> advantage(fen2, Side::White) == advantage(
            fen1,
            Side::White,
        ) + piece_points(x) && advantage(fen2, Side::Black) == advantage(fen1, Side::Black) - piece_points(x),
        count_char(a + b, x) < starting_count(x) && 'A' <= x <= 'Z' ==> advantage(fen2, Side::Black) == advantage(
            fen1,
            Side::Black,
        ) + piece_points(x) && advantage(fen2, Side::White) == advantage(fen1, Side::White) - piece_points(x),
        count_char(a + b, x) >= starting_count(x) ==> advantage(fen2, Side::White) == advantage(fen1, Side::White)
            && advantage(fen2, Side::Black) == advantage(fen1, Side::Black),
{
    lemma_count_without(a, x, b, 'P');
    lemma_count_without(a, x, b, 'N');
    lemma_count_without(a, x, b, 'B');
    lemma_count_without(a, x, b, 'R');
    lemma_count_without(a, x, b, 'Q');
    lemma_count_without(a, x, b, 'p');
    lemma_count_without(a, x, b, 'n');
    lemma_count_without(a, x, b, 'b');
    lemma_count_without(a, x, b, 'r');
    lemma_count_without(a, x, b, 'q');
}

/// One side's captured-material lead is the other side's lead negated, in
/// every position, and in the standard starting position neither side
/// leads. (`material_advantage` returns `advantage`.)
pub proof fn material_lead_is_antisymmetric(fen: Seq<char>)
    ensures
        advantage(fen, Side::White) == -advantage(fen, Side::Black),
        advantage(start_fen(), Side::White) == 0,
        advantage(start_fen(), Side::Black) == 0,
{
    crate::position::start_fen_white_to_move();
    lemma_start_counts();
}

fn missing_in(p: &Vec<char>, c: char, base: u64) -> (m: i32)
    requires
        base <= 8,
    ensures
        m == missing(p@, c, base as int),
        0 <= m <= base,
{
    let n = count_in(p, c);
    if n >= base { 0 } else { (base - n) as i32 }
}

fn lost_in(p: &Vec<char>, white: bool) -> (v: i32)
    ensures
        v == material_lost(p@, white),
        0 <= v <= 39,
{
    if white {
        missing_in(p, 'P', 8) + 3 * missing_in(p, 'N', 2) + 3 * missing_in(p, 'B', 2) + 5 * missing_in(p, 'R', 2)
            + 9 * missing_in(p, 'Q', 1)
    } else {
        missing_in(p, 'p', 8) + 3 * missing_in(p, 'n', 2) + 3 * missing_in(p, 'b', 2) + 5 * missing_in(p, 'r', 2)
            + 9 * missing_in(p, 'q', 1)
    }
}

/// Captured-material advantage for `side`: positive when `side` has
/// captured more material value than its opponent.
pub fn material_advantage(pos: &Position, side: Side) -> (a: i32)
    ensures
        a == advantage(pos@, side),
{
    let chars = chars_of(pos.fen_str());
    let p = field_at(&chars, ' ', 0);
    let white = side == Side::White;
    lost_in(&p, !white) - lost_in(&p, white)
}

/// `count` pieces of kind `role`, the first marked as opening its group.
pub open spec fn captured_run(role: char, count: int) -> Seq<(char, bool)> {
    Seq::new(if count < 0 { 0nat } else { count as nat }, |j: int| (role, j == 0))
}

/// The pieces `side` has lost in `fen`, as the strip under its clock shows
/// them: pawns, knights, bishops, rooks, then queens, each by its
/// upper-case letter, the first of each kind marked.
pub open spec fn captured_list(fen: Seq<char>, side: Side) -> Seq<(char, bool)> {
    let p = field(fen, ' ', 0);
    let w = side == Side::White;
    captured_run('P', missing(p, if w { 'P' } else { 'p' }, 8))
        + captured_run('N', missing(p, if w { 'N' } else { 'n' }, 2))
        + captured_run('B', missing(p, if w { 'B' } else { 'b' }, 2))
        + captured_run('R', missing(p, if w { 'R' } else { 'r' }, 2))
        + captured_run('Q', missing(p, if w { 'Q' } else { 'q' }, 1))
}

fn push_run(out: &mut Vec<(char, bool)>, role: char, count: i32)
    requires
        0 <= count <= 8,
    ensures
        final(out)@ == old(out)@ + captured_run(role, count as int),
{
    let mut j: i32 = 0;
    let ghost start = out@;
    while j < count
        invariant
            0 <= j <= count <= 8,
            out@ == start + captured_run(role, j as int),
        decreases count - j,
    {
        out.push((role, j == 0));
        j = j + 1;
        assert(out@ =~= start + captured_run(role, j as int));
    }
}

/// The pieces `side` has lost, in the order the strip shows them.
pub fn captured_pieces(pos: &Position, side: Side) -> (r: Vec<(char, bool)>)
    ensures
        r@ == captured_list(pos@, side),
{
    let chars = chars_of(pos.fen_str());
    let p = field_at(&chars, ' ', 0);
    let w = side == Side::White;
    let mut out: Vec<(char, bool)> = Vec::new();
    push_run(&mut out, 'P', missing_in(&p, if w { 'P' } else { 'p' }, 8));
    push_run(&mut out, 'N', missing_in(&p, if w { 'N' } else { 'n' }, 2));
    push_run(&mut out, 'B', missing_in(&p, if w { 'B' } else { 'b' }, 2));
    push_run(&mut out, 'R', missing_in(&p, if w { 'R' } else { 'r' }, 2));
    push_run(&mut out, 'Q', missing_in(&p, if w { 'Q' } else { 'q' }, 1));
    assert(out@ =~= captured_list(pos@, side));
    out
}

/// The class of the `i`-th captured piece: the first sits flush, the first
/// of each later kind a little apart, and the rest overlap the one before.
pub fn captured_piece_class(i: usize, first_of_kind: bool) -> (s: &'static str)
    ensures
        s@ == (if i == 0 {
            "w-4 h-4"@
        } else if first_of_kind {
            "w-4 h-4 ml-0.5"@
        } else {
            "w-4 h-4 -ml-3"@
        }),
{
    if i == 0 {
        "w-4 h-4"
    } else if first_of_kind {
        "w-4 h-4 ml-0.5"
    } else {
        "w-4 h-4 -ml-3"
    }
}

/// Whether pressing a square starts moving its piece: only a primary-button
/// press on a piece the player may move, and not when it completes a
/// capture by the piece already selected (the square being one of its
/// targets).
pub fn press_starts_drag(button: i16, selected: Option<u8>, targets: &[u8], sq: u8, has_piece: bool, can_drag: bool) -> (b: bool)
    ensures
        b == (button == 0 && !(selected is Some && targets@.contains(sq)) && has_piece && can_drag),
{
    if button != 0 {
        return false;
    }
    if selected.is_some() {
        let mut i: usize = 0;
        while i < targets.len()
            invariant
                i <= targets@.len(),
                button == 0,
                selected is Some,
                forall|j: int| 0 <= j < i ==> targets@[j] != sq,
            decreases targets@.len() - i,
        {
            if targets[i] == sq {
                assert(targets@[i as int] == sq);
                return false;
            }
            i = i + 1;
        }
    }
    has_piece && can_drag
}

/// Whether the UCI move `m` promotes to the piece with lower-case letter
/// `role` (`q`, `r`, `b` or `n`).
pub open spec fn promotes_to(m: MoveView, role: char) -> bool {
    m.uci.len() == 5 && m.uci[4] == role
}

/// The index of the first move of `legal` from `from` to `to` that
/// promotes to `role`.
pub open spec fn first_promotion(legal: Seq<MoveView>, from: u8, to: u8, role: char, k: int) -> Option<int>
    decreases legal.len() - k,
{
    if 0 <= k < legal.len() {
        if goes_between(legal[k], from, to) && promotes_to(legal[k], role) {
            Some(k)
        } else {
            first_promotion(legal, from, to, role, k + 1)
        }
    } else {
        None
    }
}

/// The move a promotion choice makes: the legal move from `from` to `to`
/// promoting to `role` (`q`, `r`, `b` or `n`), if there is one.
pub fn promotion_move(legal: &[ChessMove], from: u8, to: u8, role: char) -> (r: Option<ChessMove>)
    ensures
        match first_promotion(legal@.map_values(|m: ChessMove| m@), from, to, role, 0) {
            Some(i) => r matches Some(m) && m@ == legal@[i]@,
            None => r is None,
        },
{
    let ghost all = legal@.map_values(|m: ChessMove| m@);
    let mut i: usize = 0;
    while i < legal.len()
        invariant
            all == legal@.map_values(|m: ChessMove| m@),
            i <= legal@.len(),
            first_promotion(all, from, to, role, 0) == first_promotion(all, from, to, role, i as int),
        decreases legal@.len() - i,
    {
        let m = &legal[i];
        let u = chars_of(m.uci_str());
        assert(all[i as int] == m@);
        if square_at(&u, 0) == Some(from) && square_at(&u, 2) == Some(to) && u.len() == 5 && u[4] == role {
            return Some(m.clone());
        }
        i = i + 1;
    }
    None
}

/// The pieces a pawn can promote to, in the order the picker offers them:
/// queen, knight, rook, bishop, each as (UCI letter, image letter).
pub fn promotion_roles() -> (r: Vec<(char, char)>)
    ensures
        r@ == seq![('q', 'Q'), ('n', 'N'), ('r', 'R'), ('b', 'B')],
{
    let mut r: Vec<(char, char)> = Vec::new();
    r.push(('q', 'Q'));
    r.push(('n', 'N'));
    r.push(('r', 'R'));
    r.push(('b', 'B'));
    assert(r@ =~= seq![('q', 'Q'), ('n', 'N'), ('r', 'R'), ('b', 'B')]);
    r
}

/// The SANs of a game's UCI moves `ms[k..]` replayed from `fen`: a move
/// that does not parse or is illegal is shown as its raw text and the
/// position stays.
pub open spec fn history_sans(fen: Seq<char>, ms: Seq<Seq<char>>, k: int) -> Seq<Seq<char>>
    decreases ms.len() - k,
{
    if 0 <= k < ms.len() {
        match plain_san(fen, ms[k]) {
            None => seq![ms[k]] + history_sans(fen, ms, k + 1),
            Some(san) => seq![san] + match uci_step(fen, ms[k]) {
                Some((_u, _s, after)) => history_sans(after, ms, k + 1),
                None => history_sans(fen, ms, k + 1),
            },
        }
    } else {
        Seq::empty()
    }
}

/// Replays a game's UCI history from the start position as SAN (without
/// check marks), each rendered in the position before it.
pub fn uci_history_to_san(uci_moves: &[String]) -> (out: Vec<String>)
    ensures
        out@.map_values(|s: String| s@) == history_sans(start_fen(), uci_moves@.map_values(|s: String| s@), 0),
{
    let ghost ms = uci_moves@.map_values(|s: String| s@);
    let mut pos = Position::start();
    let mut out: Vec<String> = Vec::new();
    let mut i: usize = 0;
    while i < uci_moves.len()
        invariant
            ms == uci_moves@.map_values(|s: String| s@),
            i <= ms.len(),
            history_sans(start_fen(), ms, 0) == out@.map_values(|s: String| s@) + history_sans(pos@, ms, i as int),
        decreases ms.len() - i,
    {
        let u = uci_moves[i].as_str();
        assert(u@ == ms[i as int]);
        let ghost before = out@.map_values(|s: String| s@);
        let ghost here = pos@;
        match pos.plain_san(u) {
            None => {
                out.push(uci_moves[i].clone());
            },
            Some(san) => {
                out.push(san);
                match pos.uci_move(u) {
                    Some(m) => {
                        pos = Position::after(&m);
                    },
                    None => {},
                }
            },
        }
        assert(out@.map_values(|s: String| s@) =~= before.push(out@[out@.len() - 1]@));
        i = i + 1;
        assert(before + history_sans(here, ms, i - 1) =~= out@.map_values(|s: String| s@) + history_sans(pos@, ms, i as int));
    }
    assert(out@.map_values(|s: String| s@) + history_sans(pos@, ms, i as int) =~= out@.map_values(|s: String| s@));
    out
}

/// One row of the rendered move list: moves `start..end` of the run
/// `items[item]` (one move, or a white move and the black reply), or the
/// variation `items[item]` as a nested block.
#[derive(Debug, Clone, Copy, PartialEq, Eq, Structural)]
pub enum Row {
    Pair { item: usize, start: usize, end: usize },
    Nested { item: usize },
}

/// Rows for the run `nodes` (item `item`) from move `i`: a white move
/// followed by a black one share a row, any other move stands alone.
pub open spec fn pair_rows(nodes: Seq<DisplayNodeView>, item: int, i: int) -> Seq<Row>
    decreases nodes.len() - i,
{
    if 0 <= i < nodes.len() {
        let end = if nodes[i].is_white && i + 1 < nodes.len() && !nodes[i + 1].is_white { i + 2 } else { i + 1 };
        seq![Row::Pair { item: item as usize, start: i as usize, end: end as usize }] + pair_rows(nodes, item, end)
    } else {
        Seq::empty()
    }
}

/// The rows for `items[k..]`.
pub open spec fn rows_from(items: Seq<LineItemView>, k: int) -> Seq<Row>
    decreases items.len() - k,
{
    if 0 <= k < items.len() {
        (match items[k] {
            LineItemView::Moves(ns) => pair_rows(ns, k, 0),
            LineItemView::Variation(_) => seq![Row::Nested { item: k as usize }],
        }) + rows_from(items, k + 1)
    } else {
        Seq::empty()
    }
}

/// Groups a line's items into move-list rows: move pairs, and each
/// variation as a nested block where it branches off.
pub fn rows_for(items: &[LineItem]) -> (rows: Vec<Row>)
    ensures
        rows@ == rows_from(items@.map_values(|i: LineItem| item_view(i)), 0),
{
    let ghost iv = items@.map_values(|i: LineItem| item_view(i));
    let mut rows: Vec<Row> = Vec::new();
    let mut k: usize = 0;
    while k < items.len()
        invariant
            iv == items@.map_values(|i: LineItem| item_view(i)),
            k <= items@.len(),
            rows_from(iv, 0) == rows@ + rows_from(iv, k as int),
        decreases items@.len() - k,
    {
        assert(iv[k as int] == item_view(items@[k as int]));
        let ghost before = rows@;
        match &items[k] {
            LineItem::Moves(nodes) => {
                let ghost nv = nodes@.map_values(|n: crate::tree::DisplayNode| n@);
                let n = nodes.len();
                let mut i: usize = 0;
                while i < n
                    invariant
                        n == nodes@.len(),
                        nv == nodes@.map_values(|n: crate::tree::DisplayNode| n@),
                        i <= n,
                        pair_rows(nv, k as int, 0) == rows@.subrange(before.len() as int, rows@.len() as int)
                            + pair_rows(nv, k as int, i as int),
                        before == rows@.subrange(0, before.len() as int),
                        rows@.len() >= before.len(),
                    decreases n - i,
                {
                    let end = if nodes[i].is_white && i + 1 < n && !nodes[i + 1].is_white { i + 2 } else { i + 1 };
                    assert(nv[i as int].is_white == nodes@[i as int].is_white);
                    assert(i + 1 < n ==> nv[i + 1].is_white == nodes@[i + 1].is_white);
                    let ghost mid = rows@;
                    rows.push(Row::Pair { item: k, start: i, end });
                    assert(rows@.subrange(before.len() as int, rows@.len() as int)
                        =~= mid.subrange(before.len() as int, mid.len() as int).push(Row::Pair { item: k, start: i, end }));
                    assert(rows@.subrange(0, before.len() as int) =~= mid.subrange(0, before.len() as int));
                    i = end;
                }
                assert(rows@ =~= before + rows@.subrange(before.len() as int, rows@.len() as int));
            },
            LineItem::Variation(_) => {
                rows.push(Row::Nested { item: k });
            },
        }
        k = k + 1;
    }
    assert(rows@ + rows_from(iv, k as int) =~= rows@);
    rows
}

/// The moves `start..end` a row covers (nothing for a nested block).
pub open spec fn row_span(r: Row) -> (int, int) {
    match r {
        Row::Pair { start, end, .. } => (start as int, end as int),
        Row::Nested { .. } => (0, 0),
    }
}

pub open spec fn is_pair_of(r: Row, item: int) -> bool {
    r matches Row::Pair { item: it, .. } && it == item
}

/// Every row of a run holds one move, or two: a white move and the black
/// reply; the rows cover the run from its first move to its last, in
/// order and without gaps.
pub proof fn pair_rows_hold_one_or_two_moves(nodes: Seq<DisplayNodeView>, item: int, i: int)
    requires
        0 <= i <= nodes.len(),
        0 <= item <= usize::MAX,
        nodes.len() <= usize::MAX,
    ensures
        ({
            let rows = pair_rows(nodes, item, i);
            &&& forall|j: int| 0 <= j < rows.len() ==> {
                let (s, e) = row_span(#[trigger] rows[j]);
                &&& is_pair_of(rows[j], item)
                &&& (e == s + 1 || (e == s + 2 && nodes[s].is_white && !nodes[s + 1].is_white))
                &&& i <= s < e <= nodes.len()
            }
            &&& rows.len() == 0 <==> i == nodes.len()
            &&& rows.len() > 0 ==> row_span(rows[0]).0 == i && row_span(rows.last()).1 == nodes.len()
            &&& forall|j: int| 0 < j < rows.len() ==> row_span(rows[j - 1]).1 == row_span(#[trigger] rows[j]).0
        }),
    decreases nodes.len() - i,
{
    if i < nodes.len() {
        let end = if nodes[i].is_white && i + 1 < nodes.len() && !nodes[i + 1].is_white { i + 2 } else { i + 1 };
        pair_rows_hold_one_or_two_moves(nodes, item, end);
        let rest = pair_rows(nodes, item, end);
        let all = pair_rows(nodes, item, i);
        assert(all == seq![Row::Pair { item: item as usize, start: i as usize, end: end as usize }] + rest);
        assert forall|j: int| 0 < j < all.len() implies row_span(all[j - 1]).1 == row_span(#[trigger] all[j]).0 by {
            if j == 1 {
                assert(all[1] == rest[0]);
            } else {
                assert(all[j] == rest[j - 1]);
                assert(all[j - 1] == rest[j - 2]);
            }
        }
        assert forall|j: int| 0 <= j < all.len() implies {
            let (s, e) = row_span(#[trigger] all[j]);
            &&& is_pair_of(all[j], item)
            &&& (e == s + 1 || (e == s + 2 && nodes[s].is_white && !nodes[s + 1].is_white))
            &&& i <= s < e <= nodes.len()
        } by {
            if j > 0 {
                assert(all[j] == rest[j - 1]);
            }
        }
        if rest.len() > 0 {
            assert(all.last() == rest.last());
        }
    }
}

/// The squares in the order the board draws them, top-left first: for
/// White rank 8 down to rank 1, each from the a-file; for Black rank 1 up
/// to rank 8, each from the h-file.
pub open spec fn drawn_square(perspective: BoardPerspective, i: int) -> int {
    match perspective {
        BoardPerspective::White => (7 - i / 8) * 8 + i % 8,
        BoardPerspective::Black => (i / 8) * 8 + (7 - i % 8),
    }
}

pub fn board_squares(perspective: BoardPerspective) -> (r: Vec<u8>)
    ensures
        r@.len() == 64,
        forall|i: int| 0 <= i < 64 ==> #[trigger] r@[i] == drawn_square(perspective, i),
{
    let mut r: Vec<u8> = Vec::new();
    let mut i: u8 = 0;
    while i < 64
        invariant
            i <= 64,
            r@.len() == i,
            forall|j: int| 0 <= j < i ==> #[trigger] r@[j] == drawn_square(perspective, j),
        decreases 64 - i,
    {
        let sq = match perspective {
            BoardPerspective::White => (7 - i / 8) * 8 + i % 8,
            BoardPerspective::Black => (i / 8) * 8 + (7 - i % 8),
        };
        r.push(sq);
        i = i + 1;
    }
    r
}

/// The user's arrows after a right-button drag from `from` ending on `to`:
/// ending on another square toggles that arrow, anything else clears them
/// all.
pub open spec fn toggled_arrows(arrows: Seq<(u8, u8)>, from: u8, to: Option<u8>) -> Seq<(u8, u8)> {
    match to {
        Some(t) => if t != from {
            match first_arrow(arrows, (from, t), 0) {
                Some(k) => arrows.remove(k),
                None => arrows.push((from, t)),
            }
        } else {
            Seq::empty()
        },
        None => Seq::empty(),
    }
}

/// The first index from `k` of the arrow `a`.
pub open spec fn first_arrow(arrows: Seq<(u8, u8)>, a: (u8, u8), k: int) -> Option<int>
    decreases arrows.len() - k,
{
    if 0 <= k < arrows.len() {
        if arrows[k] == a { Some(k) } else { first_arrow(arrows, a, k + 1) }
    } else {
        None
    }
}

proof fn lemma_first_arrow(arrows: Seq<(u8, u8)>, a: (u8, u8), k: int)
    requires
        0 <= k,
    ensures
        first_arrow(arrows, a, k) is None <==> (forall|j: int| k <= j < arrows.len() ==> arrows[j] != a),
        first_arrow(arrows, a, k) matches Some(x) ==> k <= x < arrows.len() && arrows[x] == a,
    decreases arrows.len() - k,
{
    if k < arrows.len() {
        lemma_first_arrow(arrows, a, k + 1);
    }
}

proof fn lemma_first_arrow_push(arrows: Seq<(u8, u8)>, a: (u8, u8), k: int)
    requires
        0 <= k <= arrows.len(),
        forall|j: int| k <= j < arrows.len() ==> arrows[j] != a,
    ensures
        first_arrow(arrows.push(a), a, k) == Some(arrows.len() as int),
    decreases arrows.len() - k,
{
    if k < arrows.len() {
        assert(arrows.push(a)[k] == arrows[k]);
        lemma_first_arrow_push(arrows, a, k + 1);
    } else {
        assert(arrows.push(a)[k] == a);
    }
}

/// Drawing an arrow that is not drawn, then drawing it again, leaves the
/// arrows as they were.
pub proof fn drawing_an_arrow_twice_undoes_it(arrows: Seq<(u8, u8)>, from: u8, to: u8)
    requires
        to != from,
        !arrows.contains((from, to)),
    ensures
        toggled_arrows(toggled_arrows(arrows, from, Some(to)), from, Some(to)) == arrows,
{
    lemma_first_arrow(arrows, (from, to), 0);
    assert forall|j: int| 0 <= j < arrows.len() implies arrows[j] != (from, to) by {
        if arrows[j] == (from, to) {
            assert(arrows.contains((from, to)));
        }
    }
    lemma_first_arrow_push(arrows, (from, to), 0);
    assert(arrows.push((from, to)).remove(arrows.len() as int) =~= arrows);
}

/// No arrow is drawn twice: toggling keeps the arrows distinct.
pub proof fn toggling_keeps_arrows_distinct(arrows: Seq<(u8, u8)>, from: u8, to: Option<u8>)
    requires
        arrows.no_duplicates(),
    ensures
        toggled_arrows(arrows, from, to).no_duplicates(),
{
    match to {
        Some(t) => if t != from {
            lemma_first_arrow(arrows, (from, t), 0);
            match first_arrow(arrows, (from, t), 0) {
                Some(k) => {
                    let r = arrows.remove(k);
                    assert forall|i: int, j: int| 0 <= i < r.len() && 0 <= j < r.len() && i != j implies r[i] != r[j] by {
                        let ii = if i < k { i } else { i + 1 };
                        let jj = if j < k { j } else { j + 1 };
                        assert(r[i] == arrows[ii]);
                        assert(r[j] == arrows[jj]);
                    }
                },
                None => {
                    let r = arrows.push((from, t));
                    assert forall|i: int, j: int| 0 <= i < r.len() && 0 <= j < r.len() && i != j implies r[i] != r[j] by {
                        if i < arrows.len() && j < arrows.len() {
                            assert(r[i] == arrows[i] && r[j] == arrows[j]);
                        } else if i < arrows.len() {
                            assert(r[i] == arrows[i]);
                        } else if j < arrows.len() {
                            assert(r[j] == arrows[j]);
                        }
                    }
                },
            }
        } else {
            assert(Seq::<(u8, u8)>::empty().no_duplicates());
        },
        None => {
            assert(Seq::<(u8, u8)>::empty().no_duplicates());
        },
    }
}

pub fn toggle_arrow(arrows: &mut Vec<(u8, u8)>, from: u8, to: Option<u8>)
    ensures
        final(arrows)@ == toggled_arrows(old(arrows)@, from, to),
{
    match to {
        Some(t) => {
            if t != from {
                let mut i: usize = 0;
                while i < arrows.len()
                    invariant
                        i <= arrows@.len(),
                        arrows@ == old(arrows)@,
                        to == Some(t),
                        t != from,
                        first_arrow(arrows@, (from, t), 0) == first_arrow(arrows@, (from, t), i as int),
                    decreases arrows@.len() - i,
                {
                    let (a, b) = arrows[i];
                    if a == from && b == t {
                        assert(arrows@[i as int] == (from, t));
                        assert(first_arrow(arrows@, (from, t), i as int) == Some(i as int));
                        arrows.remove(i);
                        return;
                    }
                    i = i + 1;
                }
                arrows.push((from, t));
            } else {
                arrows.clear();
            }
        },
        None => {
            arrows.clear();
        },
    }
}

/// The pieces (FEN letters) on each square, 0 = a1, read from a FEN piece
/// placement scanned from index `i` at `rank`/`file`.
pub open spec fn board_from(p: Seq<char>, i: int, rank: int, file: int, b: Seq<Option<char>>) -> Seq<Option<char>>
    decreases p.len() - i,
{
    if 0 <= i < p.len() {
        let c = p[i];
        if c == '/' {
            board_from(p, i + 1, rank - 1, 0, b)
        } else if '1' <= c && c <= '8' {
            board_from(p, i + 1, rank, file + digit_value(c), b)
        } else {
            board_from(
                p,
                i + 1,
                rank,
                file + 1,
                if 0 <= rank < 8 && 0 <= file < 8 { b.update(rank * 8 + file, Some(c)) } else { b },
            )
        }
    } else {
        b
    }
}

/// The pieces of a position, from its FEN.
pub open spec fn board_of(fen: Seq<char>) -> Seq<Option<char>> {
    board_from(field(fen, ' ', 0), 0, 7, 0, Seq::new(64, |i: int| None))
}

/// The pieces of the position on each square (0 = a1).
pub fn pieces(pos: &Position) -> (b: Vec<Option<char>>)
    ensures
        b@ == board_of(pos@),
        b@.len() == 64,
{
    let chars = chars_of(pos.fen_str());
    let p = field_at(&chars, ' ', 0);
    let mut b: Vec<Option<char>> = Vec::new();
    let mut k: usize = 0;
    while k < 64
        invariant
            k <= 64,
            b@.len() == k,
            forall|j: int| 0 <= j < k ==> b@[j] is None,
        decreases 64 - k,
    {
        b.push(None);
        k = k + 1;
    }
    assert(b@ =~= Seq::new(64, |i: int| None::<char>));
    let mut i: usize = 0;
    let mut rank: i128 = 7;
    let mut file: i128 = 0;
    while i < p.len()
        invariant
            i <= p@.len(),
            b@.len() == 64,
            -(i as int) <= rank <= 7,
            0 <= file <= 8 * i,
            board_of(pos@) == board_from(p@, i as int, rank as int, file as int, b@),
            p@ == field(pos@, ' ', 0),
        decreases p@.len() - i,
    {
        let c = p[i];
        if c == '/' {
            rank = rank - 1;
            file = 0;
        } else if '1' <= c && c <= '8' {
            file = file + ((c as u32) - 48) as i128;
        } else {
            if 0 <= rank && rank < 8 && 0 <= file && file < 8 {
                let sq = (rank * 8 + file) as usize;
                b.set(sq, Some(c));
            }
            file = file + 1;
        }
        i = i + 1;
    }
    b
}

/// The pieces after the queued premoves `q[k..]` are played on the board
/// `b` as if legal: each moves its piece (if any), a pawn reaching the last
/// rank becoming a queen.
pub open spec fn premoved(b: Seq<Option<char>>, q: Seq<(u8, u8)>, k: int) -> Seq<Option<char>>
    decreases q.len() - k,
{
    if 0 <= k < q.len() {
        let (f, t) = q[k];
        let next = if f < 64 && t < 64 && b[f as int] is Some {
            let p = b[f as int]->0;
            let p2 = if p == 'P' && t / 8 == 7 { 'Q' } else if p == 'p' && t / 8 == 0 { 'q' } else { p };
            b.update(f as int, None).update(t as int, Some(p2))
        } else {
            b
        };
        premoved(next, q, k + 1)
    } else {
        b
    }
}

/// The board as it will look once the queued premoves are played.
pub fn apply_premoves(board: &Vec<Option<char>>, queue: &[(u8, u8)]) -> (b: Vec<Option<char>>)
    requires
        board@.len() == 64,
    ensures
        b@ == premoved(board@, queue@, 0),
        b@.len() == 64,
{
    let mut b = board.clone();
    assert(b@ =~= board@);
    let mut k: usize = 0;
    while k < queue.len()
        invariant
            k <= queue@.len(),
            b@.len() == 64,
            premoved(board@, queue@, 0) == premoved(b@, queue@, k as int),
        decreases queue@.len() - k,
    {
        let (f, t) = queue[k];
        if f < 64 && t < 64 {
            match b[f as usize] {
                Some(p) => {
                    let p2 = if p == 'P' && t / 8 == 7 { 'Q' } else if p == 'p' && t / 8 == 0 { 'q' } else { p };
                    b.set(f as usize, None);
                    b.set(t as usize, Some(p2));
                },
                None => {},
            }
        }
        k = k + 1;
    }
    b
}

proof fn lemma_premoved_len(b: Seq<Option<char>>, q: Seq<(u8, u8)>, k: int)
    requires
        b.len() == 64,
    ensures
        premoved(b, q, k).len() == 64,
    decreases q.len() - k,
{
    if 0 <= k < q.len() {
        let (f, t) = q[k];
        let next = if f < 64 && t < 64 && b[f as int] is Some {
            let p = b[f as int]->0;
            let p2 = if p == 'P' && t / 8 == 7 { 'Q' } else if p == 'p' && t / 8 == 0 { 'q' } else { p };
            b.update(f as int, None).update(t as int, Some(p2))
        } else {
            b
        };
        lemma_premoved_len(next, q, k + 1);
    }
}

proof fn lemma_premoved_push(b: Seq<Option<char>>, q: Seq<(u8, u8)>, e: (u8, u8), k: int)
    requires
        0 <= k <= q.len(),
    ensures
        premoved(b, q.push(e), k) == premoved(premoved(b, q, k), seq![e], 0),
    decreases q.len() - k,
{
    let qe = q.push(e);
    if k < q.len() {
        assert(qe[k] == q[k]);
        let (f, t) = q[k];
        let next = if f < 64 && t < 64 && b[f as int] is Some {
            let p = b[f as int]->0;
            let p2 = if p == 'P' && t / 8 == 7 { 'Q' } else if p == 'p' && t / 8 == 0 { 'q' } else { p };
            b.update(f as int, None).update(t as int, Some(p2))
        } else {
            b
        };
        lemma_premoved_push(next, q, e, k + 1);
    } else {
        assert(qe[k] == e);
        let (f, t) = e;
        let next = if f < 64 && t < 64 && b[f as int] is Some {
            let p = b[f as int]->0;
            let p2 = if p == 'P' && t / 8 == 7 { 'Q' } else if p == 'p' && t / 8 == 0 { 'q' } else { p };
            b.update(f as int, None).update(t as int, Some(p2))
        } else {
            b
        };
        assert(premoved(next, qe, k + 1) == next);
        assert(premoved(next, seq![e], 1) == next);
    }
}

/// The last of a queue of premoves, from `f` to `t`, as the board shows it:
/// the piece the earlier premoves left on `f` leaves it and stands on `t`,
/// where a pawn reaching its far rank (rank 8 for White, rank 1 for Black)
/// is shown as a queen of its own colour and any other piece as itself;
/// every other square keeps what the earlier premoves left there. From an
/// empty square the premove shows nothing.
pub proof fn a_premove_moves_its_piece(b: Seq<Option<char>>, q: Seq<(u8, u8)>, f: u8, t: u8)
    requires
        b.len() == 64,
        f < 64,
        t < 64,
        f != t,
    ensures
        ({
            let before = premoved(b, q, 0);
            let after = premoved(b, q.push((f, t)), 0);
            &&& after.len() == 64
            &&& before[f as int] is None ==> after == before
            &&& before[f as int] matches Some(x) ==> {
                &&& x == 'P' && t >= 56 ==> after[t as int] == Some('Q')
                &&& x == 'p' && t < 8 ==> after[t as int] == Some('q')
                &&& !(x == 'P' && t >= 56) && !(x == 'p' && t < 8) ==> after[t as int] == Some(x)
                &&& after[f as int] is None
                &&& forall|s: int| 0 <= s < 64 && s != f && s != t ==> after[s] == before[s]
            }
        }),
{
    lemma_premoved_push(b, q, (f, t), 0);
    lemma_premoved_len(b, q, 0);
    let before = premoved(b, q, 0);
    let next = if before[f as int] is Some {
        let p = before[f as int]->0;
        let p2 = if p == 'P' && t / 8 == 7 { 'Q' } else if p == 'p' && t / 8 == 0 { 'q' } else { p };
        before.update(f as int, None).update(t as int, Some(p2))
    } else {
        before
    };
    assert(premoved(next, seq![(f, t)], 1) == next);
}

/// What releasing a dragged piece from `from` does.
pub enum DropOutcome {
    /// Nothing happens; the selection stays.
    Nothing,
    /// The piece was let go off the board: the selection is cleared.
    Deselect,
    /// The one legal move from `from` to the square is played.
    Play(ChessMove),
    /// Several moves match (a promotion): ask which piece to promote to.
    ChoosePromotion { from: u8, to: u8 },
    /// Not the player's turn: the move is queued as a premove.
    Premove { from: u8, to: u8 },
}

/// Decides a drop of the piece from `from` on `dropped` (`None` off the
/// board), given the squares shown as targets and the legal moves.
pub fn resolve_drop(legal: &[ChessMove], targets: &[u8], from: u8, dropped: Option<u8>, my_turn: bool) -> (r: DropOutcome)
    ensures
        match dropped {
            None => r is Deselect,
            Some(d) => if !targets@.contains(d) {
                r is Nothing
            } else if !my_turn {
                r == DropOutcome::Premove { from, to: d }
            } else {
                let ms = legal@.map_values(|m: ChessMove| m@).filter(|m: MoveView| goes_between(m, from, d));
                if ms.len() == 0 {
                    r is Nothing
                } else if ms.len() == 1 {
                    r matches DropOutcome::Play(m) && m@ == ms[0]
                } else {
                    r == DropOutcome::ChoosePromotion { from, to: d }
                }
            },
        },
{
    let d = match dropped {
        Some(d) => d,
        None => {
            return DropOutcome::Deselect;
        },
    };
    let mut i: usize = 0;
    let mut hit = false;
    while i < targets.len()
        invariant
            i <= targets@.len(),
            hit == (exists|j: int| 0 <= j < i && targets@[j] == d),
        decreases targets@.len() - i,
    {
        if targets[i] == d {
            hit = true;
        }
        i = i + 1;
    }
    if !hit {
        return DropOutcome::Nothing;
    }
    if !my_turn {
        return DropOutcome::Premove { from, to: d };
    }
    let mut ms = matching_moves(legal, from, d);
    if ms.len() == 0 {
        DropOutcome::Nothing
    } else if ms.len() == 1 {
        let m = ms.remove(0);
        DropOutcome::Play(m)
    } else {
        DropOutcome::ChoosePromotion { from, to: d }
    }
}

pub open spec fn is_white_piece(c: char) -> bool {
    'A' <= c && c <= 'Z'
}

/// The squares a pawn with FEN letter `piece` on `sq` could advance to on
/// an empty board (one step, or two from its starting rank); nothing for
/// other pieces or a pawn with no rank ahead.
pub open spec fn pawn_pushes(sq: u8, piece: char) -> Seq<u8> {
    let rank = sq / 8;
    let file = sq % 8;
    if piece == 'P' && rank < 7 {
        seq![((rank + 1) * 8 + file) as u8] + (if rank == 1 { seq![((rank + 2) * 8 + file) as u8] } else { Seq::empty() })
    } else if piece == 'p' && rank > 0 {
        seq![((rank - 1) * 8 + file) as u8] + (if rank == 6 { seq![((rank - 2) * 8 + file) as u8] } else { Seq::empty() })
    } else {
        Seq::empty()
    }
}

/// The squares shown for a piece regardless of what blocks it: its
/// attacks on an empty board and, for a pawn, its pushes.
pub open spec fn pseudo_targets(sq: u8, piece: char) -> Seq<u8> {
    attacks_of(sq, piece) + pawn_pushes(sq, piece)
}

/// Whether a legal move of the position `v` goes from `sel` to `t`.
pub open spec fn reached_by_move(v: Seq<char>, sel: u8, t: u8) -> bool {
    exists|j: int| 0 <= j < moves_via(v, legal_ucis_of(v), 0).len()
        && #[trigger] goes_between(moves_via(v, legal_ucis_of(v), 0)[j], sel, t)
}

pub open spec fn reached_in(view: Option<Seq<char>>, sel: u8, t: u8) -> bool {
    match view {
        Some(v) => reached_by_move(v, sel, t),
        None => false,
    }
}

/// Whether `t` is shown as a target for the piece on `sel` in `fen` with
/// the premoves `queue` pending: a piece that only a premove put there
/// shows its pseudo-targets; a piece of the side to move shows its legal
/// moves' targets; a piece of the other side shows the targets its legal
/// moves would have with the turn swapped, and its pseudo-targets.
pub open spec fn is_target(fen: Seq<char>, sel: u8, queue: Seq<(u8, u8)>, t: u8) -> bool {
    let actual = board_of(fen);
    let b = if queue.len() == 0 { actual } else { premoved(actual, queue, 0) };
    sel < 64 && match b[sel as int] {
        None => false,
        Some(pc) => if actual[sel as int] != Some(pc) {
            pseudo_targets(sel, pc).contains(t)
        } else {
            let mine = is_white_piece(pc) == fen_white_to_move(fen);
            let view = if mine { Some(fen) } else { swapped_fen(fen) };
            reached_in(view, sel, t) || (!mine && pseudo_targets(sel, pc).contains(t))
        },
    }
}

fn push_unique(v: &mut Vec<u8>, x: u8)
    requires
        old(v)@.no_duplicates(),
    ensures
        final(v)@.no_duplicates(),
        forall|y: u8| final(v)@.contains(y) <==> (old(v)@.contains(y) || y == x),
{
    let mut i: usize = 0;
    while i < v.len()
        invariant
            i <= v@.len(),
            v@ == old(v)@,
            old(v)@.no_duplicates(),
            forall|j: int| 0 <= j < i ==> v@[j] != x,
        decreases v@.len() - i,
    {
        if v[i] == x {
            return;
        }
        i = i + 1;
    }
    v.push(x);
    assert forall|y: u8| v@.contains(y) <==> (old(v)@.contains(y) || y == x) by {
        if old(v)@.contains(y) {
            let j = choose|j: int| 0 <= j < old(v)@.len() && old(v)@[j] == y;
            assert(v@[j] == y);
        }
        if v@.contains(y) && y != x {
            let j = choose|j: int| 0 <= j < v@.len() && v@[j] == y;
            assert(j < old(v)@.len());
            assert(old(v)@[j] == y);
        }
        if y == x {
            assert(v@[v@.len() - 1] == x);
        }
    }
}

fn pawn_pushes_exec(sq: u8, piece: char) -> (r: Vec<u8>)
    requires
        sq < 64,
    ensures
        r@ == pawn_pushes(sq, piece),
{
    let rank = sq / 8;
    let file = sq % 8;
    let mut r: Vec<u8> = Vec::new();
    if piece == 'P' && rank < 7 {
        r.push((rank + 1) * 8 + file);
        if rank == 1 {
            r.push((rank + 2) * 8 + file);
        }
    } else if piece == 'p' && rank > 0 {
        r.push((rank - 1) * 8 + file);
        if rank == 6 {
            r.push((rank - 2) * 8 + file);
        }
    }
    assert(r@ =~= pawn_pushes(sq, piece));
    r
}

fn add_all(out: &mut Vec<u8>, xs: &Vec<u8>)
    requires
        old(out)@.no_duplicates(),
    ensures
        final(out)@.no_duplicates(),
        forall|y: u8| final(out)@.contains(y) <==> (old(out)@.contains(y) || xs@.contains(y)),
{
    let mut i: usize = 0;
    while i < xs.len()
        invariant
            i <= xs@.len(),
            out@.no_duplicates(),
            forall|y: u8| out@.contains(y) <==> (old(out)@.contains(y) || exists|j: int| 0 <= j < i && xs@[j] == y),
        decreases xs@.len() - i,
    {
        push_unique(out, xs[i]);
        i = i + 1;
    }
}

/// The squares to mark for the selected square `selected`, each once.
pub fn legal_targets(pos: &Position, selected: Option<u8>, queue: &[(u8, u8)]) -> (r: Vec<u8>)
    ensures
        r@.no_duplicates(),
        forall|t: u8| r@.contains(t) <==> (selected matches Some(s) && is_target(pos@, s, queue@, t)),
{
    let mut out: Vec<u8> = Vec::new();
    let sel = match selected {
        Some(s) => s,
        None => {
            return out;
        },
    };
    if sel >= 64 {
        return out;
    }
    let actual = pieces(pos);
    let b = apply_premoves(&actual, queue);
    assert(queue@.len() == 0 ==> b@ == actual@);
    let pc = match b[sel as usize] {
        Some(pc) => pc,
        None => {
            return out;
        },
    };
    let real_here = actual[sel as usize];
    if real_here != Some(pc) {
        let mut pseudo = piece_attacks(sel, pc);
        let mut pushes = pawn_pushes_exec(sel, pc);
        pseudo.append(&mut pushes);
        add_all(&mut out, &pseudo);
        return out;
    }
    assert(actual@[sel as int] == Some(pc));
    assert(b@[sel as int] == Some(pc));
    let mine = ('A' <= pc && pc <= 'Z') == pos.white_to_move();
    let view = if mine { Some(pos.clone()) } else { pos.swap_turn() };
    let ghost vspec = if mine { Some(pos@) } else { swapped_fen(pos@) };
    assert(match view { Some(v) => vspec == Some(v@), None => vspec is None });
    match view {
        Some(v) => {
            let ms = v.legal_moves();
            let ghost mv = ms@.map_values(|m: ChessMove| m@);
            let mut k: usize = 0;
            while k < ms.len()
                invariant
                    k <= ms@.len(),
                    mv == ms@.map_values(|m: ChessMove| m@),
                    out@.no_duplicates(),
                    forall|y: u8| out@.contains(y) <==> exists|j: int| 0 <= j < k && #[trigger] goes_between(mv[j], sel, y),
                decreases ms@.len() - k,
            {
                let o = move_origin(&ms[k]);
                let t = move_target(&ms[k]);
                assert(mv[k as int] == ms@[k as int]@);
                let ghost before = out@;
                if o == Some(sel) {
                    match t {
                        Some(tt) => {
                            push_unique(&mut out, tt);
                        },
                        None => {},
                    }
                }
                assert forall|y: u8| out@.contains(y) <==> exists|j: int| 0 <= j < k + 1 && #[trigger] goes_between(mv[j], sel, y) by {
                    if goes_between(mv[k as int], sel, y) {
                        assert(o == Some(sel) && t == Some(y));
                    }
                    if exists|j: int| 0 <= j < k + 1 && #[trigger] goes_between(mv[j], sel, y) {
                        let j = choose|j: int| 0 <= j < k + 1 && #[trigger] goes_between(mv[j], sel, y);
                        if j < k {
                            assert(before.contains(y));
                        }
                    }
                }
                k = k + 1;
            }
            assert(mv == moves_via(v@, legal_ucis_of(v@), 0));
            assert(vspec == Some(v@));
            assert forall|y: u8| out@.contains(y) <==> reached_in(vspec, sel, y) by {
                if out@.contains(y) {
                    let j = choose|j: int| 0 <= j < k && #[trigger] goes_between(mv[j], sel, y);
                    assert(mv.len() == ms@.len());
                    assert(0 <= j < moves_via(v@, legal_ucis_of(v@), 0).len());
                    assert(goes_between(moves_via(v@, legal_ucis_of(v@), 0)[j], sel, y));
                    assert(reached_by_move(v@, sel, y));
                }
                if reached_in(vspec, sel, y) {
                    let j = choose|j: int| 0 <= j < moves_via(v@, legal_ucis_of(v@), 0).len()
                        && #[trigger] goes_between(moves_via(v@, legal_ucis_of(v@), 0)[j], sel, y);
                    assert(goes_between(mv[j], sel, y));
                }
            }
        },
        None => {
            assert(vspec is None);
            assert forall|y: u8| out@.contains(y) <==> reached_in(vspec, sel, y) by {}
        },
    }
    let ghost by_moves = out@;
    assert(forall|y: u8| by_moves.contains(y) <==> reached_in(vspec, sel, y));
    if !mine {
        let mut pseudo = piece_attacks(sel, pc);
        let mut pushes = pawn_pushes_exec(sel, pc);
        pseudo.append(&mut pushes);
        add_all(&mut out, &pseudo);
        assert(pseudo@ == pseudo_targets(sel, pc));
        assert forall|y: u8| out@.contains(y) <==> (reached_in(vspec, sel, y) || pseudo_targets(sel, pc).contains(y)) by {
            assert(pseudo@.contains(y) == pseudo_targets(sel, pc).contains(y));
            assert(by_moves.contains(y) == reached_in(vspec, sel, y));
        }
    }
    assert(forall|y: u8| out@.contains(y) <==> (reached_in(vspec, sel, y) || (!mine && pseudo_targets(sel, pc).contains(y))));
    assert forall|t: u8| out@.contains(t) <==> is_target(pos@, sel, queue@, t) by {
        let bb = if queue@.len() == 0 { actual@ } else { premoved(actual@, queue@, 0) };
        assert(bb[sel as int] == Some(pc));
        assert(actual@[sel as int] == Some(pc));
        assert(is_target(pos@, sel, queue@, t) == (reached_in(vspec, sel, t) || (!mine && pseudo_targets(sel, pc).contains(t))));
    }
    out
}

/// A click on `this` with the piece on `selected` picked up decides like a
/// drop there; with nothing selected it does nothing.
pub fn resolve_click(legal: &[ChessMove], targets: &[u8], selected: Option<u8>, this: u8, my_turn: bool) -> (r: DropOutcome)
    ensures
        match selected {
            None => r is Nothing,
            Some(from) => if !targets@.contains(this) {
                r is Nothing
            } else if !my_turn {
                r == DropOutcome::Premove { from, to: this }
            } else {
                let ms = legal@.map_values(|m: ChessMove| m@).filter(|m: MoveView| goes_between(m, from, this));
                if ms.len() == 0 {
                    r is Nothing
                } else if ms.len() == 1 {
                    r matches DropOutcome::Play(m) && m@ == ms[0]
                } else {
                    r == DropOutcome::ChoosePromotion { from, to: this }
                }
            },
        },
{
    match selected {
        None => DropOutcome::Nothing,
        Some(from) => resolve_drop(legal, targets, from, Some(this), my_turn),
    }
}

/// The image of a piece (FEN letter): `/piece/alpha/` then `w` or `b` and
/// the upper-case letter, `.svg`; `None` for a letter that is no piece.
pub open spec fn piece_image_path(piece: char) -> Option<Seq<char>> {
    let upper = if 'a' <= piece && piece <= 'z' { ((piece as u32) - 32) as char } else { piece };
    if upper == 'P' || upper == 'N' || upper == 'B' || upper == 'R' || upper == 'Q' || upper == 'K' {
        Some("/piece/alpha/"@ + seq![if piece == upper { 'w' } else { 'b' }, upper] + ".svg"@)
    } else {
        None
    }
}

pub fn piece_image(piece: char) -> (r: Option<String>)
    ensures
        match r {
            Some(s) => piece_image_path(piece) == Some(s@),
            None => piece_image_path(piece) is None,
        },
{
    let upper = if 'a' <= piece && piece <= 'z' {
        let code = (piece as u32) - 32;
        if code == 'P' as u32 {
            'P'
        } else if code == 'N' as u32 {
            'N'
        } else if code == 'B' as u32 {
            'B'
        } else if code == 'R' as u32 {
            'R'
        } else if code == 'Q' as u32 {
            'Q'
        } else if code == 'K' as u32 {
            'K'
        } else {
            return None;
        }
    } else {
        piece
    };
    if !(upper == 'P' || upper == 'N' || upper == 'B' || upper == 'R' || upper == 'Q' || upper == 'K') {
        return None;
    }
    let mut out: Vec<char> = Vec::new();
    crate::text::push_str(&mut out, "/piece/alpha/");
    out.push(if piece == upper { 'w' } else { 'b' });
    out.push(upper);
    crate::text::push_str(&mut out, ".svg");
    Some(crate::text::string_of(&out))
}

/// The name of a square: its file letter and rank digit (`e4`).
pub fn square_name(sq: u8) -> (s: String)
    requires
        sq < 64,
    ensures
        s@ == seq![(('a' as int) + sq % 8) as char, (('1' as int) + sq / 8) as char],
{
    let file = ((('a' as u32) + (sq % 8) as u32) as u8) as char;
    let rank = ((('1' as u32) + (sq / 8) as u32) as u8) as char;
    let v = vec![file, rank];
    crate::text::string_of(&v)
}

/// Whether a premove starts or ends on `sq`.
pub open spec fn touches(p: (u8, u8), sq: u8) -> bool {
    p.0 == sq || p.1 == sq
}

/// The background of a square: premove squares grey, the selected and
/// last-move squares a light green, others the board's colours (light
/// squares are those whose rank and file add up to an odd number).
pub fn square_class(sq: u8, selected: Option<u8>, last_move: Option<(u8, u8)>, premoves: &[(u8, u8)]) -> (c: &'static str)
    requires
        sq < 64,
    ensures
        ({
            let light = (sq / 8 + sq % 8) % 2 == 1;
            let highlighted = selected == Some(sq) || (last_move matches Some((f, t)) && (f == sq || t == sq));
            let premove = exists|j: int| 0 <= j < premoves@.len() && #[trigger] touches(premoves@[j], sq);
            c@ == (if premove {
                if light { "bg-gray-300"@ } else { "bg-gray-500"@ }
            } else if highlighted {
                if light { "bg-green-300"@ } else { "bg-green-600"@ }
            } else {
                if light { "bg-white"@ } else { "bg-green-800"@ }
            })
        }),
{
    let light = (sq / 8 + sq % 8) % 2 == 1;
    let highlighted = selected == Some(sq) || match last_move {
        Some((f, t)) => f == sq || t == sq,
        None => false,
    };
    let mut premove = false;
    let mut i: usize = 0;
    while i < premoves.len()
        invariant
            i <= premoves@.len(),
            premove == exists|j: int| 0 <= j < i && #[trigger] touches(premoves@[j], sq),
        decreases premoves@.len() - i,
    {
        let (f, t) = premoves[i];
        assert(touches(premoves@[i as int], sq) == (f == sq || t == sq));
        if f == sq || t == sq {
            premove = true;
        }
        i = i + 1;
    }
    if premove {
        if light { "bg-gray-300" } else { "bg-gray-500" }
    } else if highlighted {
        if light { "bg-green-300" } else { "bg-green-600" }
    } else {
        if light { "bg-white" } else { "bg-green-800" }
    }
}

/// Whether to flash a king: the piece is the king of the side to move and
/// that side is in check.
pub fn king_in_check(pos: &Position, piece: Option<char>) -> (b: bool)
    ensures
        b == (match piece {
            Some(p) => (p == 'K' || p == 'k') && is_white_piece(p) == fen_white_to_move(pos@) && check_of(pos@),
            None => false,
        }),
{
    match piece {
        Some(p) => {
            if !(p == 'K' || p == 'k') {
                return false;
            }
            let white = 'A' <= p && p <= 'Z';
            white == pos.white_to_move() && pos.is_check()
        },
        None => false,
    }
}

} // verus!
