//! Chess positions, held as the FEN text that shakmaty writes for them, and
//! the moves between them. Legality, SAN rendering and game outcomes are
//! shakmaty's; reading the FEN fields is this module's own.

use vstd::prelude::*;
use shakmaty::Position as _;
use crate::player::Side;
use crate::text::{chars_of, field, field_at, digits_upto, all_digits, digits_value, is_ascii_digit, string_of};

verus! {

/// The FEN of the standard starting position.
pub open spec fn start_fen() -> Seq<char> {
    "rnbqkbnr/pppppppp/8/8/8/8/PPPPPPPP/RNBQKBNR w KQkq - 0 1"@
}

/// What shakmaty gives for the UCI move `uci` in the position `fen`:
/// `None` when the FEN or the move does not parse or the move is illegal;
/// otherwise the move's UCI in standard castling notation, its SAN with the
/// check or mate suffix, and the FEN of the position after it.
pub uninterp spec fn uci_step(fen: Seq<char>, uci: Seq<char>) -> Option<(Seq<char>, Seq<char>, Seq<char>)>;

/// As `uci_step`, for a move written in SAN (a check or mate suffix is
/// allowed).
pub uninterp spec fn san_step(fen: Seq<char>, san: Seq<char>) -> Option<(Seq<char>, Seq<char>, Seq<char>)>;

/// Whether shakmaty reads `san` as syntactically valid SAN.
pub uninterp spec fn san_syntax_ok(san: Seq<char>) -> bool;

/// A file letter `a`..`h`.
pub open spec fn file_char(c: char) -> bool {
    'a' <= c && c <= 'h'
}

/// A rank digit `1`..`8`.
pub open spec fn rank_char(c: char) -> bool {
    '1' <= c && c <= '8'
}

/// A piece letter of either case, as `Role::from_char` reads it.
pub open spec fn role_char(c: char) -> bool {
    c == 'P' || c == 'p' || c == 'N' || c == 'n' || c == 'B' || c == 'b' || c == 'R' || c == 'r' || c == 'Q'
        || c == 'q' || c == 'K' || c == 'k'
}

/// The UCI move grammar `UciMove::from_ascii` accepts: `0000`, a drop
/// `P@e4`, a move `e2e4`, or a move with a promotion letter `e7e8q`.
pub open spec fn uci_syntax_ok(uci: Seq<char>) -> bool {
    ||| uci == "0000"@
    ||| uci.len() == 4 && role_char(uci[0]) && uci[1] == '@' && file_char(uci[2]) && rank_char(uci[3])
    ||| uci.len() == 4 && file_char(uci[0]) && rank_char(uci[1]) && file_char(uci[2]) && rank_char(uci[3])
    ||| uci.len() == 5 && file_char(uci[0]) && rank_char(uci[1]) && file_char(uci[2]) && rank_char(uci[3])
        && role_char(uci[4])
}

/// The SAN (without check suffix) of the UCI move `uci` in `fen`, when it
/// parses and is legal there.
pub uninterp spec fn plain_san(fen: Seq<char>, uci: Seq<char>) -> Option<Seq<char>>;

/// The FEN shakmaty writes back for a FEN it accepts as a standard chess
/// position, `None` when it rejects it.
pub uninterp spec fn normalized_fen(fen: Seq<char>) -> Option<Seq<char>>;

/// The legal moves shakmaty lists for `fen`, in its order, each in UCI
/// with standard castling notation; empty when the FEN does not read.
pub uninterp spec fn legal_ucis_of(fen: Seq<char>) -> Seq<Seq<char>>;

/// The FEN of `fen` with the side to move swapped (a null move, which also
/// drops any en passant square), `None` when the FEN does not read or the
/// swap is impossible (the side that would move could capture the king).
pub uninterp spec fn swapped_fen(fen: Seq<char>) -> Option<Seq<char>>;

/// Whether a piece with FEN letter `piece` on square `from` attacks square
/// `to` on an otherwise empty board (squares 0 = a1 .. 63 = h8): a pawn
/// the two squares diagonally ahead (up for white, down for black), a
/// knight its L-jumps, a bishop its diagonals, a rook its file and rank, a
/// queen both, a king its neighbours.
pub open spec fn attacks_square(from: int, piece: char, to: int) -> bool {
    let df = to % 8 - from % 8;
    let dr = to / 8 - from / 8;
    let af = if df < 0 { -df } else { df };
    let ar = if dr < 0 { -dr } else { dr };
    let diagonal = af == ar && af > 0;
    let straight = (af == 0) != (ar == 0);
    if piece == 'P' {
        dr == 1 && af == 1
    } else if piece == 'p' {
        dr == -1 && af == 1
    } else if piece == 'N' || piece == 'n' {
        (af == 1 && ar == 2) || (af == 2 && ar == 1)
    } else if piece == 'B' || piece == 'b' {
        diagonal
    } else if piece == 'R' || piece == 'r' {
        straight
    } else if piece == 'Q' || piece == 'q' {
        diagonal || straight
    } else if piece == 'K' || piece == 'k' {
        af <= 1 && ar <= 1 && af + ar > 0
    } else {
        false
    }
}

/// The squares, ascending, that a piece with FEN letter `piece` on `sq`
/// attacks on an otherwise empty board; empty for a letter that is no
/// piece.
pub open spec fn attacks_of(sq: u8, piece: char) -> Seq<u8> {
    Seq::new(64, |i: int| i as u8).filter(|s: u8| attacks_square(sq as int, piece, s as int))
}

/// Whether the side to move in `fen` is in check, as shakmaty reports it;
/// false when the FEN does not read.
pub uninterp spec fn check_of(fen: Seq<char>) -> bool;

/// The outcome shakmaty reports for the position `fen`.
pub uninterp spec fn outcome_of(fen: Seq<char>) -> Outcome;

/// The origin and destination square indices (0 = a1 .. 63 = h8) that
/// shakmaty's `Move::from`/`Move::to` report for the UCI move `uci` in `fen`,
/// `None` when it does not parse or is illegal there, or has no origin.
pub uninterp spec fn move_squares(fen: Seq<char>, uci: Seq<char>) -> Option<(u8, u8)>;

/// The result of a game as far as the position tells.
#[derive(Debug, Clone, Copy, PartialEq, Eq, Structural)]
pub enum Outcome {
    Decisive(Side),
    Draw,
    Unknown,
}

/// `Chess::default()` written as FEN with `Fen::from_position`; the
/// contract claims it is the standard start FEN.
#[verifier::external_body]
fn default_fen() -> (f: String)
    ensures
        f@ == start_fen(),
{
    let pos = shakmaty::Chess::default();
    shakmaty::fen::Fen::from_position(&pos, shakmaty::EnPassantMode::Legal).to_string()
}

/// A character shakmaty writes in SAN for standard chess: a piece letter,
/// a file, a rank, `x`, `=`, the `O-O` of castling, or a check or mate
/// suffix.
pub open spec fn san_char(c: char) -> bool {
    ||| c == 'K' || c == 'Q' || c == 'R' || c == 'B' || c == 'N'
    ||| ('a' <= c && c <= 'h')
    ||| ('1' <= c && c <= '8')
    ||| c == 'x' || c == '=' || c == 'O' || c == '-' || c == '+' || c == '#'
}

/// The shape of SAN text as shakmaty writes it for a move of standard
/// chess: not empty, not starting with a digit, and made of `san_char`s.
pub open spec fn san_text(s: Seq<char>) -> bool {
    &&& s.len() > 0
    &&& !('0' <= s[0] && s[0] <= '9')
    &&& forall|i: int| 0 <= i < s.len() ==> san_char(#[trigger] s[i])
}

/// Stepping from `fen` by the move with normalized UCI `uci`, SAN (with
/// check suffix) `san` and resulting FEN `after` holds both ways: by its UCI
/// and by its SAN text, each gives the same three strings, and the SAN text
/// has the shape shakmaty writes.
pub open spec fn step_holds(fen: Seq<char>, uci: Seq<char>, san: Seq<char>, after: Seq<char>) -> bool {
    &&& uci_step(fen, uci) == Some((uci, san, after))
    &&& san_step(fen, san) == Some((uci, san, after))
    &&& san_syntax_ok(san)
    &&& san_text(san)
    &&& plain_turn(after)
    &&& plain_turn(fen) ==> fen_white_to_move(after) == !fen_white_to_move(fen)
}

/// Splitting after appending more text keeps every piece but the last.
proof fn lemma_fields_keep_prefix(s: Seq<char>, t: Seq<char>, sep: char, k: int)
    requires
        0 <= k < crate::text::fields(s, sep).len() - 1,
    ensures
        crate::text::fields(s + t, sep).len() >= crate::text::fields(s, sep).len(),
        crate::text::fields(s + t, sep)[k] == crate::text::fields(s, sep)[k],
    decreases t.len(),
{
    if t.len() > 0 {
        lemma_fields_keep_prefix(s, t.drop_last(), sep, k);
        assert((s + t).drop_last() =~= s + t.drop_last());
    }
}

/// The standard start FEN has White to move, read plainly, and its first
/// field is the starting piece placement.
pub proof fn start_fen_white_to_move()
    ensures
        plain_turn(start_fen()),
        fen_white_to_move(start_fen()),
        field(start_fen(), ' ', 0) == "rnbqkbnr/pppppppp/8/8/8/8/PPPPPPPP/RNBQKBNR"@,
{
    let board = "rnbqkbnr/pppppppp/8/8/8/8/PPPPPPPP/RNBQKBNR"@;
    let rest = " KQkq - 0 1"@;
    reveal_strlit("rnbqkbnr/pppppppp/8/8/8/8/PPPPPPPP/RNBQKBNR");
    reveal_strlit(" KQkq - 0 1");
    reveal_strlit("rnbqkbnr/pppppppp/8/8/8/8/PPPPPPPP/RNBQKBNR w KQkq - 0 1");
    let s = start_fen();
    let head = board + seq![' '] + seq!['w'];
    assert(s =~= head + rest);
    crate::text::lemma_fields_append(Seq::empty(), board, ' ');
    assert(Seq::<char>::empty() + board =~= board);
    let fb = crate::text::fields(board, ' ');
    assert(fb =~= seq![board]) by {
        assert(crate::text::fields(Seq::<char>::empty(), ' ') == seq![Seq::<char>::empty()]);
        assert(Seq::<char>::empty() + board =~= board);
    }
    let b1 = board + seq![' '];
    assert(b1.drop_last() =~= board);
    assert(crate::text::fields(b1, ' ') =~= seq![board, Seq::empty()]);
    crate::text::lemma_fields_append(b1, seq!['w'], ' ');
    assert(crate::text::fields(head, ' ') =~= seq![board, seq!['w']]) by {
        assert(Seq::<char>::empty() + seq!['w'] =~= seq!['w']);
    }
    let head2 = head + seq![' '];
    assert(head2.drop_last() =~= head);
    assert(crate::text::fields(head2, ' ') =~= seq![board, seq!['w'], Seq::empty()]);
    let rest2 = rest.drop_first();
    assert(s =~= head2 + rest2);
    lemma_fields_keep_prefix(head2, rest2, ' ', 1);
    lemma_fields_keep_prefix(head2, rest2, ' ', 0);
    assert(field(s, ' ', 1) =~= seq!['w']);
    assert(field(s, ' ', 0) =~= board);
    assert forall|i: int| 0 <= i < s.len() - 1 implies !(#[trigger] s[i] == ' ' && s[i + 1] == ' ') by {}
}

/// A FEN whose side to move is read the same by its second space-separated
/// field as by shakmaty's parser: it starts with no space, holds no `_` and
/// no doubled space, and its second field is `w` or `b`. Every FEN shakmaty
/// writes is such.
pub open spec fn plain_turn(fen: Seq<char>) -> bool {
    &&& fen.len() > 0
    &&& fen[0] != ' '
    &&& forall|i: int| 0 <= i < fen.len() ==> #[trigger] fen[i] != '_'
    &&& forall|i: int| 0 <= i < fen.len() - 1 ==> !(#[trigger] fen[i] == ' ' && fen[i + 1] == ' ')
    &&& (field(fen, ' ', 1) == seq!['w'] || field(fen, ' ', 1) == seq!['b'])
}

/// Parses `uci` with `UciMove::from_str`, resolves it with `UciMove::to_move`
/// against `fen`, and plays it with `SanPlus::from_move_and_play_unchecked`;
/// the contract names the result `uci_step`. It also claims what shakmaty's
/// source shows of the move found (`step_holds`): its UCI (`Move::to_uci` in
/// standard castling notation) resolves with `UciMove::to_move` in the same
/// position to the same move; its `SanPlus` text parses with `San::from_str`
/// (which takes the check suffix) and resolves with `San::to_move` to the
/// same move, `San::disambiguate` having made it unique; that text is
/// written with piece letters, squares, `x`, `=`, `O-O` and the suffix only;
/// the FEN written after the move (`Fen::from_position`, single spaces, turn
/// `w` or `b`) has the other side to move than the one `Fen::from_ascii`
/// read from `fen`, which is the second field when `fen` is written plainly.
#[verifier::external_body]
fn step_uci(fen: &str, uci: &str) -> (r: Option<(String, String, String)>)
    ensures
        match r {
            Some(t) => uci_step(fen@, uci@) == Some((t.0@, t.1@, t.2@)) && step_holds(fen@, t.0@, t.1@, t.2@),
            None => uci_step(fen@, uci@) is None,
        },
{
    let mut pos: shakmaty::Chess = fen.parse::<shakmaty::fen::Fen>().ok()?.into_position(shakmaty::CastlingMode::Standard).ok()?;
    let m = uci.parse::<shakmaty::uci::UciMove>().ok()?.to_move(&pos).ok()?;
    let norm = m.to_uci(shakmaty::CastlingMode::Standard).to_string();
    let san = shakmaty::san::SanPlus::from_move_and_play_unchecked(&mut pos, m).to_string();
    Some((norm, san, shakmaty::fen::Fen::from_position(&pos, shakmaty::EnPassantMode::Legal).to_string()))
}

/// Parses `san` with `San::from_str`, resolves it with `San::to_move`
/// against `fen`, and plays it as `step_uci` does; the contract names the
/// result `san_step`. It also claims of the move found what `step_uci`
/// claims (`step_holds`).
#[verifier::external_body]
fn step_san(fen: &str, san: &str) -> (r: Option<(String, String, String)>)
    ensures
        match r {
            Some(t) => san_step(fen@, san@) == Some((t.0@, t.1@, t.2@)) && step_holds(fen@, t.0@, t.1@, t.2@),
            None => san_step(fen@, san@) is None,
        },
{
    let mut pos: shakmaty::Chess = fen.parse::<shakmaty::fen::Fen>().ok()?.into_position(shakmaty::CastlingMode::Standard).ok()?;
    let m = san.parse::<shakmaty::san::San>().ok()?.to_move(&pos).ok()?;
    let norm = m.to_uci(shakmaty::CastlingMode::Standard).to_string();
    let plus = shakmaty::san::SanPlus::from_move_and_play_unchecked(&mut pos, m).to_string();
    Some((norm, plus, shakmaty::fen::Fen::from_position(&pos, shakmaty::EnPassantMode::Legal).to_string()))
}

/// Whether `San::from_str` accepts `san`; the contract names the result
/// `san_syntax_ok`, and claims that the empty string is rejected (reading a
/// SAN move needs at least a destination square).
#[verifier::external_body]
fn san_parses(san: &str) -> (b: bool)
    ensures
        b == san_syntax_ok(san@),
        san@.len() == 0 ==> !b,
{
    san.parse::<shakmaty::san::San>().is_ok()
}

/// `Position::legal_moves` of the position `fen`, each move written with
/// `Move::to_uci(CastlingMode::Standard)`; the contract names the list
/// `legal_ucis_of`.
#[verifier::external_body]
fn legal_ucis(fen: &str) -> (r: Vec<String>)
    ensures
        r@.map_values(|u: String| u@) == legal_ucis_of(fen@),
{
    let mut out = Vec::new();
    if let Some(pos) = fen.parse::<shakmaty::fen::Fen>().ok().and_then(|f| f.into_position::<shakmaty::Chess>(shakmaty::CastlingMode::Standard).ok()) {
        for m in pos.legal_moves() {
            out.push(m.to_uci(shakmaty::CastlingMode::Standard).to_string());
        }
    }
    out
}

/// `Position::is_check` of the position `fen`; the contract names the
/// result `check_of`.
#[verifier::external_body]
fn in_check(fen: &str) -> (b: bool)
    ensures
        b == check_of(fen@),
{
    let parsed = fen.parse::<shakmaty::fen::Fen>().ok().and_then(|f| f.into_position::<shakmaty::Chess>(shakmaty::CastlingMode::Standard).ok());
    match parsed {
        Some(pos) => pos.is_check(),
        None => false,
    }
}

/// `Position::swap_turn` of the position `fen`, written back as FEN; the
/// contract names the result `swapped_fen`.
#[verifier::external_body]
fn swap_side(fen: &str) -> (r: Option<String>)
    ensures
        match r {
            Some(f) => swapped_fen(fen@) == Some(f@),
            None => swapped_fen(fen@) is None,
        },
{
    let pos: shakmaty::Chess = fen.parse::<shakmaty::fen::Fen>().ok()?.into_position(shakmaty::CastlingMode::Standard).ok()?;
    let swapped = pos.swap_turn().ok()?;
    Some(shakmaty::fen::Fen::from_position(&swapped, shakmaty::EnPassantMode::Legal).to_string())
}

/// `shakmaty::attacks::attacks` of the piece `Piece::from_char(piece)` on
/// `sq` with no other piece on the board, in the bitboard's ascending
/// order; the contract claims these are the squares `attacks_of` gives
/// (shakmaty's attack tables hold exactly those moves).
#[verifier::external_body]
fn attack_squares(sq: u8, piece: char) -> (r: Vec<u8>)
    requires
        sq < 64,
    ensures
        r@ == attacks_of(sq, piece),
{
    let mut out = Vec::new();
    if let Some(p) = shakmaty::Piece::from_char(piece) {
        for s in shakmaty::attacks::attacks(shakmaty::Square::new(sq as u32), p, shakmaty::Bitboard::EMPTY) {
            out.push(u8::from(s));
        }
    }
    out
}

/// Whether `UciMove::from_str` accepts `uci`; the contract claims it does
/// exactly on the grammar `uci_syntax_ok` (any text it accepts is ASCII, so
/// its bytes are its characters).
#[verifier::external_body]
fn uci_parses(uci: &str) -> (b: bool)
    ensures
        b == uci_syntax_ok(uci@),
{
    uci.parse::<shakmaty::uci::UciMove>().is_ok()
}

/// `San::from_move` for the UCI move `uci` resolved against `fen`; the
/// contract names the result `plain_san`.
#[verifier::external_body]
fn san_without_suffix(fen: &str, uci: &str) -> (r: Option<String>)
    ensures
        match r {
            Some(s) => plain_san(fen@, uci@) == Some(s@),
            None => plain_san(fen@, uci@) is None,
        },
{
    let pos: shakmaty::Chess = fen.parse::<shakmaty::fen::Fen>().ok()?.into_position(shakmaty::CastlingMode::Standard).ok()?;
    let m = uci.parse::<shakmaty::uci::UciMove>().ok()?.to_move(&pos).ok()?;
    Some(shakmaty::san::San::from_move(&pos, m).to_string())
}

/// `Fen::from_str` then `Fen::into_position::<Chess>` and back with
/// `Fen::from_position`; the contract names the result `normalized_fen`.
#[verifier::external_body]
fn normalize_fen(fen: &str) -> (r: Option<String>)
    ensures
        match r {
            Some(s) => normalized_fen(fen@) == Some(s@),
            None => normalized_fen(fen@) is None,
        },
{
    let pos: shakmaty::Chess = fen.parse::<shakmaty::fen::Fen>().ok()?.into_position(shakmaty::CastlingMode::Standard).ok()?;
    Some(shakmaty::fen::Fen::from_position(&pos, shakmaty::EnPassantMode::Legal).to_string())
}

/// `Position::outcome` of the position `fen`; the contract names the
/// result `outcome_of`.
#[verifier::external_body]
fn outcome_at(fen: &str) -> (o: Outcome)
    ensures
        o == outcome_of(fen@),
{
    let parsed = fen.parse::<shakmaty::fen::Fen>().ok().and_then(|f| f.into_position::<shakmaty::Chess>(shakmaty::CastlingMode::Standard).ok());
    let Some(pos) = parsed else { return Outcome::Unknown };
    match pos.outcome() {
        shakmaty::Outcome::Known(shakmaty::KnownOutcome::Decisive { winner: shakmaty::Color::White }) => Outcome::Decisive(Side::White),
        shakmaty::Outcome::Known(shakmaty::KnownOutcome::Decisive { winner: shakmaty::Color::Black }) => Outcome::Decisive(Side::Black),
        shakmaty::Outcome::Known(shakmaty::KnownOutcome::Draw) => Outcome::Draw,
        shakmaty::Outcome::Unknown => Outcome::Unknown,
    }
}

/// `Move::from` and `Move::to` of the UCI move `uci` resolved against `fen`;
/// the contract names the result `move_squares`.
#[verifier::external_body]
fn squares_of(fen: &str, uci: &str) -> (r: Option<(u8, u8)>)
    ensures
        r == move_squares(fen@, uci@),
{
    let pos: shakmaty::Chess = fen.parse::<shakmaty::fen::Fen>().ok()?.into_position(shakmaty::CastlingMode::Standard).ok()?;
    let m = uci.parse::<shakmaty::uci::UciMove>().ok()?.to_move(&pos).ok()?;
    Some((u8::from(m.from()?), u8::from(m.to())))
}

/// Whether it is White's turn in `fen`: its second field is `w`.
pub open spec fn fen_white_to_move(fen: Seq<char>) -> bool {
    field(fen, ' ', 1) == seq!['w']
}

/// The fullmove counter of `fen`: its sixth field when that is a plain
/// positive decimal number that fits in a `u32`, else 1.
pub open spec fn fen_fullmoves(fen: Seq<char>) -> u32 {
    let f = field(fen, ' ', 5);
    if f.len() > 0 && all_digits(f) && 0 < digits_value(f) <= u32::MAX {
        digits_value(f) as u32
    } else {
        1
    }
}

/// The moves that the UCIs `ucis[k..]` make from `fen`, skipping any that
/// do not play.
pub open spec fn moves_via(fen: Seq<char>, ucis: Seq<Seq<char>>, k: int) -> Seq<MoveView>
    decreases ucis.len() - k,
{
    if 0 <= k < ucis.len() {
        match uci_step(fen, ucis[k]) {
            Some((u, san, after)) => seq![MoveView { before: fen, uci: u, san, after }] + moves_via(fen, ucis, k + 1),
            None => moves_via(fen, ucis, k + 1),
        }
    } else {
        Seq::empty()
    }
}

/// A chess position (standard rules), held as its FEN.
#[derive(Debug)]
pub struct Position {
    fen: String,
}

impl Clone for Position {
    fn clone(&self) -> (p: Position)
        ensures
            p@ == self@,
    {
        Position { fen: self.fen.clone() }
    }
}

impl View for Position {
    type V = Seq<char>;

    closed spec fn view(&self) -> Seq<char> {
        self.fen@
    }
}

/// A legal move in a given position, with what playing it gives.
#[derive(Debug)]
pub struct ChessMove {
    before: String,
    uci: String,
    san: String,
    after: String,
}

/// What every move holds: stepping from its position by its UCI, or by its
/// SAN text, gives its UCI, SAN and resulting position.
pub open spec fn move_holds(v: MoveView) -> bool {
    step_holds(v.before, v.uci, v.san, v.after)
}

impl ChessMove {
    #[verifier::type_invariant]
    spec fn holds(self) -> bool {
        move_holds(self@)
    }
}

impl Clone for ChessMove {
    fn clone(&self) -> (m: ChessMove)
        ensures
            m@ == self@,
    {
        proof { use_type_invariant(self); }
        ChessMove {
            before: self.before.clone(),
            uci: self.uci.clone(),
            san: self.san.clone(),
            after: self.after.clone(),
        }
    }
}

/// The view of a move: the FEN it is played from, its UCI, its SAN with
/// check suffix, and the FEN it leads to.
pub ghost struct MoveView {
    pub before: Seq<char>,
    pub uci: Seq<char>,
    pub san: Seq<char>,
    pub after: Seq<char>,
}

impl View for ChessMove {
    type V = MoveView;

    closed spec fn view(&self) -> MoveView {
        MoveView { before: self.before@, uci: self.uci@, san: self.san@, after: self.after@ }
    }
}

impl ChessMove {
    pub fn uci(&self) -> (s: String)
        ensures
            s@ == self@.uci,
    {
        self.uci.clone()
    }

    pub fn san(&self) -> (s: String)
        ensures
            s@ == self@.san,
    {
        self.san.clone()
    }

    /// The move's UCI; stepping by it from the move's position gives the
    /// move again.
    pub fn uci_ref(&self) -> (s: &String)
        ensures
            s@ == self@.uci,
            move_holds(self@),
    {
        proof { use_type_invariant(self); }
        &self.uci
    }

    /// The move's UCI, its SAN and the position it leads to.
    pub fn into_parts(self) -> (r: (String, String, Position))
        ensures
            r.0@ == self@.uci,
            r.1@ == self@.san,
            r.2@ == self@.after,
            move_holds(self@),
    {
        proof { use_type_invariant(&self); }
        (self.uci, self.san, Position { fen: self.after })
    }

    /// The position the move is played from.
    pub fn before_position(&self) -> (p: Position)
        ensures
            p@ == self@.before,
    {
        Position { fen: self.before.clone() }
    }

    pub fn uci_str(&self) -> (s: &str)
        ensures
            s@ == self@.uci,
    {
        self.uci.as_str()
    }

    pub fn san_str(&self) -> (s: &str)
        ensures
            s@ == self@.san,
    {
        self.san.as_str()
    }
}

impl Position {
    /// The standard starting position.
    pub fn start() -> (p: Position)
        ensures
            p@ == start_fen(),
    {
        Position { fen: default_fen() }
    }

    /// The position a FEN describes, as shakmaty normalizes it; `None` when
    /// shakmaty rejects the FEN.
    pub fn from_fen(fen: &str) -> (p: Option<Position>)
        ensures
            match p {
                Some(p) => normalized_fen(fen@) == Some(p@),
                None => normalized_fen(fen@) is None,
            },
    {
        match normalize_fen(fen) {
            Some(s) => Some(Position { fen: s }),
            None => None,
        }
    }

    pub fn fen(&self) -> (s: String)
        ensures
            s@ == self@,
    {
        self.fen.clone()
    }

    pub fn fen_str(&self) -> (s: &str)
        ensures
            s@ == self@,
    {
        self.fen.as_str()
    }

    /// Whether White is to move.
    pub fn white_to_move(&self) -> (b: bool)
        ensures
            b == fen_white_to_move(self@),
    {
        let chars = chars_of(self.fen.as_str());
        let f = field_at(&chars, ' ', 1);
        let b = f.len() == 1 && f[0] == 'w';
        assert(b == (f@ =~= seq!['w']));
        b
    }

    /// The side to move.
    pub fn turn(&self) -> (s: Side)
        ensures
            s == (if fen_white_to_move(self@) { Side::White } else { Side::Black }),
    {
        if self.white_to_move() { Side::White } else { Side::Black }
    }

    /// The fullmove number.
    pub fn fullmoves(&self) -> (n: u32)
        ensures
            n == fen_fullmoves(self@),
            n >= 1,
    {
        let chars = chars_of(self.fen.as_str());
        let f = field_at(&chars, ' ', 5);
        assert(chars@ == self@);
        assert(f@ == field(self@, ' ', 5));
        if f.len() == 0 {
            return 1;
        }
        let mut i: usize = 0;
        while i < f.len()
            invariant
                i <= f@.len(),
                f@ == field(self@, ' ', 5),
                forall|j: int| 0 <= j < i ==> crate::text::is_digit(#[trigger] f@[j]),
            decreases f@.len() - i,
        {
            if !is_ascii_digit(f[i]) {
                assert(!crate::text::is_digit(f@[i as int]));
                assert(!all_digits(f@));
                return 1;
            }
            i = i + 1;
        }
        assert(f@.subrange(0, f@.len() as int) =~= f@);
        match digits_upto(&f, 0, f.len(), 4294967295u64) {
            Some(v) => if v == 0 { 1 } else { v as u32 },
            None => 1,
        }
    }

    /// The UCI move `uci` played from here, `None` when it does not parse or
    /// is not legal here.
    pub fn uci_move(&self, uci: &str) -> (m: Option<ChessMove>)
        ensures
            match m {
                Some(m) => m@.before == self@ && uci_step(self@, uci@) == Some((m@.uci, m@.san, m@.after)),
                None => uci_step(self@, uci@) is None,
            },
    {
        match step_uci(self.fen.as_str(), uci) {
            Some((u, s, a)) => Some(ChessMove { before: self.fen.clone(), uci: u, san: s, after: a }),
            None => None,
        }
    }

    /// The SAN move `san` played from here, `None` when it does not parse or
    /// is not legal here.
    pub fn san_move(&self, san: &str) -> (m: Option<ChessMove>)
        ensures
            match m {
                Some(m) => m@.before == self@ && san_step(self@, san@) == Some((m@.uci, m@.san, m@.after)),
                None => san_step(self@, san@) is None,
            },
    {
        match step_san(self.fen.as_str(), san) {
            Some((u, s, a)) => Some(ChessMove { before: self.fen.clone(), uci: u, san: s, after: a }),
            None => None,
        }
    }

    /// Whether `san` is syntactically a SAN move.
    pub fn is_san_syntax(san: &str) -> (b: bool)
        ensures
            b == san_syntax_ok(san@),
            san@.len() == 0 ==> !b,
    {
        san_parses(san)
    }

    /// Whether `uci` is syntactically a UCI move (`e2e4`, `e7e8q`, `0000`,
    /// `P@e4`).
    pub fn is_uci_syntax(uci: &str) -> (b: bool)
        ensures
            b == uci_syntax_ok(uci@),
    {
        uci_parses(uci)
    }

    /// The SAN, without check suffix, of the UCI move `uci` from here.
    pub fn plain_san(&self, uci: &str) -> (s: Option<String>)
        ensures
            match s {
                Some(s) => plain_san(self@, uci@) == Some(s@),
                None => plain_san(self@, uci@) is None,
            },
    {
        san_without_suffix(self.fen.as_str(), uci)
    }

    /// The origin and destination squares of the UCI move `uci` from here.
    pub fn move_squares(&self, uci: &str) -> (r: Option<(u8, u8)>)
        ensures
            r == move_squares(self@, uci@),
    {
        squares_of(self.fen.as_str(), uci)
    }

    /// The outcome of the game in this position.
    pub fn outcome(&self) -> (o: Outcome)
        ensures
            o == outcome_of(self@),
    {
        outcome_at(self.fen.as_str())
    }

    /// The legal moves here, in shakmaty's order.
    pub fn legal_moves(&self) -> (ms: Vec<ChessMove>)
        ensures
            ms@.map_values(|m: ChessMove| m@) == moves_via(self@, legal_ucis_of(self@), 0),
    {
        let ucis = legal_ucis(self.fen.as_str());
        let ghost us = ucis@.map_values(|u: String| u@);
        let mut out: Vec<ChessMove> = Vec::new();
        let mut k: usize = 0;
        while k < ucis.len()
            invariant
                us == ucis@.map_values(|u: String| u@),
                us == legal_ucis_of(self@),
                k <= ucis@.len(),
                moves_via(self@, us, 0) == out@.map_values(|m: ChessMove| m@) + moves_via(self@, us, k as int),
            decreases ucis@.len() - k,
        {
            assert(ucis@[k as int]@ == us[k as int]);
            let ghost before = out@.map_values(|m: ChessMove| m@);
            match self.uci_move(ucis[k].as_str()) {
                Some(m) => {
                    out.push(m);
                    assert(out@.map_values(|m: ChessMove| m@) =~= before.push(out@[out@.len() - 1]@));
                    assert(before.push(out@[out@.len() - 1]@) + moves_via(self@, us, k + 1) =~= before + moves_via(self@, us, k as int));
                },
                None => {},
            }
            k = k + 1;
        }
        assert(out@.map_values(|m: ChessMove| m@) + moves_via(self@, us, k as int) =~= out@.map_values(|m: ChessMove| m@));
        out
    }

    /// Whether the side to move is in check.
    pub fn is_check(&self) -> (b: bool)
        ensures
            b == check_of(self@),
    {
        in_check(self.fen.as_str())
    }

    /// This position with the other side to move, when that is a position.
    pub fn swap_turn(&self) -> (p: Option<Position>)
        ensures
            match p {
                Some(p) => swapped_fen(self@) == Some(p@),
                None => swapped_fen(self@) is None,
            },
    {
        match swap_side(self.fen.as_str()) {
            Some(f) => Some(Position { fen: f }),
            None => None,
        }
    }

    /// The position after `m`, which must be a move from this position.
    pub fn after(m: &ChessMove) -> (p: Position)
        ensures
            p@ == m@.after,
    {
        Position { fen: m.after.clone() }
    }
}

/// The squares a piece with FEN letter `piece` on `sq` attacks on an empty
/// board.
pub fn piece_attacks(sq: u8, piece: char) -> (r: Vec<u8>)
    requires
        sq < 64,
    ensures
        r@ == attacks_of(sq, piece),
{
    attack_squares(sq, piece)
}

} // verus!
