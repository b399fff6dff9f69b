//! A game in progress: its players, configuration, clocks and position.

use vstd::prelude::*;
use crate::board::{board_of, move_origin, move_target, pieces, uci_square};
use crate::matchmaking::GameConfig;
use crate::player::Side;
use crate::position::{fen_white_to_move, outcome_of, start_fen, uci_step, uci_syntax_ok, ChessMove, Outcome, Position};

verus! {

#[verifier::external_type_specification]
#[verifier::external_body]
pub struct ExUuid(uuid::Uuid);

/// `Uuid::new_v4`: a random identifier, of which nothing is claimed.
#[verifier::external_body]
fn random_id() -> (id: uuid::Uuid) {
    uuid::Uuid::new_v4()
}

/// `Uuid == Uuid`: the two identifiers are equal exactly when they are the
/// same value (the derived comparison of their bytes).
#[verifier::external_body]
pub(crate) fn same_id(a: &uuid::Uuid, b: &uuid::Uuid) -> (r: bool)
    ensures
        r == (*a == *b),
{
    a == b
}

/// A player as shown in a game: id, optional username and avatar, rating.
#[derive(Debug)]
pub struct PlayerInfo {
    pub id: uuid::Uuid,
    pub username: Option<String>,
    pub avatar_url: Option<String>,
    pub rating: i32,
}

/// What a client is told about a game: its players, the clocks as of
/// `sent_at_ms`, whether they are running, and its configuration.
#[derive(Debug)]
pub struct GameInfo {
    pub id: uuid::Uuid,
    pub white: PlayerInfo,
    pub black: PlayerInfo,
    pub white_ms_left: i64,
    pub black_ms_left: i64,
    pub sent_at_ms: i64,
    pub clock_running: bool,
    pub config: GameConfig,
}

#[derive(Debug, Clone)]
pub enum GameStatus {
    Ongoing,
    Finished(Outcome),
    WaitingForOpponent,
}

/// Why a move could not be played.
#[derive(Debug, Clone, Copy, PartialEq, Eq, Structural)]
pub enum PlayError {
    /// The text is not a UCI move.
    BadUci,
    /// The move is not legal in the current position.
    Illegal,
}

#[derive(Debug)]
pub struct Game {
    pub id: uuid::Uuid,
    pub config: GameConfig,
    pub position: Position,
    pub white_player: uuid::Uuid,
    pub black_player: uuid::Uuid,
    pub white_ms_left: i64,
    pub black_ms_left: i64,
}

/// The result of playing the UCI move `uci` in the position `fen`: the
/// position after it and the outcome there, or why it cannot be played.
pub open spec fn play_result(fen: Seq<char>, uci: Seq<char>) -> Result<(Seq<char>, Outcome), PlayError> {
    if !uci_syntax_ok(uci) {
        Err(PlayError::BadUci)
    } else {
        match uci_step(fen, uci) {
            Some((_u, _san, after)) => Ok((after, outcome_of(after))),
            None => Err(PlayError::Illegal),
        }
    }
}

/// Whether the origin and destination squares of the UCI move `uci` hold
/// the same thing in the positions `before` and `now`.
pub open spec fn same_squares(before: Seq<char>, now: Seq<char>, uci: Seq<char>) -> bool {
    match (uci_square(uci, 0), uci_square(uci, 2)) {
        (Some(f), Some(t)) => board_of(before)[f as int] == board_of(now)[f as int] && board_of(before)[t as int]
            == board_of(now)[t as int],
        _ => false,
    }
}

fn same_piece(a: Option<char>, b: Option<char>) -> (r: bool)
    ensures
        r == (a == b),
{
    match (a, b) {
        (Some(x), Some(y)) => x == y,
        (None, None) => true,
        _ => false,
    }
}

impl Game {
    /// A new game from the standard start, with a fresh random id and both
    /// clocks at the time control's initial time.
    pub fn new(config: GameConfig, white_player: uuid::Uuid, black_player: uuid::Uuid) -> (g: Game)
        ensures
            g.position@ == start_fen(),
            g.white_ms_left == config.time_control.initial_time,
            g.black_ms_left == config.time_control.initial_time,
            g.white_player == white_player,
            g.black_player == black_player,
            g.config == config,
    {
        let initial = config.time_control.initial_time;
        Game {
            id: random_id(),
            config,
            position: Position::start(),
            white_player,
            black_player,
            white_ms_left: initial,
            black_ms_left: initial,
        }
    }

    /// Plays the UCI move `uci`, returning the outcome in the new position;
    /// on an error the game is left as it was.
    pub fn play_uci(&mut self, uci: &str) -> (r: Result<Outcome, PlayError>)
        ensures
            match play_result(old(self).position@, uci@) {
                Ok((after, o)) => r == Ok::<Outcome, PlayError>(o) && final(self).position@ == after,
                Err(e) => r == Err::<Outcome, PlayError>(e) && final(self).position@ == old(self).position@,
            },
            final(self).id == old(self).id,
            final(self).config == old(self).config,
            final(self).white_player == old(self).white_player,
            final(self).black_player == old(self).black_player,
            final(self).white_ms_left == old(self).white_ms_left,
            final(self).black_ms_left == old(self).black_ms_left,
    {
        if !Position::is_uci_syntax(uci) {
            return Err(PlayError::BadUci);
        }
        match self.position.uci_move(uci) {
            Some(m) => {
                self.position = Position::after(&m);
                Ok(self.position.outcome())
            },
            None => Err(PlayError::Illegal),
        }
    }

    /// Plays `m` in the current position, returning the outcome there. A
    /// move stands for the piece it moves and the square it lands on as they
    /// were where it was made: a move whose origin or destination square
    /// holds something else here (another piece, or a capture that is not
    /// there) is a different move, and is refused as illegal. Otherwise the
    /// move is played by its UCI. An illegal move leaves the game as it was.
    pub fn make_move(&mut self, m: &ChessMove) -> (r: Result<Outcome, PlayError>)
        ensures
            if !same_squares(m@.before, old(self).position@, m@.uci) {
                r == Err::<Outcome, PlayError>(PlayError::Illegal) && final(self).position@ == old(self).position@
            } else {
                match play_result(old(self).position@, m@.uci) {
                    Ok((after, o)) => r == Ok::<Outcome, PlayError>(o) && final(self).position@ == after,
                    Err(e) => r == Err::<Outcome, PlayError>(e) && final(self).position@ == old(self).position@,
                }
            },
            final(self).id == old(self).id,
            final(self).config == old(self).config,
            final(self).white_player == old(self).white_player,
            final(self).black_player == old(self).black_player,
            final(self).white_ms_left == old(self).white_ms_left,
            final(self).black_ms_left == old(self).black_ms_left,
    {
        let (from, to) = match (move_origin(m), move_target(m)) {
            (Some(f), Some(t)) => (f, t),
            _ => {
                return Err(PlayError::Illegal);
            },
        };
        let there = pieces(&m.before_position());
        let here = pieces(&self.position);
        if !same_piece(there[from as usize], here[from as usize]) || !same_piece(there[to as usize], here[to as usize]) {
            return Err(PlayError::Illegal);
        }
        self.play_uci(m.uci_str())
    }

    /// The side to move.
    pub fn get_turn(&self) -> (s: Side)
        ensures
            s == (if fen_white_to_move(self.position@) { Side::White } else { Side::Black }),
    {
        self.position.turn()
    }
}

} // verus!
