//! A player's live view of a game over the game socket: how each server
//! event, each move the player makes and each queued premove change the
//! view, and what the client must do in return (play a sound, send a move,
//! reconnect, open another game). The socket, timers and rendering drive
//! this from outside.

use vstd::prelude::*;
use crate::board::{goes_between, uci_square};
use crate::game::same_id;
use crate::matchmaking::trunc_div;
use crate::messages::{rtt_bucket, rtt_level, GameClientMessage, GameOverReason};
use crate::player::{other_side, role_side, PlayerRole, Side};
use crate::position::{
    fen_white_to_move, legal_ucis_of, move_squares, moves_via, normalized_fen, uci_step, ChessMove, MoveView, Outcome,
    Position,
};
use crate::text::{chars_of, nat_text, push_nat, push_str, string_of};

verus! {

#[derive(Debug, Clone, Copy, PartialEq, Eq, Structural)]
pub enum DrawOfferState {
    Idle,
    Offering,
    OfferedToUs,
}

#[derive(Debug, Clone, Copy, PartialEq, Eq, Structural)]
pub enum RematchState {
    Idle,
    Offering,
    OfferedToUs,
    Declined,
}

/// A server event about the game being played (the server's game
/// messages, without the session scores, which only pass through to the
/// display).
pub enum SessionEvent {
    UserJoined { uuid: uuid::Uuid, position_fen: String, player_role: PlayerRole, moves: Vec<String> },
    UserLeft { username: String },
    MoveMade { uci: String, white_ms_left: i64, black_ms_left: i64, turn: Side, sent_at_ms: i64 },
    Chat { user: uuid::Uuid, text: String },
    ClockSync { white_ms_left: i64, black_ms_left: i64, turn: Side, sent_at_ms: i64, clock_running: bool },
    Resync {
        position_fen: String,
        moves: Vec<String>,
        white_ms_left: i64,
        black_ms_left: i64,
        turn: Side,
        sent_at_ms: i64,
        clock_running: bool,
    },
    GameOver { winner: Option<Side>, reason: GameOverReason },
    RematchOffer { from: uuid::Uuid },
    RematchAccept { new_game_id: uuid::Uuid },
    RematchDecline,
    RematchCancel,
    DrawOffer { from: uuid::Uuid },
    DrawDecline,
    AbortCountdown { side: Option<Side>, deadline_ms: Option<i64> },
    Pong { client_time_ms: i64, server_time_ms: i64 },
    PresenceUpdate { side: Side, connected: bool, rtt_ms: Option<u32> },
}

/// A sound to play: a fixed cue, or the sound for the move `uci` that led
/// to `fen_after`.
pub enum Sound {
    GameStart,
    Move,
    Draw,
    Victory,
    Defeat,
    MovePlayed { uci: String, fen_after: String },
}

pub ghost enum SoundView {
    GameStart,
    Move,
    Draw,
    Victory,
    Defeat,
    MovePlayed(Seq<char>, Seq<char>),
}

impl View for Sound {
    type V = SoundView;

    open spec fn view(&self) -> SoundView {
        match self {
            Sound::GameStart => SoundView::GameStart,
            Sound::Move => SoundView::Move,
            Sound::Draw => SoundView::Draw,
            Sound::Victory => SoundView::Victory,
            Sound::Defeat => SoundView::Defeat,
            Sound::MovePlayed { uci, fen_after } => SoundView::MovePlayed(uci@, fen_after@),
        }
    }
}

/// What the client must do after a step: sounds to play in order, a move
/// to send (its UCI and the client time), whether to drop the connection
/// and reconnect, and a game to open.
pub struct Effects {
    pub sounds: Vec<Sound>,
    pub send_move: Option<(String, i64)>,
    pub reconnect: bool,
    pub open_game: Option<uuid::Uuid>,
}

pub ghost struct EffectsView {
    pub sounds: Seq<SoundView>,
    pub send_move: Option<(Seq<char>, i64)>,
    pub reconnect: bool,
    pub open_game: Option<uuid::Uuid>,
}

impl View for Effects {
    type V = EffectsView;

    open spec fn view(&self) -> EffectsView {
        EffectsView {
            sounds: self.sounds@.map_values(|s: Sound| s@),
            send_move: match self.send_move {
                Some((u, t)) => Some((u@, t)),
                None => None,
            },
            reconnect: self.reconnect,
            open_game: self.open_game,
        }
    }
}

pub open spec fn no_effects() -> EffectsView {
    EffectsView { sounds: Seq::empty(), send_move: None, reconnect: false, open_game: None }
}

/// The client's view of a game in progress.
pub struct PlayView {
    pub position: Position,
    pub role: Option<PlayerRole>,
    pub history: Vec<String>,
    pub white_ms: i64,
    pub black_ms: i64,
    /// Server time at which the clock readings were taken.
    pub sent_at_ms: i64,
    pub clock_running: bool,
    pub last_move: Option<(u8, u8)>,
    /// Queued premoves, as (from, to) squares.
    pub premoves: Vec<(u8, u8)>,
    pub rematch: RematchState,
    pub draw_offer: DrawOfferState,
    pub result: Option<Outcome>,
    pub end_reason: Option<GameOverReason>,
    pub abort_side: Option<Side>,
    pub abort_deadline_ms: Option<i64>,
    /// The UCI of the last move sent, until the server echoes it.
    pub last_sent_uci: Option<String>,
    /// Recent (round trip, offset) measurements, oldest first.
    pub offset_samples: Vec<(i64, i64)>,
    /// Server clock minus client clock, as best measured.
    pub clock_offset_ms: i64,
}

pub ghost struct PlayState {
    pub position: Seq<char>,
    pub role: Option<PlayerRole>,
    pub history: Seq<Seq<char>>,
    pub white_ms: i64,
    pub black_ms: i64,
    pub sent_at_ms: i64,
    pub clock_running: bool,
    pub last_move: Option<(u8, u8)>,
    pub premoves: Seq<(u8, u8)>,
    pub rematch: RematchState,
    pub draw_offer: DrawOfferState,
    pub result: Option<Outcome>,
    pub end_reason: Option<GameOverReason>,
    pub abort_side: Option<Side>,
    pub abort_deadline_ms: Option<i64>,
    pub last_sent_uci: Option<Seq<char>>,
    pub offset_samples: Seq<(i64, i64)>,
    pub clock_offset_ms: i64,
}

impl View for PlayView {
    type V = PlayState;

    open spec fn view(&self) -> PlayState {
        PlayState {
            position: self.position@,
            role: self.role,
            history: self.history@.map_values(|s: String| s@),
            white_ms: self.white_ms,
            black_ms: self.black_ms,
            sent_at_ms: self.sent_at_ms,
            clock_running: self.clock_running,
            last_move: self.last_move,
            premoves: self.premoves@,
            rematch: self.rematch,
            draw_offer: self.draw_offer,
            result: self.result,
            end_reason: self.end_reason,
            abort_side: self.abort_side,
            abort_deadline_ms: self.abort_deadline_ms,
            last_sent_uci: match self.last_sent_uci {
                Some(u) => Some(u@),
                None => None,
            },
            offset_samples: self.offset_samples@,
            clock_offset_ms: self.clock_offset_ms,
        }
    }
}

/// The largest magnitude (2^61 ms, some seventy million years) of a clock
/// reading or timestamp the session takes. The widest sum the session
/// computes is the clock offset of a pong, `server - (client + (now -
/// client) / 2)`, which stays within 2^63 when each time is within 2^61;
/// the other sums (elapsed time, time left) stay smaller. Every reading the
/// session stores is either taken from its inputs or a clock clamped at
/// zero, so a state within the range stays within it from step to step; a
/// bound per operation instead would have to be carried through every
/// later step.
pub const TIME_RANGE_MS: i64 = 2_305_843_009_213_693_952;

/// A clock reading or timestamp within `TIME_RANGE_MS` of zero.
pub open spec fn in_time_range(x: i64) -> bool {
    -TIME_RANGE_MS <= x <= TIME_RANGE_MS
}

/// Clock readings and timestamps are within `TIME_RANGE_MS`.
pub open spec fn sane(v: PlayState) -> bool {
    in_time_range(v.white_ms) && in_time_range(v.black_ms) && in_time_range(v.sent_at_ms)
}

/// The times and clock readings an event carries are within
/// `TIME_RANGE_MS`.
pub open spec fn event_sane(ev: SessionEvent) -> bool {
    match ev {
        SessionEvent::MoveMade { white_ms_left, black_ms_left, sent_at_ms, .. } => in_time_range(white_ms_left)
            && in_time_range(black_ms_left) && in_time_range(sent_at_ms),
        SessionEvent::ClockSync { white_ms_left, black_ms_left, sent_at_ms, .. } => in_time_range(white_ms_left)
            && in_time_range(black_ms_left) && in_time_range(sent_at_ms),
        SessionEvent::Resync { white_ms_left, black_ms_left, sent_at_ms, .. } => in_time_range(white_ms_left)
            && in_time_range(black_ms_left) && in_time_range(sent_at_ms),
        SessionEvent::Pong { client_time_ms, server_time_ms } => in_time_range(client_time_ms) && in_time_range(
            server_time_ms,
        ),
        _ => true,
    }
}

pub open spec fn side_to_move(fen: Seq<char>) -> Side {
    if fen_white_to_move(fen) { Side::White } else { Side::Black }
}

/// The side the player plays, if any.
pub open spec fn player_side(role: Option<PlayerRole>) -> Option<Side> {
    match role {
        Some(r) => role_side(r),
        None => None,
    }
}

/// Whether the player holds the side to move.
pub open spec fn my_turn(v: PlayState) -> bool {
    player_side(v.role) == Some(side_to_move(v.position))
}

/// A move the player makes with the UCI `uci` at client time `now`: only
/// on the player's own turn and when legal. The mover's clock loses the
/// time since the last reading (never below zero) when clocks run, the
/// board advances, and the move is sent and remembered until echoed.
pub open spec fn local_move(v: PlayState, uci: Seq<char>, now: i64) -> (PlayState, EffectsView) {
    if !my_turn(v) {
        (v, no_effects())
    } else {
        match uci_step(v.position, uci) {
            None => (v, no_effects()),
            Some((nu, _san, after)) => {
                let elapsed = if now - v.sent_at_ms > 0 { now - v.sent_at_ms } else { 0 };
                let white = fen_white_to_move(v.position);
                let (w, b, sent) = if v.clock_running {
                    if white {
                        ((if v.white_ms - elapsed > 0 { v.white_ms - elapsed } else { 0 }) as i64, v.black_ms, now)
                    } else {
                        (v.white_ms, (if v.black_ms - elapsed > 0 { v.black_ms - elapsed } else { 0 }) as i64, now)
                    }
                } else {
                    (v.white_ms, v.black_ms, v.sent_at_ms)
                };
                let v2 = PlayState {
                    position: after,
                    white_ms: w,
                    black_ms: b,
                    sent_at_ms: sent,
                    last_move: match move_squares(v.position, uci) {
                        Some(sq) => Some(sq),
                        None => v.last_move,
                    },
                    last_sent_uci: Some(nu),
                    ..v
                };
                (v2, EffectsView { sounds: seq![SoundView::MovePlayed(nu, after)], send_move: Some((nu, now)), ..no_effects() })
            },
        }
    }
}

/// Whether a UCI move promotes to nothing or to a queen (a premove never
/// underpromotes).
pub open spec fn queen_or_none(u: Seq<char>) -> bool {
    u.len() <= 4 || u[4] == 'q'
}

/// The first move of `ms` from `from` to `to` that is not an
/// underpromotion.
pub open spec fn premove_match(ms: Seq<MoveView>, from: u8, to: u8, k: int) -> Option<MoveView>
    decreases ms.len() - k,
{
    if 0 <= k < ms.len() {
        if goes_between(ms[k], from, to) && queen_or_none(ms[k].uci) {
            Some(ms[k])
        } else {
            premove_match(ms, from, to, k + 1)
        }
    } else {
        None
    }
}

/// After the opponent's move: on the player's turn the first queued
/// premove is played when a legal move matches it, otherwise the queue is
/// dropped.
pub open spec fn premove_step(v: PlayState, now: i64) -> (PlayState, EffectsView) {
    if my_turn(v) && v.premoves.len() > 0 {
        let (from, to) = v.premoves[0];
        match premove_match(moves_via(v.position, legal_ucis_of(v.position), 0), from, to, 0) {
            Some(m) => local_move(PlayState { premoves: v.premoves.drop_first(), ..v }, m.uci, now),
            None => (PlayState { premoves: Seq::empty(), ..v }, no_effects()),
        }
    } else {
        (v, no_effects())
    }
}

/// Reasons that end a game with a winner.
pub open spec fn decisive(reason: GameOverReason) -> bool {
    reason == GameOverReason::Abort || reason == GameOverReason::Checkmate || reason == GameOverReason::Timeout
        || reason == GameOverReason::Resignation
}

/// The sound at the end of a game: a draw, the player's win or loss, or a
/// plain move sound for a spectator.
pub open spec fn end_sound(winner: Option<Side>, mine: Option<Side>) -> SoundView {
    match (winner, mine) {
        (None, _) => SoundView::Draw,
        (Some(w), Some(m)) => if w == m { SoundView::Victory } else { SoundView::Defeat },
        (Some(_), None) => SoundView::Move,
    }
}

/// The last 16 samples.
pub open spec fn keep_recent(s: Seq<(i64, i64)>) -> Seq<(i64, i64)> {
    if s.len() > 16 { s.subrange(s.len() - 16, s.len() as int) } else { s }
}

/// The index of the first sample with the shortest round trip, scanning
/// from `i` with the best so far at `best`.
pub open spec fn first_min(s: Seq<(i64, i64)>, i: int, best: int) -> int
    decreases s.len() - i,
{
    if 0 <= i < s.len() {
        first_min(s, i + 1, if s[i].0 < s[best].0 { i } else { best })
    } else {
        best
    }
}

/// The view after a position FEN from the server: adopted when it reads.
pub open spec fn with_fen(v: PlayState, fen: Seq<char>) -> PlayState {
    match normalized_fen(fen) {
        Some(p) => PlayState { position: p, ..v },
        None => v,
    }
}

/// How the view changes on a server event, and what follows; `me` is the
/// player and `now` the client time.
pub open spec fn server_step(v: PlayState, ev: SessionEvent, me: uuid::Uuid, now: i64) -> (PlayState, EffectsView) {
    match ev {
        SessionEvent::UserJoined { uuid, position_fen, player_role, moves } => {
            let v1 = with_fen(v, position_fen@);
            if uuid == me && v.role is None {
                (
                    PlayState { role: Some(player_role), history: moves@.map_values(|s: String| s@), ..v1 },
                    EffectsView { sounds: seq![SoundView::GameStart], ..no_effects() },
                )
            } else {
                (v1, no_effects())
            }
        },
        SessionEvent::MoveMade { uci, white_ms_left, black_ms_left, sent_at_ms, .. } => {
            let v1 = PlayState {
                white_ms: white_ms_left,
                black_ms: black_ms_left,
                sent_at_ms,
                clock_running: true,
                history: v.history.push(uci@),
                ..v
            };
            if v.last_sent_uci == Some(uci@) {
                (PlayState { last_sent_uci: None, ..v1 }, no_effects())
            } else {
                match uci_step(v.position, uci@) {
                    None => (v1, EffectsView { reconnect: true, ..no_effects() }),
                    Some((nu, _san, after)) => {
                        let v2 = PlayState {
                            position: after,
                            last_move: match move_squares(v.position, uci@) {
                                Some(sq) => Some(sq),
                                None => v1.last_move,
                            },
                            ..v1
                        };
                        let (v3, e) = premove_step(v2, now);
                        (v3, EffectsView { sounds: seq![SoundView::MovePlayed(nu, after)] + e.sounds, ..e })
                    },
                }
            }
        },
        SessionEvent::GameOver { winner, reason } => {
            let outcome = if decisive(reason) {
                Outcome::Decisive(
                    match winner {
                        Some(w) => w,
                        None => other_side(side_to_move(v.position)),
                    },
                )
            } else {
                Outcome::Draw
            };
            (
                PlayState {
                    result: Some(outcome),
                    end_reason: Some(reason),
                    draw_offer: DrawOfferState::Idle,
                    clock_running: false,
                    ..v
                },
                EffectsView { sounds: seq![end_sound(winner, player_side(v.role))], ..no_effects() },
            )
        },
        SessionEvent::ClockSync { white_ms_left, black_ms_left, sent_at_ms, clock_running, .. } => (
            PlayState { white_ms: white_ms_left, black_ms: black_ms_left, sent_at_ms, clock_running, ..v },
            no_effects(),
        ),
        SessionEvent::Resync { position_fen, moves, white_ms_left, black_ms_left, sent_at_ms, clock_running, .. } => (
            PlayState {
                history: moves@.map_values(|s: String| s@),
                premoves: Seq::empty(),
                white_ms: white_ms_left,
                black_ms: black_ms_left,
                sent_at_ms,
                clock_running,
                ..with_fen(v, position_fen@)
            },
            no_effects(),
        ),
        SessionEvent::RematchOffer { from } => if from != me {
            (PlayState { rematch: RematchState::OfferedToUs, ..v }, no_effects())
        } else {
            (v, no_effects())
        },
        SessionEvent::RematchAccept { new_game_id } => (v, EffectsView { open_game: Some(new_game_id), ..no_effects() }),
        SessionEvent::RematchDecline => (PlayState { rematch: RematchState::Declined, ..v }, no_effects()),
        SessionEvent::RematchCancel => (PlayState { rematch: RematchState::Idle, ..v }, no_effects()),
        SessionEvent::DrawOffer { from } => if from != me {
            (PlayState { draw_offer: DrawOfferState::OfferedToUs, ..v }, no_effects())
        } else {
            (v, no_effects())
        },
        SessionEvent::DrawDecline => (PlayState { draw_offer: DrawOfferState::Idle, ..v }, no_effects()),
        SessionEvent::AbortCountdown { side, deadline_ms } => (
            PlayState { abort_side: side, abort_deadline_ms: deadline_ms, ..v },
            no_effects(),
        ),
        SessionEvent::Pong { client_time_ms, server_time_ms } => {
            let rtt = now - client_time_ms;
            let offset = server_time_ms - (client_time_ms + trunc_div(rtt, 2));
            let s = keep_recent(v.offset_samples.push((rtt as i64, offset as i64)));
            (PlayState { offset_samples: s, clock_offset_ms: s[first_min(s, 1, 0)].1, ..v }, no_effects())
        },
        _ => (v, no_effects()),
    }
}

fn strings_equal(a: &String, b: &String) -> (r: bool)
    ensures
        r == (a@ == b@),
{
    let av = chars_of(a.as_str());
    crate::text::same_chars(&av, b.as_str())
}

fn no_effect_value() -> (e: Effects)
    ensures
        e@ == no_effects(),
{
    let e = Effects { sounds: Vec::new(), send_move: None, reconnect: false, open_game: None };
    assert(e@.sounds =~= Seq::<SoundView>::empty());
    e
}

fn first_min_index(s: &Vec<(i64, i64)>) -> (k: usize)
    requires
        s@.len() > 0,
    ensures
        k == first_min(s@, 1, 0),
        k < s@.len(),
{
    let mut best: usize = 0;
    let mut i: usize = 1;
    while i < s.len()
        invariant
            1 <= i <= s@.len(),
            best < i,
            first_min(s@, 1, 0) == first_min(s@, i as int, best as int),
        decreases s@.len() - i,
    {
        if s[i].0 < s[best].0 {
            best = i;
        }
        i = i + 1;
    }
    best
}

impl PlayView {
    /// A fresh view before the server has said anything: the start
    /// position, no role, stopped clocks at zero.
    pub fn new() -> (v: PlayView)
        ensures
            v@.position == crate::position::start_fen(),
            v@.role is None,
            v@.history.len() == 0,
            v@.premoves.len() == 0,
            sane(v@),
    {
        PlayView {
            position: Position::start(),
            role: None,
            history: Vec::new(),
            white_ms: 0,
            black_ms: 0,
            sent_at_ms: 0,
            clock_running: false,
            last_move: None,
            premoves: Vec::new(),
            rematch: RematchState::Idle,
            draw_offer: DrawOfferState::Idle,
            result: None,
            end_reason: None,
            abort_side: None,
            abort_deadline_ms: None,
            last_sent_uci: None,
            offset_samples: Vec::new(),
            clock_offset_ms: 0,
        }
    }

    /// The player makes the move `uci` at client time `now_ms`.
    pub fn local_move(&mut self, uci: &str, now_ms: i64) -> (e: Effects)
        requires
            sane(old(self)@),
            in_time_range(now_ms),
        ensures
            (final(self)@, e@) == local_move(old(self)@, uci@, now_ms),
            sane(final(self)@),
    {
        let my_side = match self.role {
            Some(r) => r.color(),
            None => None,
        };
        let turn = self.position.turn();
        if my_side != Some(turn) {
            return no_effect_value();
        }
        let m = match self.position.uci_move(uci) {
            Some(m) => m,
            None => {
                return no_effect_value();
            },
        };
        let white = self.position.white_to_move();
        if self.clock_running {
            let elapsed = if now_ms - self.sent_at_ms > 0 { now_ms - self.sent_at_ms } else { 0 };
            if white {
                self.white_ms = if self.white_ms - elapsed > 0 { self.white_ms - elapsed } else { 0 };
            } else {
                self.black_ms = if self.black_ms - elapsed > 0 { self.black_ms - elapsed } else { 0 };
            }
            self.sent_at_ms = now_ms;
        }
        match self.position.move_squares(uci) {
            Some(sq) => {
                self.last_move = Some(sq);
            },
            None => {},
        }
        let nu = m.uci();
        let nu2 = m.uci();
        let nu3 = m.uci();
        self.position = Position::after(&m);
        self.last_sent_uci = Some(nu);
        let mut sounds: Vec<Sound> = Vec::new();
        sounds.push(Sound::MovePlayed { uci: nu2, fen_after: self.position.fen() });
        let e = Effects { sounds, send_move: Some((nu3, now_ms)), reconnect: false, open_game: None };
        assert(e@.sounds =~= seq![SoundView::MovePlayed(m@.uci, m@.after)]);
        e
    }

    /// The player queues a premove from `from` to `to`.
    pub fn queue_premove(&mut self, from: u8, to: u8) -> (e: Effects)
        ensures
            final(self)@ == (PlayState { premoves: old(self)@.premoves.push((from, to)), ..old(self)@ }),
            e@ == (EffectsView { sounds: seq![SoundView::Move], ..no_effects() }),
    {
        self.premoves.push((from, to));
        let mut sounds: Vec<Sound> = Vec::new();
        sounds.push(Sound::Move);
        let e = Effects { sounds, send_move: None, reconnect: false, open_game: None };
        assert(e@.sounds =~= seq![SoundView::Move]);
        e
    }

    fn play_premove(&mut self, now_ms: i64) -> (e: Effects)
        requires
            sane(old(self)@),
            in_time_range(now_ms),
        ensures
            (final(self)@, e@) == premove_step(old(self)@, now_ms),
            sane(final(self)@),
    {
        let my_side = match self.role {
            Some(r) => r.color(),
            None => None,
        };
        let turn = self.position.turn();
        if my_side != Some(turn) || self.premoves.len() == 0 {
            return no_effect_value();
        }
        let (from, to) = self.premoves[0];
        let legal = self.position.legal_moves();
        let ghost lv = legal@.map_values(|m: ChessMove| m@);
        let mut k: usize = 0;
        let mut found: Option<usize> = None;
        while k < legal.len()
            invariant_except_break
                found is None,
                premove_match(lv, from, to, 0) == premove_match(lv, from, to, k as int),
            invariant
                lv == legal@.map_values(|m: ChessMove| m@),
                k <= legal@.len(),
            ensures
                match found {
                    Some(i) => i < legal@.len() && premove_match(lv, from, to, 0) == Some(lv[i as int]),
                    None => premove_match(lv, from, to, 0) is None,
                },
            decreases legal@.len() - k,
        {
            let u = chars_of(legal[k].uci_str());
            assert(u@ == lv[k as int].uci);
            let origin = crate::board::move_origin(&legal[k]);
            let target = crate::board::move_target(&legal[k]);
            let between = origin == Some(from) && target == Some(to);
            let q = u.len() <= 4 || u[4] == 'q';
            if between && q {
                found = Some(k);
                break;
            }
            k = k + 1;
        }
        match found {
            Some(i) => {
                self.premoves.remove(0);
                let u = legal[i].uci();
                self.local_move(u.as_str(), now_ms)
            },
            None => {
                self.premoves = Vec::new();
                no_effect_value()
            },
        }
    }

    /// Applies a server event received at client time `now_ms`; `me` is the
    /// player's id.
    pub fn apply(&mut self, ev: SessionEvent, me: &uuid::Uuid, now_ms: i64) -> (e: Effects)
        requires
            sane(old(self)@),
            event_sane(ev),
            in_time_range(now_ms),
        ensures
            (final(self)@, e@) == server_step(old(self)@, ev, *me, now_ms),
            sane(final(self)@),
    {
        let ghost v0 = self@;
        match ev {
            SessionEvent::UserJoined { uuid, position_fen, player_role, moves } => {
                let no_role = self.role.is_none();
                match Position::from_fen(position_fen.as_str()) {
                    Some(p) => {
                        self.position = p;
                    },
                    None => {},
                }
                if same_id(&uuid, me) && no_role {
                    self.role = Some(player_role);
                    self.history = moves;
                    let mut sounds: Vec<Sound> = Vec::new();
                    sounds.push(Sound::GameStart);
                    let e = Effects { sounds, send_move: None, reconnect: false, open_game: None };
                    assert(e@.sounds =~= seq![SoundView::GameStart]);
                    e
                } else {
                    no_effect_value()
                }
            },
            SessionEvent::MoveMade { uci, white_ms_left, black_ms_left, sent_at_ms, .. } => {
                self.white_ms = white_ms_left;
                self.black_ms = black_ms_left;
                self.sent_at_ms = sent_at_ms;
                self.clock_running = true;
                let ghost h0 = self.history@.map_values(|s: String| s@);
                self.history.push(uci.clone());
                assert(self.history@.map_values(|s: String| s@) =~= h0.push(uci@));
                let echo = match &self.last_sent_uci {
                    Some(u) => strings_equal(u, &uci),
                    None => false,
                };
                if echo {
                    self.last_sent_uci = None;
                    return no_effect_value();
                }
                let m = match self.position.uci_move(uci.as_str()) {
                    Some(m) => m,
                    None => {
                        let mut e = no_effect_value();
                        e.reconnect = true;
                        return e;
                    },
                };
                match self.position.move_squares(uci.as_str()) {
                    Some(sq) => {
                        self.last_move = Some(sq);
                    },
                    None => {},
                }
                self.position = Position::after(&m);
                let first = Sound::MovePlayed { uci: m.uci(), fen_after: self.position.fen() };
                let mut rest = self.play_premove(now_ms);
                let ghost later = rest@.sounds;
                let mut sounds: Vec<Sound> = Vec::new();
                sounds.push(first);
                sounds.append(&mut rest.sounds);
                let e = Effects { sounds, send_move: rest.send_move, reconnect: rest.reconnect, open_game: rest.open_game };
                assert(e@.sounds =~= seq![SoundView::MovePlayed(m@.uci, m@.after)] + later);
                e
            },
            SessionEvent::GameOver { winner, reason } => {
                let decisive = match reason {
                    GameOverReason::Abort | GameOverReason::Checkmate | GameOverReason::Timeout | GameOverReason::Resignation => true,
                    _ => false,
                };
                let outcome = if decisive {
                    Outcome::Decisive(
                        match winner {
                            Some(w) => w,
                            None => self.position.turn().opposite(),
                        },
                    )
                } else {
                    Outcome::Draw
                };
                self.result = Some(outcome);
                self.end_reason = Some(reason);
                let mine = match self.role {
                    Some(r) => r.color(),
                    None => None,
                };
                let sound = match (winner, mine) {
                    (None, _) => Sound::Draw,
                    (Some(w), Some(m)) => if w == m { Sound::Victory } else { Sound::Defeat },
                    (Some(_), None) => Sound::Move,
                };
                self.draw_offer = DrawOfferState::Idle;
                self.clock_running = false;
                let mut sounds: Vec<Sound> = Vec::new();
                sounds.push(sound);
                let e = Effects { sounds, send_move: None, reconnect: false, open_game: None };
                assert(e@.sounds =~= seq![end_sound(winner, player_side(v0.role))]);
                e
            },
            SessionEvent::ClockSync { white_ms_left, black_ms_left, sent_at_ms, clock_running, .. } => {
                self.white_ms = white_ms_left;
                self.black_ms = black_ms_left;
                self.sent_at_ms = sent_at_ms;
                self.clock_running = clock_running;
                no_effect_value()
            },
            SessionEvent::Resync { position_fen, moves, white_ms_left, black_ms_left, sent_at_ms, clock_running, .. } => {
                match Position::from_fen(position_fen.as_str()) {
                    Some(p) => {
                        self.position = p;
                    },
                    None => {},
                }
                self.history = moves;
                self.premoves = Vec::new();
                self.white_ms = white_ms_left;
                self.black_ms = black_ms_left;
                self.sent_at_ms = sent_at_ms;
                self.clock_running = clock_running;
                assert(self@.premoves =~= Seq::<(u8, u8)>::empty());
                no_effect_value()
            },
            SessionEvent::RematchOffer { from } => {
                if !same_id(&from, me) {
                    self.rematch = RematchState::OfferedToUs;
                }
                no_effect_value()
            },
            SessionEvent::RematchAccept { new_game_id } => {
                let mut e = no_effect_value();
                e.open_game = Some(new_game_id);
                e
            },
            SessionEvent::RematchDecline => {
                self.rematch = RematchState::Declined;
                no_effect_value()
            },
            SessionEvent::RematchCancel => {
                self.rematch = RematchState::Idle;
                no_effect_value()
            },
            SessionEvent::DrawOffer { from } => {
                if !same_id(&from, me) {
                    self.draw_offer = DrawOfferState::OfferedToUs;
                }
                no_effect_value()
            },
            SessionEvent::DrawDecline => {
                self.draw_offer = DrawOfferState::Idle;
                no_effect_value()
            },
            SessionEvent::AbortCountdown { side, deadline_ms } => {
                self.abort_side = side;
                self.abort_deadline_ms = deadline_ms;
                no_effect_value()
            },
            SessionEvent::Pong { client_time_ms, server_time_ms } => {
                let rtt = now_ms - client_time_ms;
                let half = crate::labels::tdiv(rtt, 2);
                let offset = server_time_ms - (client_time_ms + half);
                self.offset_samples.push((rtt, offset));
                if self.offset_samples.len() > 16 {
                    let n = self.offset_samples.len();
                    let mut kept: Vec<(i64, i64)> = Vec::new();
                    let mut i = n - 16;
                    while i < n
                        invariant
                            n == self.offset_samples@.len(),
                            n > 16,
                            n - 16 <= i <= n,
                            kept@ == self.offset_samples@.subrange(n - 16, i as int),
                        decreases n - i,
                    {
                        kept.push(self.offset_samples[i]);
                        i = i + 1;
                        assert(kept@ =~= self.offset_samples@.subrange(n - 16, i as int));
                    }
                    self.offset_samples = kept;
                }
                let k = first_min_index(&self.offset_samples);
                self.clock_offset_ms = self.offset_samples[k].1;
                no_effect_value()
            },
            _ => no_effect_value(),
        }
    }
}

/// What a running clock shows: the reading less the server time elapsed
/// since it was taken (client time plus the measured offset), never below
/// zero; a stopped clock shows its reading.
pub open spec fn shown_ms(snapshot_ms: int, sent_at_ms: int, active: bool, now_ms: int, offset_ms: int) -> int {
    if active {
        let left = snapshot_ms - ((now_ms + offset_ms) - sent_at_ms);
        if left > 0 { left } else { 0 }
    } else {
        snapshot_ms
    }
}

/// The reading a clock widget shows at client time `now_ms`.
pub fn displayed_clock(snapshot_ms: i64, sent_at_ms: i64, active: bool, now_ms: i64, offset_ms: i64) -> (ms: i64)
    requires
        active ==> i64::MIN <= now_ms + offset_ms <= i64::MAX,
        active ==> i64::MIN <= (now_ms + offset_ms) - sent_at_ms <= i64::MAX,
        active ==> i64::MIN <= snapshot_ms - ((now_ms + offset_ms) - sent_at_ms) <= i64::MAX,
    ensures
        ms == shown_ms(snapshot_ms as int, sent_at_ms as int, active, now_ms as int, offset_ms as int),
{
    if active {
        let server_now = now_ms + offset_ms;
        let elapsed = server_now - sent_at_ms;
        let left = snapshot_ms - elapsed;
        if left > 0 { left } else { 0 }
    } else {
        snapshot_ms
    }
}

/// The clock widget's style: muted when stopped or flagged, red under 20
/// seconds, plain otherwise.
pub fn clock_style(ms: i64, active: bool) -> (s: &'static str)
    ensures
        s@ == (if !active || ms == 0 {
            "text-zinc-300"@
        } else if ms < 20_000 {
            "bg-red-500 text-white font-bold"@
        } else {
            "bg-zinc-100 text-black"@
        }),
{
    if !active || ms == 0 {
        "text-zinc-300"
    } else if ms < 20_000 {
        "bg-red-500 text-white font-bold"
    } else {
        "bg-zinc-100 text-black"
    }
}

/// The clocks by screen position: the opponent's (top) and the viewer's
/// (bottom) reading, each with whether it is running (clocks run and it is
/// that side's turn).
pub fn clock_sides(
    perspective: crate::board::BoardPerspective,
    white_ms: i64,
    black_ms: i64,
    running: bool,
    white_to_move: bool,
) -> (r: (i64, bool, i64, bool))
    ensures
        r == (match perspective {
            crate::board::BoardPerspective::White => (black_ms, running && !white_to_move, white_ms, running && white_to_move),
            crate::board::BoardPerspective::Black => (white_ms, running && white_to_move, black_ms, running && !white_to_move),
        }),
{
    match perspective {
        crate::board::BoardPerspective::White => (black_ms, running && !white_to_move, white_ms, running && white_to_move),
        crate::board::BoardPerspective::Black => (white_ms, running && white_to_move, black_ms, running && !white_to_move),
    }
}

/// The abort deadline shown on `side`'s clock: the countdown's, when it
/// runs for that side.
pub fn side_abort_deadline(abort_side: Option<Side>, deadline_ms: Option<i64>, side: Side) -> (d: Option<i64>)
    ensures
        d == (if abort_side == Some(side) { deadline_ms } else { None }),
{
    match abort_side {
        Some(s) => if s == side { deadline_ms } else { None },
        None => None,
    }
}

/// Whether the player may pick up a piece of the given colour: only while
/// viewing the live position, and only their own pieces.
pub fn can_drag_piece(viewing_ply: Option<usize>, role: Option<PlayerRole>, piece_side: Side) -> (b: bool)
    ensures
        b == (viewing_ply is None && player_side(role) == Some(piece_side)),
{
    if viewing_ply.is_some() {
        return false;
    }
    match role {
        Some(PlayerRole::Player(s)) => s == piece_side,
        _ => false,
    }
}

/// The resign button: a first click arms it, a second one resigns and
/// disarms it. Returns whether to resign and whether it is armed after.
pub fn resign_click(armed: bool) -> (r: (bool, bool))
    ensures
        r == (armed, !armed),
{
    if armed { (true, false) } else { (false, true) }
}

/// How long an armed resign button waits for the confirming click before
/// it disarms itself (as if `armed` were false again), in milliseconds.
pub const RESIGN_CONFIRM_MS: u32 = 3_000;

/// What the low-time warning does after a change of the player's clock.
#[derive(Debug, Clone, Copy, PartialEq, Eq, Structural)]
pub enum LowTimeAction {
    /// Nothing to play (and any pending warning is dropped).
    Nothing,
    /// Play the warning now.
    PlayNow,
    /// Play the warning after this many milliseconds, unless the clock
    /// changes first.
    PlayIn(u32),
}

/// The low-time warning's decision, given whether it has already sounded
/// (`played`), the player's clock `ms` as of `sent_at_ms`, whether that
/// clock is running, and the time now: the warning sounds once when less
/// than twenty seconds remain, and is re-armed once the clock is back above
/// twenty seconds. Returns whether it has sounded after this step, and what
/// to do. A warning played later by `PlayIn` counts as sounded then.
pub open spec fn low_time_decision(played: bool, ms: i64, sent_at_ms: i64, active: bool, now_ms: i64) -> (bool, LowTimeAction) {
    let played = if ms > 20_000 && played { false } else { played };
    if played || !active || ms <= 0 {
        (played, LowTimeAction::Nothing)
    } else {
        let elapsed = if now_ms - sent_at_ms > 0 { now_ms - sent_at_ms } else { 0 };
        let remaining = ms - elapsed;
        if remaining <= 20_000 {
            (true, LowTimeAction::PlayNow)
        } else {
            (played, LowTimeAction::PlayIn((remaining - 20_000) as u32))
        }
    }
}

pub fn low_time_step(played: bool, ms: i64, sent_at_ms: i64, active: bool, now_ms: i64) -> (r: (bool, LowTimeAction))
    requires
        i64::MIN <= now_ms - sent_at_ms <= i64::MAX,
        i64::MIN <= ms - (now_ms - sent_at_ms) <= i64::MAX,
    ensures
        r == low_time_decision(played, ms, sent_at_ms, active, now_ms),
{
    let played = if ms > 20_000 && played { false } else { played };
    if played || !active || ms <= 0 {
        return (played, LowTimeAction::Nothing);
    }
    let diff = now_ms - sent_at_ms;
    let elapsed = if diff > 0 { diff } else { 0 };
    let remaining = ms - elapsed;
    if remaining <= 20_000 {
        (true, LowTimeAction::PlayNow)
    } else {
        (played, LowTimeAction::PlayIn((remaining - 20_000) as u32))
    }
}

/// The wait before reconnecting after `ms`: doubled, at most 30 seconds.
pub fn next_backoff(ms: u32) -> (next: u32)
    requires
        ms <= 30_000,
    ensures
        next == (if 2 * ms < 30_000 { 2 * ms } else { 30_000 }),
{
    if 2 * ms < 30_000 { 2 * ms } else { 30_000 }
}

/// Whether the socket has been silent too long (more than six seconds) and
/// should be dropped and reopened.
pub fn heartbeat_expired(now_ms: i64, last_message_at_ms: i64) -> (b: bool)
    requires
        i64::MIN <= now_ms - last_message_at_ms <= i64::MAX,
    ensures
        b == (now_ms - last_message_at_ms > 6_000),
{
    now_ms - last_message_at_ms > 6_000
}

/// The position after the first `n` moves of `history` replayed from the
/// start, moves that do not play being skipped.
pub open spec fn replayed(fen: Seq<char>, history: Seq<Seq<char>>, k: int, n: int) -> Seq<char>
    decreases n - k,
{
    if 0 <= k < n && k < history.len() {
        match uci_step(fen, history[k]) {
            Some((_u, _s, after)) => replayed(after, history, k + 1, n),
            None => replayed(fen, history, k + 1, n),
        }
    } else {
        fen
    }
}

/// The position on the board: the live one, or, while stepping through
/// the history, the one after the first `ply` moves.
pub fn display_position(live: &Position, history: &[String], viewing_ply: Option<usize>) -> (p: Position)
    ensures
        p@ == (match viewing_ply {
            None => live@,
            Some(n) => replayed(crate::position::start_fen(), history@.map_values(|s: String| s@), 0, n as int),
        }),
{
    match viewing_ply {
        None => live.clone(),
        Some(n) => {
            let ghost hv = history@.map_values(|s: String| s@);
            let mut pos = Position::start();
            let mut k: usize = 0;
            while k < n && k < history.len()
                invariant
                    hv == history@.map_values(|s: String| s@),
                    k <= n,
                    replayed(crate::position::start_fen(), hv, 0, n as int) == replayed(pos@, hv, k as int, n as int),
                decreases n - k,
            {
                assert(history@[k as int]@ == hv[k as int]);
                match pos.uci_move(history[k].as_str()) {
                    Some(m) => {
                        pos = Position::after(&m);
                    },
                    None => {},
                }
                k = k + 1;
            }
            pos
        },
    }
}

/// At the end of a game a player of side `mine` hears the result from
/// their own side: a win of their side is a victory, a win of the other
/// side a defeat, a game without a winner a draw; the end sound is the only
/// sound.
pub proof fn game_over_sound_follows_the_winner(
    v: PlayState,
    mine: Side,
    winner: Side,
    reason: GameOverReason,
    me: uuid::Uuid,
    now: i64,
)
    requires
        v.role == Some(PlayerRole::Player(mine)),
    ensures
        winner == mine ==> server_step(v, SessionEvent::GameOver { winner: Some(winner), reason }, me, now).1.sounds
            == seq![SoundView::Victory],
        winner != mine ==> server_step(v, SessionEvent::GameOver { winner: Some(winner), reason }, me, now).1.sounds
            == seq![SoundView::Defeat],
        server_step(v, SessionEvent::GameOver { winner: None, reason }, me, now).1.sounds == seq![SoundView::Draw],
{
}

/// Someone who plays neither side hears a plain move sound when a game ends
/// with a winner, and the draw sound when it ends without one.
pub proof fn spectators_hear_no_result(v: PlayState, winner: Side, reason: GameOverReason, me: uuid::Uuid, now: i64)
    requires
        v.role is None || v.role == Some(PlayerRole::Spectator),
    ensures
        server_step(v, SessionEvent::GameOver { winner: Some(winner), reason }, me, now).1.sounds == seq![SoundView::Move],
        server_step(v, SessionEvent::GameOver { winner: None, reason }, me, now).1.sounds == seq![SoundView::Draw],
{
}

/// The server's echo of the player's own move is recognised: the board is
/// not moved again, nothing is played or sent, and the move is no longer
/// awaited; the clocks and the history take the echo's values.
pub proof fn own_move_echo_is_not_replayed(v: PlayState, ev: SessionEvent, me: uuid::Uuid, now: i64)
    requires
        ev matches SessionEvent::MoveMade { uci, .. } && v.last_sent_uci == Some(uci@),
    ensures
        server_step(v, ev, me, now).0.position == v.position,
        server_step(v, ev, me, now).0.last_sent_uci is None,
        server_step(v, ev, me, now).1 == no_effects(),
{
}

/// A move the player tries out of turn changes nothing and sends nothing.
pub proof fn out_of_turn_move_is_ignored(v: PlayState, uci: Seq<char>, now: i64)
    requires
        !my_turn(v),
    ensures
        local_move(v, uci, now) == (v, no_effects()),
{
}

proof fn lemma_first_min(s: Seq<(i64, i64)>, i: int, best: int)
    requires
        0 <= best < s.len(),
        best < i,
        forall|j: int| 0 <= j < i && j < s.len() ==> s[best].0 <= #[trigger] s[j].0,
    ensures
        0 <= first_min(s, i, best) < s.len(),
        forall|j: int| 0 <= j < s.len() ==> s[first_min(s, i, best)].0 <= #[trigger] s[j].0,
    decreases s.len() - i,
{
    if i < s.len() {
        let nb = if s[i].0 < s[best].0 { i } else { best };
        lemma_first_min(s, i + 1, nb);
    }
}

/// A pong keeps at most the sixteen latest samples, its own last, and
/// adopts the offset of a sample with the shortest round trip among them.
pub proof fn pong_keeps_recent_samples_and_the_best_offset(v: PlayState, ev: SessionEvent, me: uuid::Uuid, now: i64)
    requires
        ev is Pong,
    ensures
        ({
            let r = server_step(v, ev, me, now).0;
            let s = r.offset_samples;
            &&& 1 <= s.len() <= 16
            &&& (match ev {
                SessionEvent::Pong { client_time_ms: c, server_time_ms: srv } => s.last() == (
                    (now - c) as i64,
                    (srv - (c + trunc_div(now - c, 2))) as i64,
                ),
                _ => true,
            })
            &&& exists|k: int| 0 <= k < s.len() && r.clock_offset_ms == s[k].1
                && forall|j: int| 0 <= j < s.len() ==> s[k].0 <= #[trigger] s[j].0
        }),
{
    let r = server_step(v, ev, me, now).0;
    let s = r.offset_samples;
    lemma_first_min(s, 1, 0);
    let k = first_min(s, 1, 0);
    assert(r.clock_offset_ms == s[k].1);
}

/// A resync replaces the history and clocks and drops every queued
/// premove.
pub proof fn resync_drops_premoves(v: PlayState, ev: SessionEvent, me: uuid::Uuid, now: i64)
    requires
        ev is Resync,
    ensures
        server_step(v, ev, me, now).0.premoves.len() == 0,
        server_step(v, ev, me, now).1 == no_effects(),
{
}

/// A press of one of the draw buttons.
#[derive(Debug, Clone, Copy, PartialEq, Eq, Structural)]
pub enum DrawButton {
    Offer,
    Accept,
    Decline,
}

/// What a draw button sends and the offer state after it: offering moves
/// to `Offering`, accepting or declining an offer back to `Idle`.
pub fn press_draw_button(button: DrawButton) -> (r: (GameClientMessage, DrawOfferState))
    ensures
        match button {
            DrawButton::Offer => r.0 is DrawOffer && r.1 == DrawOfferState::Offering,
            DrawButton::Accept => r.0 is DrawAccept && r.1 == DrawOfferState::Idle,
            DrawButton::Decline => r.0 is DrawDecline && r.1 == DrawOfferState::Idle,
        },
{
    match button {
        DrawButton::Offer => (GameClientMessage::DrawOffer, DrawOfferState::Offering),
        DrawButton::Accept => (GameClientMessage::DrawAccept, DrawOfferState::Idle),
        DrawButton::Decline => (GameClientMessage::DrawDecline, DrawOfferState::Idle),
    }
}

/// A press of one of the rematch buttons.
#[derive(Debug, Clone, Copy, PartialEq, Eq, Structural)]
pub enum RematchButton {
    Offer,
    Cancel,
    Accept,
    Decline,
}

/// What a rematch button sends and the state after it: offering moves to
/// `Offering`, cancelling or declining back to `Idle`, accepting leaves the
/// state to the server's answer.
pub fn press_rematch_button(state: RematchState, button: RematchButton) -> (r: (GameClientMessage, RematchState))
    ensures
        match button {
            RematchButton::Offer => r.0 is RematchOffer && r.1 == RematchState::Offering,
            RematchButton::Cancel => r.0 is RematchCancel && r.1 == RematchState::Idle,
            RematchButton::Accept => r.0 is RematchAccept && r.1 == state,
            RematchButton::Decline => r.0 is RematchDecline && r.1 == RematchState::Idle,
        },
{
    match button {
        RematchButton::Offer => (GameClientMessage::RematchOffer, RematchState::Offering),
        RematchButton::Cancel => (GameClientMessage::RematchCancel, RematchState::Idle),
        RematchButton::Accept => (GameClientMessage::RematchAccept, state),
        RematchButton::Decline => (GameClientMessage::RematchDecline, RematchState::Idle),
    }
}

/// Two seconds after a declined rematch is shown, the controls go back to
/// idle (unless something else changed them meanwhile).
pub fn after_decline_shown(state: RematchState) -> (r: RematchState)
    ensures
        r == (if state == RematchState::Declined { RematchState::Idle } else { state }),
{
    match state {
        RematchState::Declined => RematchState::Idle,
        _ => state,
    }
}

/// The headline of the game-over dialog.
pub fn result_text(outcome: Outcome, reason: Option<GameOverReason>) -> (s: &'static str)
    ensures
        s@ == (if reason == Some(GameOverReason::Abort) {
            "Game aborted"@
        } else {
            match outcome {
                Outcome::Decisive(Side::Black) => "Black wins"@,
                Outcome::Decisive(Side::White) => "White wins"@,
                Outcome::Draw => "Draw"@,
                Outcome::Unknown => "this should never happen"@,
            }
        }),
{
    if reason == Some(GameOverReason::Abort) {
        return "Game aborted";
    }
    match outcome {
        Outcome::Decisive(Side::Black) => "Black wins",
        Outcome::Decisive(Side::White) => "White wins",
        Outcome::Draw => "Draw",
        Outcome::Unknown => "this should never happen",
    }
}

/// The subtitle of the game-over dialog.
pub fn result_subtitle(reason: Option<GameOverReason>) -> (s: &'static str)
    ensures
        s@ == (if reason == Some(GameOverReason::Abort) { "No rating change"@ } else { "Game over"@ }),
{
    if reason == Some(GameOverReason::Abort) { "No rating change" } else { "Game over" }
}

/// The connection dot: red when disconnected, a pulsing grey before the
/// first round trip, then green, yellow, orange or red by latency level.
pub fn connection_dot(connected: bool, rtt_ms: Option<u32>) -> (s: &'static str)
    ensures
        s@ == (if !connected {
            "w-2.5 h-2.5 rounded-full bg-red-500 ring-2 ring-red-300 flex-shrink-0"@
        } else {
            match rtt_ms {
                None => "w-2.5 h-2.5 rounded-full bg-zinc-500 animate-pulse flex-shrink-0"@,
                Some(rtt) => {
                    let level = rtt_level(rtt as int);
                    if level == 0 {
                        "w-2.5 h-2.5 rounded-full bg-emerald-500 flex-shrink-0"@
                    } else if level == 1 {
                        "w-2.5 h-2.5 rounded-full bg-yellow-500 flex-shrink-0"@
                    } else if level == 2 {
                        "w-2.5 h-2.5 rounded-full bg-orange-500 flex-shrink-0"@
                    } else {
                        "w-2.5 h-2.5 rounded-full bg-red-500 flex-shrink-0"@
                    }
                },
            }
        }),
{
    if !connected {
        "w-2.5 h-2.5 rounded-full bg-red-500 ring-2 ring-red-300 flex-shrink-0"
    } else {
        match rtt_ms {
            None => "w-2.5 h-2.5 rounded-full bg-zinc-500 animate-pulse flex-shrink-0",
            Some(rtt) => {
                let level = rtt_bucket(rtt);
                if level == 0 {
                    "w-2.5 h-2.5 rounded-full bg-emerald-500 flex-shrink-0"
                } else if level == 1 {
                    "w-2.5 h-2.5 rounded-full bg-yellow-500 flex-shrink-0"
                } else if level == 2 {
                    "w-2.5 h-2.5 rounded-full bg-orange-500 flex-shrink-0"
                } else {
                    "w-2.5 h-2.5 rounded-full bg-red-500 flex-shrink-0"
                }
            },
        }
    }
}

/// The connection dot's tooltip.
pub fn connection_title(connected: bool, rtt_ms: Option<u32>) -> (s: String)
    ensures
        s@ == (if !connected {
            "disconnected"@
        } else {
            match rtt_ms {
                None => "connecting\u{2026}"@,
                Some(rtt) => "ping "@ + nat_text(rtt as nat) + " ms"@,
            }
        }),
{
    let mut out: Vec<char> = Vec::new();
    if !connected {
        push_str(&mut out, "disconnected");
    } else {
        match rtt_ms {
            None => push_str(&mut out, "connecting\u{2026}"),
            Some(rtt) => {
                push_str(&mut out, "ping ");
                push_nat(&mut out, rtt as u64);
                push_str(&mut out, " ms");
            },
        }
    }
    string_of(&out)
}

} // verus!
