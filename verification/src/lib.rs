//! Chess platform logic: the analysis move tree with PGN import and
//! export, engine output parsing, matchmaking buckets, clocks, the shared
//! message vocabulary, and the decisions behind the board, the live game,
//! the quick-match hub, the watch page, friends, search and settings.

pub mod text;

pub mod matchmaking;
pub mod player;
pub mod messages;
pub mod social;
pub mod auth;
pub mod position;
pub mod tree;
pub mod clock_text;
pub mod pgn;
pub mod engine;
pub mod openings;
pub mod game;
pub mod labels;
pub mod board;
pub mod session;
pub mod analysis;
pub mod hub;
pub mod history;
pub mod watch;
pub mod friends;
pub mod search;
pub mod settings;
pub mod pgn_laws;
