//! Server-side engine of a three-player trick-taking card game: the message
//! vocabulary, the deck, the rules of a round, the seating of players into
//! games and the lobby that owns them all.

pub mod proto;
pub mod deck;
pub mod round;
pub mod knows_skat;
pub mod game;
pub mod pending_game;
pub mod lobby;
pub mod connection;
pub mod text;
pub mod ownership;
