//! A multiplayer word-guessing game engine.
//!
//! Players hold opaque session handles, join lobbies that each carry one
//! secret word, and submit guesses; every guess is answered with one color
//! per character. The library holds the session store, the lobby registry,
//! the guess evaluator, the win detector and the game lifecycle rules;
//! transport, cookies and word selection stay outside.

pub mod guess;
pub mod player;
pub mod server;
