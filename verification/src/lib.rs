//! Core engine for a turn-based bluffing card game with a
//! probability-based elimination mechanic.
//!
//! The library is organised leaf to root: `card` holds the card values and
//! the deck, `player` a player's hand and status, `roulette` the elimination
//! resolver, and `game` the state machine that ties them together.
//! `config` and `i18n` hold the verified parts of the configuration and
//! message-catalogue layers; their file I/O lives outside the library.

pub mod card;
pub mod config;
pub mod game;
pub mod i18n;
pub mod player;
pub mod roulette;
pub mod text;
