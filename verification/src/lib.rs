//! A two-player word-typing duel: wire protocol, stream framing and the
//! session state machine, with every rule stated as a contract and proved.

pub mod wire;
pub mod network;
pub mod text;
pub mod word_game;
pub mod events;
