//! A verified engine for the 2048 sliding-tile game.
//!
//! The crate is organised around a small board engine: a 4x4 grid of
//! power-of-two tiles, a game-state machine, and the per-line
//! shift-and-merge transform that defines how tiles slide. The engine's
//! behaviour is stated in contracts and proved; the random tile spawn is
//! the only nondeterministic step, and its contracts state what holds of
//! every outcome.

pub mod game;
pub mod layout;
pub mod line;
