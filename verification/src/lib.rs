//! Core mechanics of a sliding-tile merge puzzle: a fixed grid of
//! power-of-two tiles that compacts and merges along a chosen direction,
//! spawns new tiles at the trailing edge, and reports when no move is left.

pub mod engine;
pub mod laws;
pub mod model;
pub mod pass;
pub mod text;

pub use engine::GameState;
