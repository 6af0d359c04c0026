//! A sliding-tile merge puzzle played on a fixed square grid.
//!
//! The crate is organised around the board-shift engine: given a move
//! direction and the current set of occupied tiles it computes the unique
//! post-shift layout, merging colliding equal-level tiles, accumulating
//! score, and reporting whether the board changed.  Around it stand the
//! terminal detector (does a full board still admit a move?), the spawner
//! (place a fresh tile on a random free cell), and the game facade that
//! ties them together.

pub mod components;
pub mod game;
pub mod laws;
pub mod shift;
pub mod spawn;
pub mod terminal;
