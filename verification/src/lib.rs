//! Rules engine of a falling-block puzzle game.
//!
//! The crate owns the playfield, the active and queued pieces, collision
//! detection, locking, line clearing, scoring and game-over detection.
//! Rendering and input handling live outside; they call the mutators here
//! and read the public state afterwards.

pub mod game;
pub mod tetromino;
