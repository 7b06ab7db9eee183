//! Rules and state engine for five-in-a-row (Gomoku) on a fixed 15x15 grid.
//!
//! The crate tracks placed stones, enforces turn order, detects terminal
//! positions (a five-stone run for either side, or a full board), keeps a
//! reversible move history (undo/redo), and serializes a game as an ordered
//! list of moves.

pub mod board;
pub mod gamestate;
pub mod laws;
pub mod movetext;
pub mod serial;
pub mod winspec;
