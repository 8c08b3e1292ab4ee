//! A three-peg Tower-of-Hanoi engine.
//!
//! The engine holds the state of a puzzle board, validates candidate moves
//! against the physical stacking rules, and computes on demand the next move
//! of the minimal-length solution that carries every disk to peg C.

pub mod game;
pub mod laws;
pub mod model;
pub mod pegs;
