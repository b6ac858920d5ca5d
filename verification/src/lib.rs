//! A verified playfield engine for a falling-block puzzle game on a
//! ten-column board: bitboard placement and line-clear arithmetic, a
//! reachability-based move generator with wall kicks and spin
//! recognition, and the game-state transition that scores each
//! placement.

pub mod bits;
pub mod board;
pub mod features;
pub mod game;
pub mod geometry;
pub mod laws;
pub mod movegen;
