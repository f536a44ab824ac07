//! A chess board with pseudo-legal move generation and a fixed-depth
//! minimax search that picks the opponent's move.
//!
//! Squares are `(file, rank)` pairs with both coordinates in `0..8`;
//! rank 0 is the top row, where Black starts.

pub mod movement;
pub mod piece;
pub mod board;
pub mod minimax;
