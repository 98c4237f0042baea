//! A move-selection engine for a chess-like game: board representation,
//! pseudo-legal move generation, material evaluation and fixed-depth minimax.

pub mod board;
pub mod figures;
pub mod ai;
