//! Rules engine for Reversi (Othello) on the standard 8x8 board.
//!
//! - `color`: the two colours of disc.
//! - `rules`: the board as a mathematical sequence of cells, and what a move
//!   captures, stated as spec functions with the lemmas about them.
//! - `game`: the game state, its moves (`put`, `skip_turn`) and their contracts.
pub mod color;
pub mod game;
pub mod rules;
