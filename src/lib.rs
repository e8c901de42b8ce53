//! Rules engine for Reversi (Othello) on an 8x8 board.
pub mod color;
pub mod laws;
pub mod model;
pub mod reversi;

pub use color::{Color, Winner};
pub use reversi::Reversi;
