//! The two sides of the game and the outcome of a finished game.
use vstd::prelude::*;

verus! {

/// A side, identified by the colour of its discs.
#[derive(Debug, Copy, Clone, PartialEq, Eq, Structural)]
pub enum Color {
    Black,
    White,
}

/// The outcome of a finished game.
#[derive(Debug, Copy, Clone, PartialEq, Eq, Structural)]
pub enum Winner {
    Black,
    White,
    Draw,
}

impl Color {
    /// The other side.
    pub open spec fn opposite(self) -> Color {
        match self {
            Color::Black => Color::White,
            Color::White => Color::Black,
        }
    }

    /// The other side, computed.
    pub fn other(&self) -> (r: Color)
        ensures
            r == self.opposite(),
    {
        match self {
            Color::Black => Color::White,
            Color::White => Color::Black,
        }
    }
}

} // verus!
