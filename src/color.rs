use vstd::prelude::*;

verus! {

/// The colour of a disc, and of the player who owns such discs.
#[derive(Clone, Copy, Debug, PartialEq, Eq, Structural)]
pub enum Color {
    Black,
    White,
}

impl Color {
    /// The other colour.
    pub open spec fn opposite(self) -> Color {
        match self {
            Color::Black => Color::White,
            Color::White => Color::Black,
        }
    }

    /// One-letter label used when drawing a board: "b" or "w".
    pub fn to_s(&self) -> (r: &'static str)
        ensures
            r@ == (if *self == Color::Black { "b"@ } else { "w"@ }),
    {
        match self {
            Color::White => "w",
            Color::Black => "b",
        }
    }

    /// The opponent's colour.
    pub fn another(&self) -> (r: Color)
        ensures
            r == self.opposite(),
            r != *self,
    {
        match self {
            Color::White => Color::Black,
            Color::Black => Color::White,
        }
    }
}

} // verus!
