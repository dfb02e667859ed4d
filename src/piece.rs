use vstd::prelude::*;

verus! {

/// What a cell of the board holds.
#[derive(PartialEq, Eq, Structural, Clone, Copy, Debug)]
pub enum Piece {
    Empty,
    Black,
    White,
}

impl Piece {
    /// The other player's colour; `Empty` has none and stays `Empty`.
    pub open spec fn spec_opposite(self) -> Piece {
        match self {
            Piece::Empty => Piece::Empty,
            Piece::Black => Piece::White,
            Piece::White => Piece::Black,
        }
    }

    /// Black and White swap; Empty maps to itself.
    pub fn opposite(&self) -> (r: Piece)
        ensures
            r == self.spec_opposite(),
    {
        match self {
            Piece::Empty => Piece::Empty,
            Piece::Black => Piece::White,
            Piece::White => Piece::Black,
        }
    }
}

} // verus!
