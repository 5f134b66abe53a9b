use vstd::prelude::*;

pub mod board;
pub mod grid;
pub mod model;
pub mod play;
pub mod search;
pub mod tally;
pub mod threats;

pub use board::{Board, BoardMoveIterator};
pub use grid::Grid;
pub use play::{best_moves, choose_move};
pub use search::{Search, minimax, minimax_exhaustive};
pub use tally::{Position, Tallies};

verus! {

/// The content of one cell, and the colour of a side.
#[derive(Clone, Copy, Debug, PartialEq, Eq, Structural, Hash)]
pub enum Piece {
    Red,
    Yellow,
    Empty,
}

impl Piece {
    pub open spec fn spec_opponent(self) -> Piece {
        match self {
            Piece::Red => Piece::Yellow,
            Piece::Yellow => Piece::Red,
            Piece::Empty => Piece::Empty,
        }
    }

    pub open spec fn is_color(self) -> bool {
        self == Piece::Red || self == Piece::Yellow
    }

    /// The other side; `Empty` has no opponent and maps to itself.
    pub fn opponent(&self) -> (r: Piece)
        ensures
            r == self.spec_opponent(),
    {
        match self {
            Piece::Red => Piece::Yellow,
            Piece::Yellow => Piece::Red,
            Piece::Empty => Piece::Empty,
        }
    }
}

} // verus!
