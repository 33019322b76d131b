//! The errors of the library.
use vstd::prelude::*;

verus! {

/// What can go wrong.
#[derive(Clone, Copy, Debug, PartialEq, Eq, Structural)]
pub enum ChessError {
    /// A position text or square text is malformed.
    InvalidText,
    /// A coordinate lies outside the board.
    OutOfRange,
    /// The square a move starts from is empty.
    NoPiece,
    /// The square a move goes to holds a piece of the mover's colour.
    OwnCapture,
    /// The move is not one of the legal moves of the position.
    IllegalMove,
}

impl ChessError {
    /// A short description of the error.
    pub fn message(&self) -> (text: &'static str)
        ensures
            text@ == match *self {
                ChessError::InvalidText => "invalid text"@,
                ChessError::OutOfRange => "coordinate out of range"@,
                ChessError::NoPiece => "no piece on the square"@,
                ChessError::OwnCapture => "square holds a piece of the same colour"@,
                ChessError::IllegalMove => "illegal move"@,
            },
    {
        match self {
            ChessError::InvalidText => "invalid text",
            ChessError::OutOfRange => "coordinate out of range",
            ChessError::NoPiece => "no piece on the square",
            ChessError::OwnCapture => "square holds a piece of the same colour",
            ChessError::IllegalMove => "illegal move",
        }
    }
}

} // verus!
