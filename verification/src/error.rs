//! What can go wrong when a piece is put on a board or taken off it.  Every
//! condition is an expected outcome of play and is handed back to the
//! caller.
use crate::piece::{Piece, Released};
use crate::position::Position;
use vstd::prelude::*;

verus! {

#[derive(Clone, Copy, PartialEq, Eq, Structural, Debug)]
pub enum BoardError {
    /// A cell of the piece would fall off the board, at the given position.
    PieceOutOfBounds(Position),
    /// A cell of the piece would lie on a building, at the given position.
    PieceOnOccupiedTile(Position),
    /// A cell of the piece would lie on ground of the other side, at the
    /// given position.
    PieceOnEnemyTile(Position),
    /// No piece is registered under the position asked for.
    PieceNotOnBoard,
}

/// A placement that was refused: the reason, and the piece handed back
/// untouched so that the caller can try elsewhere.
#[derive(Debug)]
pub struct Rejected {
    pub error: BoardError,
    pub piece: Piece<Released>,
}

impl From<Rejected> for BoardError {
    fn from(rejected: Rejected) -> (error: Self) {
        rejected.error
    }
}

impl vstd::std_specs::convert::FromSpecImpl<Rejected> for BoardError {
    open spec fn obeys_from_spec() -> bool {
        true
    }

    open spec fn from_spec(rejected: Rejected) -> Self {
        rejected.error
    }
}

} // verus!
