//! Rules engine for a territory game played with polyomino buildings on a
//! square grid.  Players place fixed-shape, rotatable pieces; regions of
//! capturable tiles next to a freshly placed piece are the candidates for
//! capture.
//!
//! * [`position`] — grid coordinates and their bounded neighbourhoods
//! * [`shape`] — the boolean footprint grid of a piece
//! * [`piece`] — pieces, their rotation and their released/placed lifecycle
//! * [`grid`] — the tile grid of a board
//! * [`board`] — placement, removal and the piece registry
//! * [`region`] — connected regions of capturable tiles
//! * [`error`] — the error taxonomy
use vstd::prelude::*;

pub mod board;
pub mod error;
pub mod grid;
pub mod piece;
pub mod position;
pub mod region;
pub mod shape;

pub use position::Position;

verus! {

/// Side a tile or a piece belongs to.  `Neutral` stands for no side at all:
/// unclaimed tiles and the cathedral.
#[derive(Clone, Copy, PartialEq, Eq, Structural, Hash, Debug)]
pub enum Team {
    White,
    Black,
    Neutral,
}

impl Team {
    /// White and Black oppose each other; the neutral side opposes nobody.
    pub open spec fn opposes(self, other: Team) -> bool {
        (self == Team::White && other == Team::Black) || (self == Team::Black && other
            == Team::White)
    }

    /// Returns `true` exactly when `self` and `team` are the two playing sides,
    /// one each.
    pub fn is_opposing_team(&self, team: &Team) -> (opposing: bool)
        ensures
            opposing == self.opposes(*team),
    {
        match (*self, *team) {
            (Team::White, Team::Black) => true,
            (Team::Black, Team::White) => true,
            _ => false,
        }
    }
}

} // verus!
