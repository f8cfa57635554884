//! Drafting moves: where tiles are taken from and where they are placed.
use vstd::prelude::*;

verus! {

use crate::tiles::Tile;

/// Where a move draws its tiles from: a numbered factory display or the
/// shared center pool.
#[derive(Debug, Clone, Copy, PartialEq, Eq, Structural, Hash)]
pub enum MoveSource {
    Factory(usize),
    Center,
}

/// Where the drawn tiles go: a pattern line (by row index) or straight to
/// the penalty floor.
#[derive(Debug, Clone, Copy, PartialEq, Eq, Structural, Hash)]
pub enum MoveDestination {
    PatternLine(usize),
    Floor,
}

/// One drafting action: take every tile of one color from one source and
/// place them on one destination.
#[derive(Debug, Clone, Copy, PartialEq, Eq, Structural, Hash)]
pub struct Move {
    pub source: MoveSource,
    pub tile: Tile,
    pub destination: MoveDestination,
}

} // verus!
