use crate::components::Coordinate;
use vstd::prelude::*;

verus! {

/// A request to uncover the tile at the coordinate.
#[derive(Debug, Clone, Copy, PartialEq, Eq, Structural)]
pub struct TileTriggerEvent(pub Coordinate);

/// Every cell without a mine has been uncovered.
#[derive(Debug, Clone, Copy, PartialEq, Eq, Structural)]
pub struct BoardCompletedEvent;

/// A mine was uncovered.
#[derive(Debug, Clone, Copy, PartialEq, Eq, Structural)]
pub struct BombExplosionEvent;

/// A request to toggle the flag on the tile at the coordinate.
#[derive(Debug, Clone, Copy, PartialEq, Eq, Structural)]
pub struct TileMarkEvent(pub Coordinate);

} // verus!
