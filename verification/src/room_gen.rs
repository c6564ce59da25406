//! Data of a single generated room: its door specifications and result.

use vstd::prelude::*;
use crate::cell::Cell;
use crate::room::RoomKind;

verus! {

/// Which side of the room rectangle a door is on.
#[derive(Clone, Copy, Debug, PartialEq, Eq, Structural)]
pub enum DoorSide {
    North,
    South,
    East,
    West,
}

/// A door: its wall side and offset along that wall (0 = first interior
/// cell). Doors are two tiles wide.
#[derive(Clone, Copy, Debug, PartialEq, Eq, Structural)]
pub struct DoorSpec {
    pub side: DoorSide,
    /// For north and south walls an x offset, for east and west a y offset.
    pub offset: usize,
}

/// Result of generating one room.
pub struct GeneratedRoom {
    /// Cell grid, row-major, `width` by `height`.
    pub cells: Vec<Cell>,
    pub width: usize,
    pub height: usize,
    pub kind: RoomKind,
    /// Door positions in room-local coordinates.
    pub doors: Vec<(usize, usize)>,
}

} // verus!
