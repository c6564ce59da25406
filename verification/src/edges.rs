//! Edge labels, directions and tile kinds of the room-layout tile sets.
//!
//! Two tiles may sit side by side only where their facing edges carry the
//! same label.

use vstd::prelude::*;

verus! {

/// Labels on the edges of single-cell interior tiles.
#[derive(Clone, Copy, Debug, PartialEq, Eq, Structural, Hash)]
pub enum EdgeLabel {
    /// Open floor: meets other floor edges.
    Floor,
    /// Bond of a multi-tile group; the number names the bond.
    GroupBond(u16),
}

/// Cardinal direction, in the order North, East, South, West.
#[derive(Clone, Copy, Debug, PartialEq, Eq, Structural)]
pub enum Dir {
    North,
    East,
    South,
    West,
}

impl Dir {
    pub open spec fn spec_opposite(self) -> Dir {
        match self {
            Dir::North => Dir::South,
            Dir::East => Dir::West,
            Dir::South => Dir::North,
            Dir::West => Dir::East,
        }
    }

    pub open spec fn spec_delta(self) -> (i32, i32) {
        match self {
            Dir::North => (0i32, -1i32),
            Dir::East => (1i32, 0i32),
            Dir::South => (0i32, 1i32),
            Dir::West => (-1i32, 0i32),
        }
    }

    /// The direction pointing the other way.
    pub fn opposite(self) -> (r: Dir)
        ensures
            r == self.spec_opposite(),
    {
        match self {
            Dir::North => Dir::South,
            Dir::East => Dir::West,
            Dir::South => Dir::North,
            Dir::West => Dir::East,
        }
    }

    /// `(dx, dy)` step of this direction (y grows southward).
    pub fn delta(self) -> (r: (i32, i32))
        ensures
            r == self.spec_delta(),
    {
        match self {
            Dir::North => (0, -1),
            Dir::East => (1, 0),
            Dir::South => (0, 1),
            Dir::West => (-1, 0),
        }
    }
}

/// Turning around twice gives the direction back, the opposite direction
/// steps the other way, and each step is one cell along one axis.
pub proof fn lemma_opposite(d: Dir)
    ensures
        d.spec_opposite().spec_opposite() == d,
        d.spec_opposite() != d,
        d.spec_opposite().spec_delta().0 == -d.spec_delta().0,
        d.spec_opposite().spec_delta().1 == -d.spec_delta().1,
        vstd::math::abs(d.spec_delta().0 as int) + vstd::math::abs(d.spec_delta().1 as int) == 1,
{
}

/// Side length of a block tile, in game cells.
pub const BLOCK_TILE_SIZE: usize = 3;

/// Edge of a 3×3 block tile as a bit mask over its three edge cells:
/// bit 0 the first (top or left), bit 1 the middle, bit 2 the last.
#[derive(Clone, Copy, Debug, PartialEq, Eq, Structural, Hash)]
pub struct BlockEdge(pub u8);

impl BlockEdge {
    /// All floor (000).
    pub fn open() -> (e: BlockEdge)
        ensures
            e.0 == 0,
    {
        BlockEdge(0b000)
    }

    /// Wall through the middle cell (010).
    pub fn mid() -> (e: BlockEdge)
        ensures
            e.0 == 2,
    {
        BlockEdge(0b010)
    }
}

/// Edge labels of the room-level layout grid.
#[derive(Clone, Copy, Debug, PartialEq, Eq, Structural, Hash)]
pub enum MacroEdge {
    /// Corridor opening: meets another corridor opening.
    MCorridor,
    /// Sealed wall: meets another sealed wall.
    MWall,
}

/// What a layout tile becomes when expanded.
#[derive(Clone, Copy, Debug, PartialEq, Eq, Structural)]
pub enum MacroKind {
    /// Solid wall filler.
    Wall,
    /// Corridor segment.
    Corridor,
    /// Room: walls, doors and a generated interior.
    Room,
}

} // verus!
