//! Tile kinds of the flat map view and the row-major index helper.

use vstd::prelude::*;

verus! {

/// A tile of the flat (ASCII) map view.
#[derive(Clone, Copy, PartialEq, Eq, Debug)]
pub enum Tile {
    Floor,
    Wall,
    Goal,
    StairUp,
    StairDown,
}

impl Tile {
    /// Every tile but a wall can be stood on.
    pub open spec fn spec_walkable(self) -> bool {
        !(self is Wall)
    }

    pub fn is_walkable(self) -> (r: bool)
        ensures
            r == self.spec_walkable(),
    {
        match self {
            Tile::Floor | Tile::Goal | Tile::StairUp | Tile::StairDown => true,
            Tile::Wall => false,
        }
    }

    /// Single-character representation for ASCII rendering.
    pub fn glyph(self) -> (c: char)
        ensures
            c == (match self {
                Tile::Floor => '.',
                Tile::Wall => '#',
                Tile::Goal => 'T',
                Tile::StairUp => '^',
                Tile::StairDown => 'v',
            }),
    {
        match self {
            Tile::Floor => '.',
            Tile::Wall => '#',
            Tile::Goal => 'T',
            Tile::StairUp => '^',
            Tile::StairDown => 'v',
        }
    }
}

/// Row-major index of `(x, y)` on a map of the given width.
pub fn idx(x: i32, y: i32, width: i32) -> (i: usize)
    requires
        0 <= x < width,
        0 <= y,
        y * width + x <= i32::MAX,
    ensures
        i == y * width + x,
{
    proof {
        assert(0 <= y * width) by (nonlinear_arith)
            requires 0 <= y, 0 <= width;
    }
    (y * width + x) as usize
}

} // verus!
