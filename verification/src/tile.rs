//! Tiles of the rotation puzzle and their facing directions.

use vstd::prelude::*;

verus! {

/// A compass direction an arrow can point to.
#[derive(Clone, Copy, PartialEq, Eq, Structural, Debug)]
pub enum Direction {
    North,
    South,
    East,
    West,
    NorthEast,
    NorthWest,
    SouthEast,
    SouthWest,
}

/// The opposite of a direction.
pub open spec fn reversed_spec(d: Direction) -> Direction {
    match d {
        Direction::North => Direction::South,
        Direction::South => Direction::North,
        Direction::East => Direction::West,
        Direction::West => Direction::East,
        Direction::NorthEast => Direction::SouthWest,
        Direction::NorthWest => Direction::SouthEast,
        Direction::SouthEast => Direction::NorthWest,
        Direction::SouthWest => Direction::NorthEast,
    }
}

/// A quarter turn clockwise.
pub open spec fn rotate_90_spec(d: Direction) -> Direction {
    match d {
        Direction::North => Direction::East,
        Direction::East => Direction::South,
        Direction::South => Direction::West,
        Direction::West => Direction::North,
        Direction::NorthEast => Direction::SouthEast,
        Direction::SouthEast => Direction::SouthWest,
        Direction::SouthWest => Direction::NorthWest,
        Direction::NorthWest => Direction::NorthEast,
    }
}

/// The clockwise quarter-turn index of a cardinal direction; diagonal
/// directions fall back to east.
pub open spec fn dir_index(d: Direction) -> int {
    match d {
        Direction::East => 0,
        Direction::South => 1,
        Direction::West => 2,
        Direction::North => 3,
        _ => 0,
    }
}

/// The cardinal direction with the given quarter-turn index.
pub open spec fn dir_of_index(i: int) -> Direction {
    if i == 0 {
        Direction::East
    } else if i == 1 {
        Direction::South
    } else if i == 2 {
        Direction::West
    } else {
        Direction::North
    }
}

/// A base direction turned by a rotation in degrees and possibly
/// reversed, reduced to the cardinal cycle east, south, west, north.
pub open spec fn from_rotation_spec(base: Direction, rotation: int, reversed: bool) -> Direction {
    let steps = (rotation / 90) % 4;
    dir_of_index(
        (dir_index(base) + steps + if reversed {
            2int
        } else {
            0int
        }) % 4,
    )
}

/// The direction a tile's arrow effectively points to, given its
/// rotation in degrees and its reversal flag.  Rotations outside the
/// four quarter stops count as no rotation.
pub open spec fn effective_direction_spec(rotation: int, reversed: bool) -> Direction {
    let base = if rotation == 90 {
        Direction::South
    } else if rotation == 180 {
        Direction::West
    } else if rotation == 270 {
        Direction::North
    } else {
        Direction::East
    };
    if reversed {
        reversed_spec(base)
    } else {
        base
    }
}

impl Direction {
    /// The opposite direction.
    pub fn reversed(self) -> (r: Direction)
        ensures
            r == reversed_spec(self),
    {
        match self {
            Direction::North => Direction::South,
            Direction::South => Direction::North,
            Direction::East => Direction::West,
            Direction::West => Direction::East,
            Direction::NorthEast => Direction::SouthWest,
            Direction::NorthWest => Direction::SouthEast,
            Direction::SouthEast => Direction::NorthWest,
            Direction::SouthWest => Direction::NorthEast,
        }
    }

    /// A quarter turn clockwise.
    pub fn rotate_90(self) -> (r: Direction)
        ensures
            r == rotate_90_spec(self),
    {
        match self {
            Direction::North => Direction::East,
            Direction::East => Direction::South,
            Direction::South => Direction::West,
            Direction::West => Direction::North,
            Direction::NorthEast => Direction::SouthEast,
            Direction::SouthEast => Direction::SouthWest,
            Direction::SouthWest => Direction::NorthWest,
            Direction::NorthWest => Direction::NorthEast,
        }
    }

    /// The cardinal direction reached from a base direction by a
    /// rotation in whole degrees, with an optional reversal.
    pub fn from_rotation(base_direction: Direction, rotation: i32, reversed: bool) -> (r:
        Direction)
        requires
            rotation >= 0,
        ensures
            r == from_rotation_spec(base_direction, rotation as int, reversed),
    {
        let base_index: u32 = match base_direction {
            Direction::East => 0,
            Direction::South => 1,
            Direction::West => 2,
            Direction::North => 3,
            _ => 0,
        };
        let rotation_steps: u32 = ((rotation / 90) % 4) as u32;
        let mut new_index: u32 = (base_index + rotation_steps) % 4;
        if reversed {
            new_index = (new_index + 2) % 4;
        }
        if new_index == 0 {
            Direction::East
        } else if new_index == 1 {
            Direction::South
        } else if new_index == 2 {
            Direction::West
        } else {
            Direction::North
        }
    }
}

/// One polyomino tile: the grid cells it covers, its rotation in
/// degrees, and whether its arrow is reversed.
#[derive(Clone)]
pub struct Tile {
    pub cells: Vec<(usize, usize)>,
    pub rotation: i32,
    pub reversed: bool,
}

impl Tile {
    /// Turns the tile a quarter clockwise; the covered cells stay, the
    /// visual rotation is the renderer's concern.
    pub fn rotate(&mut self)
        requires
            0 <= old(self).rotation,
            old(self).rotation <= i32::MAX - 90,
        ensures
            final(self).rotation == (old(self).rotation + 90) % 360,
            final(self).cells == old(self).cells,
            final(self).reversed == old(self).reversed,
    {
        self.rotation = (self.rotation + 90) % 360;
    }

    /// Flips the arrow around; the effective direction accounts for it.
    pub fn reverse(&mut self)
        ensures
            final(self).reversed == !old(self).reversed,
            final(self).cells == old(self).cells,
            final(self).rotation == old(self).rotation,
    {
        self.reversed = !self.reversed;
    }

    /// The direction the tile's arrow effectively points to after its
    /// rotation and reversal.
    pub fn get_effective_direction(&self) -> (r: Direction)
        ensures
            r == effective_direction_spec(self.rotation as int, self.reversed),
    {
        let base_direction = Direction::East;
        let rotated = if self.rotation == 90 {
            base_direction.rotate_90()
        } else if self.rotation == 180 {
            base_direction.rotate_90().rotate_90()
        } else if self.rotation == 270 {
            base_direction.rotate_90().rotate_90().rotate_90()
        } else {
            base_direction
        };
        if self.reversed {
            rotated.reversed()
        } else {
            rotated
        }
    }
}

} // verus!
