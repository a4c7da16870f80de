//! Where a cell is.

use crate::redstone::block::Facing;
use vstd::prelude::*;

verus! {

/// A cell of the lattice. East is towards greater `x`, up towards greater
/// `y`, south towards greater `z`.
#[derive(Debug, Clone, Copy, PartialEq, Eq, PartialOrd, Ord, Hash, Structural)]
pub struct Position {
    pub x: i32,
    pub y: i32,
    pub z: i32,
}

/// How far one step in a direction leads along each axis.
pub open spec fn step(direction: Facing) -> (int, int, int) {
    match direction {
        Facing::North => (0, 0, -1),
        Facing::South => (0, 0, 1),
        Facing::East => (1, 0, 0),
        Facing::West => (-1, 0, 0),
        Facing::Up => (0, 1, 0),
        Facing::Down => (0, -1, 0),
    }
}

/// The direction back.
pub open spec fn opposite(direction: Facing) -> Facing {
    match direction {
        Facing::North => Facing::South,
        Facing::South => Facing::North,
        Facing::East => Facing::West,
        Facing::West => Facing::East,
        Facing::Up => Facing::Down,
        Facing::Down => Facing::Up,
    }
}

impl Position {
    /// Whether `other` is one step from here in `direction`.
    pub open spec fn steps_to(self, direction: Facing, other: Position) -> bool {
        &&& other.x == self.x + step(direction).0
        &&& other.y == self.y + step(direction).1
        &&& other.z == self.z + step(direction).2
    }

    /// Whether a step in `direction` stays within the numbers.
    pub open spec fn can_step(self, direction: Facing) -> bool {
        &&& i32::MIN <= self.x + step(direction).0 <= i32::MAX
        &&& i32::MIN <= self.y + step(direction).1 <= i32::MAX
        &&& i32::MIN <= self.z + step(direction).2 <= i32::MAX
    }

    pub fn new(x: i32, y: i32, z: i32) -> (position: Position)
        ensures
            position == (Position { x, y, z }),
    {
        Position { x, y, z }
    }

    /// One step in `direction`.
    pub fn offset(self, direction: Facing) -> (next: Position)
        requires
            self.can_step(direction),
        ensures
            self.steps_to(direction, next),
    {
        match direction {
            Facing::North => Position { x: self.x, y: self.y, z: self.z - 1 },
            Facing::South => Position { x: self.x, y: self.y, z: self.z + 1 },
            Facing::East => Position { x: self.x + 1, y: self.y, z: self.z },
            Facing::West => Position { x: self.x - 1, y: self.y, z: self.z },
            Facing::Up => Position { x: self.x, y: self.y + 1, z: self.z },
            Facing::Down => Position { x: self.x, y: self.y - 1, z: self.z },
        }
    }
}

} // verus!
