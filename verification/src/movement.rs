//! Movement directions and movement constraints.

use vstd::prelude::*;
use crate::point::Point;

verus! {

/// One of the four cardinal movement directions. The y axis grows downward,
/// so `Down` is `(0, 1)` and `Up` is `(0, -1)`.
#[derive(Clone, Copy, Debug, PartialEq, Eq, Structural)]
pub enum Movement {
    Left,
    Down,
    Up,
    Right,
}

impl Movement {
    pub open spec fn spec_opposite(self) -> Movement {
        match self {
            Movement::Left => Movement::Right,
            Movement::Down => Movement::Up,
            Movement::Up => Movement::Down,
            Movement::Right => Movement::Left,
        }
    }

    pub fn opposite(&self) -> (r: Movement)
        ensures
            r == self.spec_opposite(),
    {
        match self {
            Movement::Left => Movement::Right,
            Movement::Down => Movement::Up,
            Movement::Up => Movement::Down,
            Movement::Right => Movement::Left,
        }
    }

    pub fn opposite_to(&self, other: Movement) -> (r: bool)
        ensures
            r == (self.spec_opposite() == other),
    {
        self.opposite() == other
    }

    pub open spec fn spec_orthogonal_to(self, other: Movement) -> bool {
        match self {
            Movement::Left | Movement::Right => other == Movement::Up || other == Movement::Down,
            Movement::Down | Movement::Up => other == Movement::Left || other == Movement::Right,
        }
    }

    pub fn orthogonal_to(&self, other: Movement) -> (r: bool)
        ensures
            r == self.spec_orthogonal_to(other),
    {
        match self {
            Movement::Left | Movement::Right => {
                matches!(other, Movement::Up | Movement::Down)
            },
            Movement::Down | Movement::Up => {
                matches!(other, Movement::Left | Movement::Right)
            },
        }
    }

    /// The unit offset one step in this direction covers.
    pub open spec fn spec_offset(self) -> Point {
        match self {
            Movement::Left => Point { x: -1i32, y: 0i32 },
            Movement::Down => Point { x: 0i32, y: 1i32 },
            Movement::Up => Point { x: 0i32, y: -1i32 },
            Movement::Right => Point { x: 1i32, y: 0i32 },
        }
    }

    pub fn offset(self) -> (r: Point)
        ensures
            r == self.spec_offset(),
    {
        match self {
            Movement::Left => Point { x: -1, y: 0 },
            Movement::Down => Point { x: 0, y: 1 },
            Movement::Up => Point { x: 0, y: -1 },
            Movement::Right => Point { x: 1, y: 0 },
        }
    }
}

/// How far a cube's movement is obstructed, from unobstructed to fully
/// blocked. Merging cubes keeps the most restrictive value.
#[derive(Clone, Copy, Debug, PartialEq, Eq, Structural)]
pub enum Constraint {
    Free,
    Slap,
    Lock,
    Stop,
}

impl Constraint {
    /// Severity rank: `Free < Slap < Lock < Stop`.
    pub open spec fn spec_rank(self) -> int {
        match self {
            Constraint::Free => 0,
            Constraint::Slap => 1,
            Constraint::Lock => 2,
            Constraint::Stop => 3,
        }
    }

    pub fn rank(self) -> (r: u8)
        ensures
            r == self.spec_rank(),
    {
        match self {
            Constraint::Free => 0,
            Constraint::Slap => 1,
            Constraint::Lock => 2,
            Constraint::Stop => 3,
        }
    }

    pub open spec fn spec_max(self, other: Constraint) -> Constraint {
        if self.spec_rank() >= other.spec_rank() {
            self
        } else {
            other
        }
    }

    /// The more restrictive of the two constraints.
    pub fn max(self, other: Constraint) -> (r: Constraint)
        ensures
            r == self.spec_max(other),
    {
        if self.rank() >= other.rank() {
            self
        } else {
            other
        }
    }
}

impl Default for Constraint {
    fn default() -> (r: Constraint)
        ensures
            r == Constraint::Free,
    {
        Constraint::Free
    }
}

} // verus!
