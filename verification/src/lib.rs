//! Simulation core of a grid-based puzzle: colored cubes occupy unit cells,
//! merge when touching under a cyclic dominance relation, and move under
//! player input, constrained by static obstacles and by each other.

pub mod area;
pub mod arena;
pub mod cube;
pub mod faction;
pub mod handle;
pub mod kind;
pub mod level;
pub mod lookup;
pub mod motion;
pub mod movement;
pub mod neighborhood;
pub mod outlines;
pub mod point;
pub mod source;

use vstd::prelude::*;

verus! {

} // verus!
