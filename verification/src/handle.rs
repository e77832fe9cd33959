//! Opaque handles for cube heads and their member units.

use vstd::prelude::*;

verus! {

/// Identifies one cube aggregate inside a collection.
#[derive(Clone, Copy, Debug, PartialEq, Eq, Structural)]
pub struct HeadID(pub usize);

impl From<usize> for HeadID {
    fn from(i: usize) -> (r: HeadID) {
        HeadID(i)
    }
}

impl vstd::std_specs::convert::FromSpecImpl<usize> for HeadID {
    open spec fn obeys_from_spec() -> bool {
        true
    }

    open spec fn from_spec(i: usize) -> HeadID {
        HeadID(i)
    }
}

impl From<HeadID> for usize {
    fn from(i: HeadID) -> (r: usize) {
        i.0
    }
}

impl vstd::std_specs::convert::FromSpecImpl<HeadID> for usize {
    open spec fn obeys_from_spec() -> bool {
        true
    }

    open spec fn from_spec(i: HeadID) -> usize {
        i.0
    }
}

/// Identifies one occupied cell within a cube.
#[derive(Clone, Copy, Debug, PartialEq, Eq, Structural)]
pub struct UnitID(pub usize);

impl From<usize> for UnitID {
    fn from(i: usize) -> (r: UnitID) {
        UnitID(i)
    }
}

impl vstd::std_specs::convert::FromSpecImpl<usize> for UnitID {
    open spec fn obeys_from_spec() -> bool {
        true
    }

    open spec fn from_spec(i: usize) -> UnitID {
        UnitID(i)
    }
}

impl From<UnitID> for usize {
    fn from(i: UnitID) -> (r: usize) {
        i.0
    }
}

impl vstd::std_specs::convert::FromSpecImpl<UnitID> for usize {
    open spec fn obeys_from_spec() -> bool {
        true
    }

    open spec fn from_spec(i: UnitID) -> usize {
        i.0
    }
}

} // verus!
