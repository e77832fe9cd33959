//! Cube kinds and the cyclic dominance relation between them.

use vstd::prelude::*;

verus! {

/// The color of a cube. `White` is the neutral kind: always stable, never
/// competing. The other three dominate each other in a cycle.
#[derive(Clone, Copy, Debug, PartialEq, Eq, Structural)]
pub enum Kind {
    White,
    Red,
    Blue,
    Green,
}

impl Kind {
    /// The cyclic dominance: Blue beats Red, Green beats Blue, Red beats
    /// Green. White neither beats nor is beaten.
    pub open spec fn spec_beats(self, other: Kind) -> bool {
        (self == Kind::Blue && other == Kind::Red)
            || (self == Kind::Green && other == Kind::Blue)
            || (self == Kind::Red && other == Kind::Green)
    }

    pub fn beats(self, other: Kind) -> (r: bool)
        ensures
            r == self.spec_beats(other),
    {
        match (self, other) {
            (Kind::Blue, Kind::Red) => true,
            (Kind::Green, Kind::Blue) => true,
            (Kind::Red, Kind::Green) => true,
            _ => false,
        }
    }

    /// Whether two kinds may keep moving together without blocking each
    /// other. The relation is a configurable design point; here two cubes
    /// link exactly when they share a kind.
    pub open spec fn spec_linkable(self, other: Kind) -> bool {
        self == other
    }

    pub fn linkable(self, other: Kind) -> (r: bool)
        ensures
            r == self.spec_linkable(other),
    {
        self == other
    }

    /// Whether two kinds are eligible to contest each other: two distinct
    /// active kinds, one of which dominates the other.
    pub open spec fn spec_absorbable(self, other: Kind) -> bool {
        self.spec_beats(other) || other.spec_beats(self)
    }

    pub fn absorbable(self, other: Kind) -> (r: bool)
        ensures
            r == self.spec_absorbable(other),
    {
        self.beats(other) || other.beats(self)
    }
}

/// Dominance is a total cyclic order on the three active kinds: any two
/// distinct non-White kinds are ordered one way exactly, and no kind beats
/// itself.
pub proof fn lemma_dominance_total_cyclic(a: Kind, b: Kind)
    ensures
        a != Kind::White && b != Kind::White && a != b
            ==> (a.spec_beats(b) <==> !b.spec_beats(a)),
        !a.spec_beats(a),
        Kind::Blue.spec_beats(Kind::Red),
        Kind::Green.spec_beats(Kind::Blue),
        Kind::Red.spec_beats(Kind::Green),
{
}

} // verus!
