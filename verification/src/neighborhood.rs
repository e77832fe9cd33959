//! Directional flags and the eight-cell neighborhood bitmask.

use vstd::prelude::*;
use crate::point::Point;

verus! {

/// One of the eight directions around a grid cell.
#[derive(Clone, Copy, Debug, PartialEq, Eq, Structural)]
pub enum Adjacence {
    Left,
    LeftTop,
    Top,
    RightTop,
    Right,
    RightBottom,
    Bottom,
    LeftBottom,
}

impl Adjacence {
    /// Position of this direction's flag inside the neighborhood byte.
    /// The order runs clockwise from `Left` at the highest bit.
    pub open spec fn spec_bit(self) -> u8 {
        match self {
            Adjacence::Left => 7,
            Adjacence::LeftTop => 6,
            Adjacence::Top => 5,
            Adjacence::RightTop => 4,
            Adjacence::Right => 3,
            Adjacence::RightBottom => 2,
            Adjacence::Bottom => 1,
            Adjacence::LeftBottom => 0,
        }
    }

    pub open spec fn spec_mask(self) -> u8 {
        1u8 << self.spec_bit()
    }

    /// The single-bit mask of this direction.
    pub fn mask(self) -> (r: u8)
        ensures
            r == self.spec_mask(),
    {
        let r: u8 = match self {
            Adjacence::Left => 0x80,
            Adjacence::LeftTop => 0x40,
            Adjacence::Top => 0x20,
            Adjacence::RightTop => 0x10,
            Adjacence::Right => 0x08,
            Adjacence::RightBottom => 0x04,
            Adjacence::Bottom => 0x02,
            Adjacence::LeftBottom => 0x01,
        };
        proof {
            assert(0x80u8 == 1u8 << 7u8) by (bit_vector);
            assert(0x40u8 == 1u8 << 6u8) by (bit_vector);
            assert(0x20u8 == 1u8 << 5u8) by (bit_vector);
            assert(0x10u8 == 1u8 << 4u8) by (bit_vector);
            assert(0x08u8 == 1u8 << 3u8) by (bit_vector);
            assert(0x04u8 == 1u8 << 2u8) by (bit_vector);
            assert(0x02u8 == 1u8 << 1u8) by (bit_vector);
            assert(0x01u8 == 1u8 << 0u8) by (bit_vector);
        }
        r
    }

    /// The unit offset this direction stands for.
    pub open spec fn spec_offset(self) -> Point {
        match self {
            Adjacence::Left => Point { x: -1i32, y: 0i32 },
            Adjacence::LeftTop => Point { x: -1i32, y: -1i32 },
            Adjacence::Top => Point { x: 0i32, y: -1i32 },
            Adjacence::RightTop => Point { x: 1i32, y: -1i32 },
            Adjacence::Right => Point { x: 1i32, y: 0i32 },
            Adjacence::RightBottom => Point { x: 1i32, y: 1i32 },
            Adjacence::Bottom => Point { x: 0i32, y: 1i32 },
            Adjacence::LeftBottom => Point { x: -1i32, y: 1i32 },
        }
    }

    pub fn offset(self) -> (r: Point)
        ensures
            r == self.spec_offset(),
    {
        match self {
            Adjacence::Left => Point { x: -1, y: 0 },
            Adjacence::LeftTop => Point { x: -1, y: -1 },
            Adjacence::Top => Point { x: 0, y: -1 },
            Adjacence::RightTop => Point { x: 1, y: -1 },
            Adjacence::Right => Point { x: 1, y: 0 },
            Adjacence::RightBottom => Point { x: 1, y: 1 },
            Adjacence::Bottom => Point { x: 0, y: 1 },
            Adjacence::LeftBottom => Point { x: -1, y: 1 },
        }
    }

    /// All eight directions in clockwise order, starting at `Left`.
    pub open spec fn spec_around() -> Seq<Adjacence> {
        seq![
            Adjacence::Left,
            Adjacence::LeftTop,
            Adjacence::Top,
            Adjacence::RightTop,
            Adjacence::Right,
            Adjacence::RightBottom,
            Adjacence::Bottom,
            Adjacence::LeftBottom,
        ]
    }

    pub fn around() -> (r: Vec<Adjacence>)
        ensures
            r@ == Adjacence::spec_around(),
    {
        let r = vec![
            Adjacence::Left,
            Adjacence::LeftTop,
            Adjacence::Top,
            Adjacence::RightTop,
            Adjacence::Right,
            Adjacence::RightBottom,
            Adjacence::Bottom,
            Adjacence::LeftBottom,
        ];
        proof {
            assert(r@ =~= Adjacence::spec_around());
        }
        r
    }
}

/// The neighbor of `p` one step in direction `a`.
pub open spec fn spec_near(p: Point, a: Adjacence) -> Point {
    Point { x: (p.x + a.spec_offset().x) as i32, y: (p.y + a.spec_offset().y) as i32 }
}

/// The neighbor of `point` one step in direction `m`.
pub fn near(point: Point, m: Adjacence) -> (r: Point)
    requires
        i32::MIN < point.x < i32::MAX,
        i32::MIN < point.y < i32::MAX,
    ensures
        r == spec_near(point, m),
        r.x == point.x + m.spec_offset().x,
        r.y == point.y + m.spec_offset().y,
{
    point.plus(m.offset())
}

/// Which of the eight surrounding cells count as occupied, packed in one
/// byte with one flag per `Adjacence`.
#[derive(Clone, Copy, Debug, PartialEq, Eq, Structural)]
pub struct Neighborhood(pub u8);

impl Neighborhood {
    pub open spec fn spec_has(self, mask: Adjacence) -> bool {
        self.0 & mask.spec_mask() != 0
    }

    pub fn new() -> (r: Neighborhood)
        ensures
            forall|a: Adjacence| !r.spec_has(a),
    {
        let r = Neighborhood(0);
        proof {
            assert forall|a: Adjacence| !r.spec_has(a) by {
                let i = a.spec_bit();
                assert(0u8 & (1u8 << i) == 0) by (bit_vector);
            }
        }
        r
    }

    /// The neighborhood holding exactly the listed directions.
    pub fn from(list: &[Adjacence]) -> (r: Neighborhood)
        ensures
            forall|a: Adjacence| r.spec_has(a) <==> list@.contains(a),
    {
        let mut n = Neighborhood::new();
        let ghost all = list@;
        for k in 0..list.len()
            invariant
                forall|a: Adjacence| n.spec_has(a) <==> all.subrange(0, k as int).contains(a),
                all == list@,
        {
            let ghost before = n;
            n.set(list[k]);
            proof {
                assert forall|a: Adjacence|
                    n.spec_has(a) <==> all.subrange(0, k + 1 as int).contains(a) by {
                    assert(all.subrange(0, k + 1 as int).drop_last() =~= all.subrange(0, k as int));
                    if a == all[k as int] {
                        assert(all.subrange(0, k + 1 as int)[k as int] == a);
                    } else if all.subrange(0, k + 1 as int).contains(a) {
                        let i = choose|i: int|
                            #![trigger all.subrange(0, k + 1 as int)[i]]
                            0 <= i < k + 1 && all.subrange(0, k + 1 as int)[i] == a;
                        assert(all.subrange(0, k as int)[i] == a);
                    }
                }
            }
        }
        proof {
            assert(all.subrange(0, all.len() as int) =~= all);
        }
        n
    }

    /// Turn the flag for `mask` on, leaving every other flag alone.
    pub fn set(&mut self, mask: Adjacence)
        ensures
            forall|a: Adjacence| final(self).spec_has(a) <==> (a == mask || old(self).spec_has(a)),
    {
        let m = mask.mask();
        self.0 = self.0 | m;
        proof {
            let x = old(self).0;
            assert forall|a: Adjacence|
                self.spec_has(a) <==> (a == mask || old(self).spec_has(a)) by {
                let i = mask.spec_bit();
                let j = a.spec_bit();
                assert((x | (1u8 << i)) & (1u8 << j) != 0 <==> (i == j || x & (1u8 << j) != 0))
                    by (bit_vector)
                    requires i < 8 && j < 8;
                lemma_bit_distinct(mask, a);
            }
        }
    }

    /// Turn the flag for `mask` off, leaving every other flag alone.
    pub fn unset(&mut self, mask: Adjacence)
        ensures
            forall|a: Adjacence| final(self).spec_has(a) <==> (a != mask && old(self).spec_has(a)),
    {
        let m = mask.mask();
        self.0 = self.0 & !m;
        proof {
            let x = old(self).0;
            assert forall|a: Adjacence|
                self.spec_has(a) <==> (a != mask && old(self).spec_has(a)) by {
                let i = mask.spec_bit();
                let j = a.spec_bit();
                assert((x & !(1u8 << i)) & (1u8 << j) != 0 <==> (i != j && x & (1u8 << j) != 0))
                    by (bit_vector)
                    requires i < 8 && j < 8;
                lemma_bit_distinct(mask, a);
            }
        }
    }

    /// Whether the flag for `mask` is on.
    pub fn has(&self, mask: Adjacence) -> (r: bool)
        ensures
            r == self.spec_has(mask),
    {
        self.0 & mask.mask() != 0
    }

    /// The eight flags as booleans, in clockwise order starting at `Left`.
    pub fn states(&self) -> (r: [bool; 8])
        ensures
            r@.len() == 8,
            forall|k: int|
                0 <= k < 8 ==> r@[k] == self.spec_has(Adjacence::spec_around()[k]),
    {
        let r = [
            self.has(Adjacence::Left),
            self.has(Adjacence::LeftTop),
            self.has(Adjacence::Top),
            self.has(Adjacence::RightTop),
            self.has(Adjacence::Right),
            self.has(Adjacence::RightBottom),
            self.has(Adjacence::Bottom),
            self.has(Adjacence::LeftBottom),
        ];
        r
    }
}

/// Two distinct directions use two distinct bits.
proof fn lemma_bit_distinct(a: Adjacence, b: Adjacence)
    ensures
        (a == b) <==> (a.spec_bit() == b.spec_bit()),
{
}

/// `states()` lists exactly the flags that `has()` reports, one per
/// direction, in clockwise order starting at `Left`.
pub proof fn lemma_states_match_has(n: Neighborhood, states: Seq<bool>)
    requires
        states.len() == 8,
        forall|k: int| 0 <= k < 8 ==> states[k] == n.spec_has(Adjacence::spec_around()[k]),
    ensures
        forall|a: Adjacence| #[trigger] n.spec_has(a)
            <==> exists|k: int|
                0 <= k < 8 && Adjacence::spec_around()[k] == a && states[k],
{
    assert forall|a: Adjacence| #[trigger] n.spec_has(a)
        implies exists|k: int|
            0 <= k < 8 && Adjacence::spec_around()[k] == a && states[k] by {
        let k: int = match a {
            Adjacence::Left => 0,
            Adjacence::LeftTop => 1,
            Adjacence::Top => 2,
            Adjacence::RightTop => 3,
            Adjacence::Right => 4,
            Adjacence::RightBottom => 5,
            Adjacence::Bottom => 6,
            Adjacence::LeftBottom => 7,
        };
        assert(Adjacence::spec_around()[k] == a && states[k]);
    }
}

} // verus!
