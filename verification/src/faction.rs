//! The per-tick spatial index: every occupied point mapped to the index of
//! the cube that owns it.

use vstd::prelude::*;
use crate::cube::Cube;
use crate::outlines::{footprint, units_distinct};
use crate::point::Point;

verus! {

/// First-match lookup over recorded (point, owner) entries.
pub open spec fn spec_lookup(s: Seq<(Point, usize)>, p: Point) -> Option<usize>
    decreases s.len(),
{
    if s.len() == 0 {
        None
    } else if s[0].0 == p {
        Some(s[0].1)
    } else {
        spec_lookup(s.drop_first(), p)
    }
}

/// One recorded entry: an alive cube of the collection owns that point.
pub open spec fn entry_ok(cubes: Seq<Cube>, e: (Point, usize)) -> bool {
    e.1 < cubes.len() && cubes[e.1 as int].spec_alive() && footprint(
        cubes[e.1 as int].units@,
    ).contains(e.0)
}

/// Whether entry `(p, i)` was recorded.
pub open spec fn entries_have(s: Seq<(Point, usize)>, p: Point, i: usize) -> bool {
    exists|j: int| 0 <= j < s.len() && #[trigger] s[j] == (p, i)
}

/// No two entries share a point.
pub open spec fn entries_distinct(s: Seq<(Point, usize)>) -> bool {
    forall|j1: int, j2: int|
        #![trigger s[j1], s[j2]]
        0 <= j1 < j2 < s.len() ==> s[j1].0 != s[j2].0
}

/// With distinct points, lookup finds exactly the recorded entries.
proof fn lemma_lookup_finds(s: Seq<(Point, usize)>, p: Point, i: usize)
    requires
        entries_distinct(s),
        entries_have(s, p, i),
    ensures
        spec_lookup(s, p) == Some(i),
    decreases s.len(),
{
    let j = choose|j: int| 0 <= j < s.len() && #[trigger] s[j] == (p, i);
    if j == 0 {
    } else {
        assert(s[0].0 != p);
        let rest = s.drop_first();
        assert(rest[j - 1] == (p, i));
        assert(entries_distinct(rest)) by {
            assert forall|j1: int, j2: int|
                #![trigger rest[j1], rest[j2]]
                0 <= j1 < j2 < rest.len() implies rest[j1].0 != rest[j2].0 by {
                assert(s[j1 + 1] == rest[j1]);
                assert(s[j2 + 1] == rest[j2]);
            }
        }
        lemma_lookup_finds(rest, p, i);
    }
}

/// Whatever lookup returns was recorded.
proof fn lemma_lookup_sound(s: Seq<(Point, usize)>, p: Point)
    ensures
        match spec_lookup(s, p) {
            Some(i) => entries_have(s, p, i),
            None => true,
        },
    decreases s.len(),
{
    if s.len() > 0 {
        if s[0].0 == p {
            assert(s[0] == (p, s[0].1));
        } else {
            let rest = s.drop_first();
            lemma_lookup_sound(rest, p);
            if spec_lookup(rest, p) is Some {
                let i = spec_lookup(rest, p).unwrap();
                let j = choose|j: int| 0 <= j < rest.len() && #[trigger] rest[j] == (p, i);
                assert(s[j + 1] == (p, i));
            }
        }
    }
}

/// The cubes' footprints never overlap.
pub open spec fn cubes_disjoint(cubes: Seq<Cube>) -> bool {
    forall|i1: int, i2: int, p: Point|
        #![trigger footprint(cubes[i1].units@).contains(p), footprint(cubes[i2].units@).contains(p)]
        0 <= i1 < cubes.len() && 0 <= i2 < cubes.len() && footprint(cubes[i1].units@).contains(p)
            && footprint(cubes[i2].units@).contains(p) ==> i1 == i2
}

/// Maps each occupied point to the owning cube's index. Rebuilt fresh
/// every tick from the live cubes.
pub struct Faction {
    entries: Vec<(Point, usize)>,
}

impl Faction {
    pub closed spec fn entries(self) -> Seq<(Point, usize)> {
        self.entries@
    }

    /// Index the units of every alive cube.
    pub fn new(cubes: &Vec<Cube>) -> (r: Faction)
        requires
            cubes_disjoint(cubes@),
            forall|i: int|
                0 <= i < cubes@.len() ==> units_distinct((#[trigger] cubes@[i]).units@),
        ensures
            forall|i: usize, p: Point|
                #![trigger footprint(cubes@[i as int].units@).contains(p)]
                i < cubes@.len() && cubes@[i as int].spec_alive() && footprint(
                    cubes@[i as int].units@,
                ).contains(p) ==> spec_lookup(r.entries(), p) == Some(i),
            forall|p: Point|
                #[trigger] spec_lookup(r.entries(), p) matches Some(i) ==> entry_ok(
                    cubes@,
                    (p, i),
                ),
    {
        let mut entries: Vec<(Point, usize)> = Vec::new();
        let n = cubes.len();
        for i in 0..n
            invariant
                n == cubes@.len(),
                cubes_disjoint(cubes@),
                forall|i0: int|
                    0 <= i0 < cubes@.len() ==> units_distinct((#[trigger] cubes@[i0]).units@),
                forall|j: int| 0 <= j < entries@.len() ==> entry_ok(cubes@, #[trigger] entries@[j]),
                forall|j: int| 0 <= j < entries@.len() ==> (#[trigger] entries@[j]).1 < i,
                entries_distinct(entries@),
                forall|i0: usize, p: Point|
                    #![trigger footprint(cubes@[i0 as int].units@).contains(p)]
                    i0 < i && cubes@[i0 as int].spec_alive() && footprint(
                        cubes@[i0 as int].units@,
                    ).contains(p) ==> entries_have(entries@, p, i0),
        {
            let un = cubes[i].units.len();
            for k in 0..un
                invariant
                    n == cubes@.len(),
                    i < n,
                    un == cubes@[i as int].units@.len(),
                    cubes_disjoint(cubes@),
                    forall|i0: int|
                        0 <= i0 < cubes@.len() ==> units_distinct((#[trigger] cubes@[i0]).units@),
                    forall|j: int|
                        0 <= j < entries@.len() ==> entry_ok(cubes@, #[trigger] entries@[j]),
                    forall|j: int| 0 <= j < entries@.len() ==> (#[trigger] entries@[j]).1 <= i,
                    // entries for the current cube name exactly its first k units
                    forall|j: int|
                        0 <= j < entries@.len() && (#[trigger] entries@[j]).1 == i
                            ==> exists|k0: int|
                            0 <= k0 < k && (#[trigger] cubes@[i as int].units@[k0]).position
                                == entries@[j].0,
                    entries_distinct(entries@),
                    forall|i0: usize, p: Point|
                        #![trigger footprint(cubes@[i0 as int].units@).contains(p)]
                        i0 < i && cubes@[i0 as int].spec_alive() && footprint(
                            cubes@[i0 as int].units@,
                        ).contains(p) ==> entries_have(entries@, p, i0),
                    forall|k0: int|
                        0 <= k0 < k ==> entries_have(
                            entries@,
                            (#[trigger] cubes@[i as int].units@[k0]).position,
                            i,
                        ),
            {
                let p = cubes[i].units[k].position;
                let ghost before = entries@;
                entries.push((p, i));
                proof {
                    let units = cubes@[i as int].units@;
                    assert(units[k as int].position == p);
                    assert(footprint(units).contains(p));
                    assert(entries@[entries@.len() - 1] == (p, i));
                    assert forall|j: int|
                        0 <= j < entries@.len() implies entry_ok(cubes@, #[trigger] entries@[j])
                            && entries@[j].1 <= i by {
                        if j < before.len() {
                            assert(entries@[j] == before[j]);
                        }
                    }
                    assert forall|j: int|
                        0 <= j < entries@.len() && (#[trigger] entries@[j]).1 == i
                            implies exists|k0: int|
                            0 <= k0 < k + 1 && (#[trigger] units[k0]).position == entries@[
                        j].0 by {
                        if j < before.len() {
                            assert(entries@[j] == before[j]);
                            let k0 = choose|k0: int|
                                0 <= k0 < k && (#[trigger] units[k0]).position == before[j].0;
                        } else {
                            assert(units[k as int].position == entries@[j].0);
                        }
                    }
                    assert(entries_distinct(entries@)) by {
                        assert forall|j1: int, j2: int|
                            #![trigger entries@[j1], entries@[j2]]
                            0 <= j1 < j2 < entries@.len() implies entries@[j1].0 != entries@[
                        j2].0 by {
                            if j2 == entries@.len() - 1 {
                                assert(entries@[j1] == before[j1]);
                                assert(entry_ok(cubes@, before[j1]));
                                if before[j1].0 == p {
                                    let owner = before[j1].1;
                                    assert(footprint(cubes@[owner as int].units@).contains(p));
                                    assert(owner as int == i as int);
                                    let k0 = choose|k0: int|
                                        0 <= k0 < k && (#[trigger] units[k0]).position
                                            == before[j1].0;
                                    assert(units[k0].position == units[k as int].position);
                                    assert(false);
                                }
                            } else {
                                assert(entries@[j1] == before[j1]);
                                assert(entries@[j2] == before[j2]);
                            }
                        }
                    }
                    assert forall|i0: usize, p0: Point|
                        #![trigger footprint(cubes@[i0 as int].units@).contains(p0)]
                        i0 < i && cubes@[i0 as int].spec_alive() && footprint(
                            cubes@[i0 as int].units@,
                        ).contains(p0) implies entries_have(entries@, p0, i0) by {
                        let jj = choose|jj: int|
                            0 <= jj < before.len() && #[trigger] before[jj] == (p0, i0);
                        assert(entries@[jj] == (p0, i0));
                    }
                    assert forall|k0: int|
                        0 <= k0 < k + 1 implies entries_have(
                        entries@,
                        (#[trigger] units[k0]).position,
                        i,
                    ) by {
                        if k0 < k {
                            let q = units[k0].position;
                            let jj = choose|jj: int|
                                0 <= jj < before.len() && #[trigger] before[jj] == (q, i);
                            assert(entries@[jj] == (q, i));
                        } else {
                            assert(entries@[entries@.len() - 1] == (p, i));
                        }
                    }
                }
            }
            proof {
                assert forall|i0: usize, p: Point|
                    #![trigger footprint(cubes@[i0 as int].units@).contains(p)]
                    i0 < i + 1 && cubes@[i0 as int].spec_alive() && footprint(
                        cubes@[i0 as int].units@,
                    ).contains(p) implies entries_have(entries@, p, i0) by {
                    if i0 == i {
                        let k0 = choose|k0: int|
                            0 <= k0 < cubes@[i as int].units@.len() && (#[trigger] cubes@[
                            i as int].units@[k0]).position == p;
                        assert(entries_have(
                            entries@,
                            cubes@[i as int].units@[k0].position,
                            i,
                        ));
                    }
                }
            }
        }
        let r = Faction { entries };
        proof {
            assert forall|i: usize, p: Point|
                #![trigger footprint(cubes@[i as int].units@).contains(p)]
                i < cubes@.len() && cubes@[i as int].spec_alive() && footprint(
                    cubes@[i as int].units@,
                ).contains(p) implies spec_lookup(r.entries(), p) == Some(i) by {
                lemma_lookup_finds(r.entries(), p, i);
            }
            assert forall|p: Point|
                #[trigger] spec_lookup(r.entries(), p) is Some implies entry_ok(
                cubes@,
                (p, spec_lookup(r.entries(), p).unwrap()),
            ) by {
                lemma_lookup_sound(r.entries(), p);
                let i = spec_lookup(r.entries(), p).unwrap();
                let j = choose|j: int|
                    0 <= j < r.entries().len() && #[trigger] r.entries()[j] == (p, i);
                assert(entry_ok(cubes@, r.entries()[j]));
            }
        }
        r
    }

    /// The owner of `point`, if any cube occupies it.
    pub fn get(&self, point: Point) -> (r: Option<usize>)
        ensures
            r == spec_lookup(self.entries(), point),
    {
        let n = self.entries.len();
        proof {
            assert(self.entries@.skip(0) =~= self.entries@);
        }
        for j in 0..n
            invariant
                n == self.entries@.len(),
                spec_lookup(self.entries@, point) == spec_lookup(
                    self.entries@.skip(j as int),
                    point,
                ),
                forall|j0: int| 0 <= j0 < j ==> (#[trigger] self.entries@[j0]).0 != point,
        {
            let (p, i) = self.entries[j];
            proof {
                assert(self.entries@.skip(j as int)[0] == self.entries@[j as int]);
            }
            if p == point {
                return Some(i);
            }
            proof {
                assert(self.entries@.skip(j as int).drop_first() =~= self.entries@.skip(
                    j + 1 as int,
                ));
            }
        }
        proof {
            assert(self.entries@.skip(n as int).len() == 0);
        }
        None
    }
}

} // verus!
