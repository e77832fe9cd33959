//! The cube aggregate and the collection that owns all cubes and runs one
//! simulation tick.

use vstd::prelude::*;
use crate::area::Area;
use crate::kind::Kind;
use crate::lookup::{Bitmap, PointSet};
use crate::arena::spec_arena_result;
use crate::motion::{Agreement, Motion, spec_agreed, spec_combined};
use crate::movement::{Constraint, Movement};
use crate::neighborhood::spec_near;
use crate::outlines::{Outlines, Unit, footprint, units_consistent, units_distinct, units_ok};
use crate::point::{Point, coord_ok};

verus! {

/// A maximal aggregate of same-kind units that moves and contests as one.
pub struct Cube {
    pub kind: Kind,
    pub units: Vec<Unit>,
    pub motion: Motion,
    pub outlines: Outlines,
    pub balanced: bool,
    pub movement: Option<Movement>,
    pub constraint: Constraint,
}

impl Cube {
    /// Geometric well-formedness: bounded coordinates, distinct unit
    /// positions, neighborhoods that match the footprint, and a cached
    /// outline computed from exactly these units.
    pub open spec fn wf(self) -> bool {
        &&& units_ok(self.units@)
        &&& units_distinct(self.units@)
        &&& units_consistent(self.units@)
        &&& self.outlines.wf()
        &&& self.outlines.src() == self.units@
    }

    pub open spec fn spec_alive(self) -> bool {
        self.units@.len() > 0
    }

    /// A cube still owning at least one cell.
    pub fn alive(&self) -> (r: bool)
        ensures
            r == self.spec_alive(),
    {
        self.units.len() > 0
    }

    pub open spec fn spec_unstable(self) -> bool {
        !self.balanced && self.kind != Kind::White
    }

    /// Eligible for a contest: not balanced and not White.
    pub fn unstable(&self) -> (r: bool)
        ensures
            r == self.spec_unstable(),
    {
        !self.balanced && !matches!(self.kind, Kind::White)
    }
}

/// Whether cube `i` occupies point `p`.
pub open spec fn cube_at(cubes: Seq<Cube>, i: int, p: Point) -> bool {
    0 <= i < cubes.len() && footprint(cubes[i].units@).contains(p)
}

/// Whether any cube occupies point `p`.
pub open spec fn occupied(cubes: Seq<Cube>, p: Point) -> bool {
    exists|i: int| #[trigger] cube_at(cubes, i, p)
}

/// Whether `group` holds index `j`.
pub open spec fn group_holds(group: Seq<usize>, j: int) -> bool {
    exists|k: int| 0 <= k < group.len() && #[trigger] group[k] as int == j
}

/// A cube whose balanced flag was replaced.
pub open spec fn with_balanced(c: Cube, b: bool) -> Cube {
    Cube {
        kind: c.kind,
        units: c.units,
        motion: c.motion,
        outlines: c.outlines,
        balanced: b,
        movement: c.movement,
        constraint: c.constraint,
    }
}

/// The units of the listed cubes, concatenated in member order.
pub open spec fn concat_units(cubes: Seq<Cube>, from: Seq<usize>) -> Seq<Unit>
    decreases from.len(),
{
    if from.len() == 0 {
        Seq::empty()
    } else {
        concat_units(cubes, from.drop_last()) + cubes[from.last() as int].units@
    }
}

/// Whether some listed cube occupies `p`.
pub open spec fn group_occupies(cubes: Seq<Cube>, from: Seq<usize>, p: Point) -> bool {
    exists|k: int|
        0 <= k < from.len() && footprint(cubes[#[trigger] from[k] as int].units@).contains(p)
}

/// The movement choices of the listed cubes that carry the winning kind,
/// in member order.
pub open spec fn winners_movements(cubes: Seq<Cube>, from: Seq<usize>, kind: Kind) -> Seq<
    Option<Movement>,
>
    decreases from.len(),
{
    if from.len() == 0 {
        Seq::empty()
    } else {
        let rest = winners_movements(cubes, from.drop_last(), kind);
        if cubes[from.last() as int].kind == kind {
            rest.push(cubes[from.last() as int].movement)
        } else {
            rest
        }
    }
}

/// The motions of the listed cubes that carry the winning kind, in member
/// order.
pub open spec fn winners_motions(cubes: Seq<Cube>, from: Seq<usize>, kind: Kind) -> Seq<Motion>
    decreases from.len(),
{
    if from.len() == 0 {
        Seq::empty()
    } else {
        let rest = winners_motions(cubes, from.drop_last(), kind);
        if cubes[from.last() as int].kind == kind {
            rest.push(cubes[from.last() as int].motion)
        } else {
            rest
        }
    }
}

/// The most restrictive constraint among the listed cubes of the winning
/// kind, starting from `Free`.
pub open spec fn winners_constraint(cubes: Seq<Cube>, from: Seq<usize>, kind: Kind) -> Constraint
    decreases from.len(),
{
    if from.len() == 0 {
        Constraint::Free
    } else {
        let rest = winners_constraint(cubes, from.drop_last(), kind);
        if cubes[from.last() as int].kind == kind {
            rest.spec_max(cubes[from.last() as int].constraint)
        } else {
            rest
        }
    }
}

/// The positions of a unit list, in order.
pub open spec fn positions_of(units: Seq<Unit>) -> Seq<Point> {
    units.map_values(|u: Unit| u.position)
}

/// A point is in the footprint exactly when it is among the positions.
proof fn lemma_footprint_positions(units: Seq<Unit>, p: Point)
    ensures
        footprint(units).contains(p) <==> positions_of(units).contains(p),
{
    if footprint(units).contains(p) {
        let k = choose|k: int| 0 <= k < units.len() && (#[trigger] units[k]).position == p;
        assert(positions_of(units)[k] == p);
    }
    if positions_of(units).contains(p) {
        let k = choose|k: int| 0 <= k < units.len() && positions_of(units)[k] == p;
        assert(units[k].position == p);
        assert(footprint(units).contains(p));
    }
}

/// Two unit lists with disjoint footprints concatenate to a list with
/// distinct positions.
proof fn lemma_units_distinct_concat(a: Seq<Unit>, b: Seq<Unit>)
    requires
        units_distinct(a),
        units_distinct(b),
        forall|p: Point|
            !(#[trigger] footprint(a).contains(p) && #[trigger] footprint(b).contains(p)),
    ensures
        units_distinct(a + b),
{
    assert forall|k1: int, k2: int|
        #![trigger (a + b)[k1].position, (a + b)[k2].position]
        0 <= k1 < k2 < (a + b).len() implies (a + b)[k1].position != (a + b)[k2].position by {
        if k2 < a.len() {
            assert((a + b)[k1] == a[k1] && (a + b)[k2] == a[k2]);
        } else if k1 >= a.len() {
            assert((a + b)[k1] == b[k1 - a.len()] && (a + b)[k2] == b[k2 - a.len()]);
        } else {
            assert((a + b)[k1] == a[k1] && (a + b)[k2] == b[k2 - a.len()]);
            if a[k1].position == b[k2 - a.len()].position {
                let p = a[k1].position;
                assert(footprint(a).contains(p));
                assert(footprint(b).contains(p));
            }
        }
    }
}

/// Properties of the concatenated group units: bounded, distinct, and
/// covering exactly the members' cells.
proof fn lemma_concat_units_props(cubes: Seq<Cube>, from: Seq<usize>)
    requires
        forall|k: int| 0 <= k < from.len() ==> #[trigger] from[k] < cubes.len(),
        forall|k1: int, k2: int|
            #![trigger from[k1], from[k2]]
            0 <= k1 < k2 < from.len() ==> from[k1] != from[k2],
        forall|i: int| 0 <= i < cubes.len() ==> (#[trigger] cubes[i]).wf(),
        crate::faction::cubes_disjoint(cubes),
    ensures
        units_ok(concat_units(cubes, from)),
        units_distinct(concat_units(cubes, from)),
        forall|p: Point|
            #[trigger] footprint(concat_units(cubes, from)).contains(p) <==> group_occupies(
                cubes,
                from,
                p,
            ),
    decreases from.len(),
{
    if from.len() == 0 {
        assert forall|p: Point|
            #[trigger] footprint(concat_units(cubes, from)).contains(p) <==> group_occupies(
            cubes,
            from,
            p,
        ) by {
            if footprint(concat_units(cubes, from)).contains(p) {
                let k = choose|k: int|
                    0 <= k < concat_units(cubes, from).len() && (#[trigger] concat_units(
                        cubes,
                        from,
                    )[k]).position == p;
            }
        }
    } else {
        let rest = from.drop_last();
        let last = from.last();
        let a = concat_units(cubes, rest);
        let b = cubes[last as int].units@;
        assert(forall|k1: int, k2: int|
            #![trigger rest[k1], rest[k2]]
            0 <= k1 < k2 < rest.len() ==> rest[k1] != rest[k2]) by {
            assert(forall|k: int| 0 <= k < rest.len() ==> rest[k] == from[k]);
        }
        assert(forall|k: int| 0 <= k < rest.len() ==> #[trigger] rest[k] < cubes.len()) by {
            assert(forall|k: int| 0 <= k < rest.len() ==> rest[k] == from[k]);
        }
        lemma_concat_units_props(cubes, rest);
        crate::outlines::lemma_footprint_of_concat(a, b);
        assert forall|p: Point|
            !(#[trigger] footprint(a).contains(p) && #[trigger] footprint(b).contains(p)) by {
            if footprint(a).contains(p) && footprint(b).contains(p) {
                assert(group_occupies(cubes, rest, p));
                let k = choose|k: int|
                    0 <= k < rest.len() && footprint(
                        cubes[#[trigger] rest[k] as int].units@,
                    ).contains(p);
                assert(rest[k] as int == last as int);
                assert(from[k] == from[from.len() - 1]);
                assert(false);
            }
        }
        lemma_units_distinct_concat(a, b);
        assert(units_ok(a + b)) by {
            assert forall|k: int| 0 <= k < (a + b).len() implies crate::point::coord_ok(
                (#[trigger] (a + b)[k]).position,
            ) by {
                if k < a.len() {
                    assert((a + b)[k] == a[k]);
                } else {
                    assert((a + b)[k] == b[k - a.len()]);
                }
            }
        }
        assert forall|p: Point|
            #[trigger] footprint(concat_units(cubes, from)).contains(p) <==> group_occupies(
            cubes,
            from,
            p,
        ) by {
            assert(footprint(a + b).contains(p) <==> footprint(a).contains(p) || footprint(
                b,
            ).contains(p));
            if group_occupies(cubes, from, p) {
                let k = choose|k: int|
                    0 <= k < from.len() && footprint(
                        cubes[#[trigger] from[k] as int].units@,
                    ).contains(p);
                if k < from.len() - 1 {
                    assert(rest[k] == from[k]);
                    assert(group_occupies(cubes, rest, p));
                }
            }
            if footprint(a).contains(p) {
                assert(group_occupies(cubes, rest, p));
                let k = choose|k: int|
                    0 <= k < rest.len() && footprint(
                        cubes[#[trigger] rest[k] as int].units@,
                    ).contains(p);
                assert(from[k] == rest[k]);
                assert(group_occupies(cubes, from, p));
            }
            if footprint(b).contains(p) {
                assert(footprint(cubes[from[from.len() - 1] as int].units@).contains(p));
                assert(group_occupies(cubes, from, p));
            }
        }
    }
}

/// Motion lists that agree field by field.
pub open spec fn motions_match(a: Seq<Motion>, b: Seq<Motion>) -> bool {
    a.len() == b.len() && forall|j: int|
        0 <= j < a.len() ==> (#[trigger] a[j]).is_loop == b[j].is_loop && a[j].movements@
            == b[j].movements@
}

/// Combination respects field-by-field equality of motion lists.
proof fn lemma_combined_match(a: Seq<Motion>, b: Seq<Motion>)
    requires
        motions_match(a, b),
    ensures
        crate::motion::spec_combined(a) is Some <==> crate::motion::spec_combined(b) is Some,
        crate::motion::spec_combined(a) matches Some(ma) ==> {
            let mb = crate::motion::spec_combined(b).unwrap();
            ma.is_loop == mb.is_loop && ma.movements@ == mb.movements@
        },
    decreases a.len(),
{
    if a.len() > 0 {
        assert(a[0].movements@ == b[0].movements@);
        if a[0].movements@.len() > 0 {
        } else {
            assert(motions_match(a.drop_first(), b.drop_first())) by {
                assert forall|j: int|
                    0 <= j < a.drop_first().len() implies (#[trigger] a.drop_first()[j]).is_loop
                        == b.drop_first()[j].is_loop && a.drop_first()[j].movements@
                        == b.drop_first()[j].movements@ by {
                    assert(a.drop_first()[j] == a[j + 1]);
                    assert(b.drop_first()[j] == b[j + 1]);
                }
            }
            lemma_combined_match(a.drop_first(), b.drop_first());
        }
    }
}

/// One cube of the initial level data: its kind, the cells it paints, and
/// its optional scripted movement.
pub struct CubeSeed {
    pub kind: Kind,
    pub body: Vec<Point>,
    pub movement: Option<Movement>,
    pub motion: Motion,
}

/// Why initial level data was rejected.
#[derive(Clone, Copy, Debug, PartialEq, Eq, Structural)]
pub enum LevelError {
    InvalidSize,
    OutOfBounds,
    EmptyCube,
    Overlapping,
}

/// The grid dimensions a collection accepts: positive, within the
/// coordinate bound, and small enough for a dense bitmap.
pub open spec fn size_ok(width: usize, height: usize) -> bool {
    0 < width <= crate::point::COORD_LIMIT && 0 < height <= crate::point::COORD_LIMIT && width
        * height <= usize::MAX
}

/// Whether `p` lies on the width-by-height grid.
pub open spec fn in_grid(width: usize, height: usize, p: Point) -> bool {
    0 <= p.x < width && 0 <= p.y < height
}

/// Every listed point lies on the grid.
pub open spec fn seeds_in_grid(width: usize, height: usize, seeds: Seq<CubeSeed>) -> bool {
    forall|i: int, k: int|
        0 <= i < seeds.len() && 0 <= k < seeds[i].body@.len() ==> in_grid(
            width,
            height,
            #[trigger] seeds[i].body@[k],
        )
}

/// Every obstacle point lies on the grid.
pub open spec fn obstacles_in_grid(width: usize, height: usize, obstacles: Seq<Vec<Point>>) -> bool {
    forall|g: int, k: int|
        0 <= g < obstacles.len() && 0 <= k < obstacles[g]@.len() ==> in_grid(
            width,
            height,
            #[trigger] obstacles[g]@[k],
        )
}

/// Every seed paints at least one cell.
pub open spec fn seeds_nonempty(seeds: Seq<CubeSeed>) -> bool {
    forall|i: int| 0 <= i < seeds.len() ==> (#[trigger] seeds[i]).body@.len() > 0
}

/// Two painted cells collide: twice the same cell, or a cell on an
/// obstacle.
pub open spec fn seeds_collide(seeds: Seq<CubeSeed>, obstacles: Seq<Vec<Point>>) -> bool {
    ||| exists|i1: int, k1: int, i2: int, k2: int|
        #![trigger seeds[i1].body@[k1], seeds[i2].body@[k2]]
        0 <= i1 < seeds.len() && 0 <= k1 < seeds[i1].body@.len() && 0 <= i2 < seeds.len() && 0
            <= k2 < seeds[i2].body@.len() && (i1 != i2 || k1 != k2) && seeds[i1].body@[k1]
            == seeds[i2].body@[k2]
    ||| exists|i: int, k: int, g: int, t: int|
        #![trigger seeds[i].body@[k], obstacles[g]@[t]]
        0 <= i < seeds.len() && 0 <= k < seeds[i].body@.len() && 0 <= g < obstacles.len() && 0 <= t
            < obstacles[g]@.len() && seeds[i].body@[k] == obstacles[g]@[t]
}

/// Whether cube `i`'s full boundary touches cube `j`'s footprint.
pub open spec fn adjacent(cubes: Seq<Cube>, i: int, j: int) -> bool {
    exists|t: int|
        0 <= t < crate::outlines::spec_outline_all(
            cubes[i].units@,
            crate::outlines::spec_anchor(cubes[i].units@),
        ).len() && footprint(cubes[j].units@).contains(
            #[trigger] crate::outlines::spec_outline_all(
                cubes[i].units@,
                crate::outlines::spec_anchor(cubes[i].units@),
            )[t],
        )
}

/// Whether the boundary of either cube touches the other.
pub open spec fn step_adjacent(cubes: Seq<Cube>, i: int, j: int) -> bool {
    adjacent(cubes, i, j) || adjacent(cubes, j, i)
}

/// A walk through alive cubes, each touching the next.
pub open spec fn is_chain(cubes: Seq<Cube>, path: Seq<int>) -> bool {
    &&& path.len() > 0
    &&& forall|t: int|
        0 <= t < path.len() ==> 0 <= #[trigger] path[t] < cubes.len() && cubes[
            path[t]
        ].spec_alive()
    &&& forall|t: int|
        0 < t < path.len() ==> step_adjacent(cubes, path[t - 1], #[trigger] path[t])
}

/// Whether the cubes are connected by a chain of outline adjacency
/// through alive cubes.
pub open spec fn connected(cubes: Seq<Cube>, i: int, j: int) -> bool {
    exists|path: Seq<int>| #[trigger] is_chain(cubes, path) && path.first() == i && path.last() == j
}

/// An alive cube is connected to itself.
proof fn lemma_connected_refl(cubes: Seq<Cube>, i: int)
    requires
        0 <= i < cubes.len(),
        cubes[i].spec_alive(),
    ensures
        connected(cubes, i, i),
{
    let path = seq![i];
    assert(is_chain(cubes, path));
    assert(path.first() == i && path.last() == i);
}

/// One adjacency step connects two alive cubes.
proof fn lemma_connected_edge(cubes: Seq<Cube>, i: int, j: int)
    requires
        0 <= i < cubes.len(),
        0 <= j < cubes.len(),
        cubes[i].spec_alive(),
        cubes[j].spec_alive(),
        step_adjacent(cubes, i, j),
    ensures
        connected(cubes, i, j),
{
    let path = seq![i, j];
    assert(is_chain(cubes, path)) by {
        assert(path[0] == i && path[1] == j);
    }
    assert(path.first() == i && path.last() == j);
}

/// Chains reverse.
proof fn lemma_connected_sym(cubes: Seq<Cube>, i: int, j: int)
    requires
        connected(cubes, i, j),
    ensures
        connected(cubes, j, i),
{
    let path = choose|path: Seq<int>|
        #[trigger] is_chain(cubes, path) && path.first() == i && path.last() == j;
    let back = path.reverse();
    assert(is_chain(cubes, back)) by {
        assert forall|t: int|
            0 <= t < back.len() implies 0 <= #[trigger] back[t] < cubes.len() && cubes[
        back[t]].spec_alive() by {
            assert(back[t] == path[path.len() - 1 - t]);
        }
        assert forall|t: int|
            0 < t < back.len() implies step_adjacent(cubes, back[t - 1], #[trigger] back[t]) by {
            assert(back[t] == path[path.len() - 1 - t]);
            assert(back[t - 1] == path[path.len() - t]);
            assert(step_adjacent(cubes, path[path.len() - 1 - t], path[path.len() - t]));
        }
    }
    assert(back.first() == path.last());
    assert(back.last() == path.first());
}

/// Chains compose.
proof fn lemma_connected_trans(cubes: Seq<Cube>, a: int, b: int, c: int)
    requires
        connected(cubes, a, b),
        connected(cubes, b, c),
    ensures
        connected(cubes, a, c),
{
    let p1 = choose|path: Seq<int>|
        #[trigger] is_chain(cubes, path) && path.first() == a && path.last() == b;
    let p2 = choose|path: Seq<int>|
        #[trigger] is_chain(cubes, path) && path.first() == b && path.last() == c;
    let whole = p1 + p2.drop_first();
    assert(is_chain(cubes, whole)) by {
        assert forall|t: int|
            0 <= t < whole.len() implies 0 <= #[trigger] whole[t] < cubes.len() && cubes[
        whole[t]].spec_alive() by {
            if t < p1.len() {
                assert(whole[t] == p1[t]);
            } else {
                assert(whole[t] == p2[t - p1.len() + 1]);
            }
        }
        assert forall|t: int|
            0 < t < whole.len() implies step_adjacent(
            cubes,
            whole[t - 1],
            #[trigger] whole[t],
        ) by {
            if t < p1.len() {
                assert(whole[t] == p1[t] && whole[t - 1] == p1[t - 1]);
            } else if t == p1.len() {
                if p2.len() == 1 {
                    assert(false);
                } else {
                    assert(whole[t] == p2[1]);
                    assert(whole[t - 1] == p1[p1.len() - 1]);
                    assert(p1.last() == p2.first());
                    assert(step_adjacent(cubes, p2[0], p2[1]));
                }
            } else {
                assert(whole[t] == p2[t - p1.len() + 1]);
                assert(whole[t - 1] == p2[t - p1.len()]);
                assert(step_adjacent(cubes, p2[t - p1.len()], p2[t - p1.len() + 1]));
            }
        }
    }
    assert(whole.first() == a);
    assert(whole.last() == c) by {
        if p2.len() == 1 {
            assert(whole.last() == p1.last());
        } else {
            assert(whole.last() == p2.last());
        }
    }
}

/// Whether the disjoint set holds `a` and `b` in one class.
pub open spec fn joined(ds: crate::lookup::DisjointSet, a: int, b: int) -> bool {
    ds.spec_root(a) == ds.spec_root(b)
}

/// Every alive neighbor of cube `i` shares its class.
pub open spec fn settled(cubes: Seq<Cube>, ds: crate::lookup::DisjointSet, i: int) -> bool {
    forall|j: int|
        0 <= j < cubes.len() && (#[trigger] cubes[j]).spec_alive() && adjacent(cubes, i, j)
            ==> joined(ds, i, j)
}

/// Whether the queue still holds index `i`.
pub open spec fn in_queue(q: Seq<usize>, i: usize) -> bool {
    exists|t: int| 0 <= t < q.len() && q[t] == i
}

/// The kinds a component feeds to the arena, in member order.
pub open spec fn part_kinds(olds: Seq<Cube>, part: Seq<usize>) -> Seq<Kind> {
    part.map_values(|i: usize| olds[i as int].kind)
}

/// Whether one listed component holds both indices.
pub open spec fn same_part(parts: Seq<Seq<usize>>, i: int, j: int) -> bool {
    exists|g: int, k1: int, k2: int|
        #![trigger parts[g][k1], parts[g][k2]]
        0 <= g < parts.len() && 0 <= k1 < parts[g].len() && 0 <= k2 < parts[g].len()
            && parts[g][k1] as int == i && parts[g][k2] as int == j
}

/// Whether some listed component holds index `i`.
pub open spec fn part_covers(parts: Seq<Seq<usize>>, i: int) -> bool {
    exists|g: int, k: int|
        0 <= g < parts.len() && 0 <= k < parts[g].len() && #[trigger] parts[g][k] as int == i
}

/// The merged cube a won contest leaves behind: the winning kind, the
/// members' cells in member order, the winners' unanimous movement, their
/// most restrictive constraint, and their first surviving script.
pub open spec fn merged_shape(c: Cube, olds: Seq<Cube>, part: Seq<usize>, kd: Kind) -> bool {
    &&& c.kind == kd
    &&& !c.balanced
    &&& positions_of(c.units@) == positions_of(concat_units(olds, part))
    &&& forall|p: Point|
        #[trigger] footprint(c.units@).contains(p) <==> group_occupies(olds, part, p)
    &&& c.movement == (match spec_agreed(winners_movements(olds, part, kd)) {
        Some(v) => v,
        None => None::<Movement>,
    })
    &&& c.constraint == winners_constraint(olds, part, kd)
    &&& (match spec_combined(winners_motions(olds, part, kd)) {
        Some(m) => c.motion.is_loop == m.is_loop && c.motion.movements@ == m.movements@,
        None => c.motion.spec_idle(),
    })
}

/// The components list every cube index exactly once.
pub open spec fn parts_wf(olds: Seq<Cube>, parts: Seq<Seq<usize>>) -> bool {
    &&& forall|g: int| 0 <= g < parts.len() ==> (#[trigger] parts[g]).len() > 0
    &&& forall|g: int, k: int|
        0 <= g < parts.len() && 0 <= k < parts[g].len() ==> #[trigger] parts[g][k] < olds.len()
    &&& forall|g1: int, k1: int, g2: int, k2: int|
        0 <= g1 < parts.len() && 0 <= k1 < parts[g1].len() && 0 <= g2 < parts.len() && 0 <= k2
            < parts[g2].len() && #[trigger] parts[g1][k1] == #[trigger] parts[g2][k2] ==> g1 == g2
            && k1 == k2
    &&& forall|i: int| 0 <= i < olds.len() ==> part_covers(parts, i)
}

/// An unstable cube and every alive cube its boundary touches share a
/// component.
pub open spec fn parts_closed(olds: Seq<Cube>, parts: Seq<Seq<usize>>) -> bool {
    forall|i: int, j: int|
        0 <= i < olds.len() && 0 <= j < olds.len() && olds[i].spec_alive() && olds[
            i
        ].spec_unstable() && olds[j].spec_alive() && #[trigger] adjacent(olds, i, j)
            ==> same_part(parts, i, j)
}

/// Any two members of one component are linked by an adjacency chain.
pub open spec fn parts_connected(olds: Seq<Cube>, parts: Seq<Seq<usize>>) -> bool {
    forall|g: int, k1: int, k2: int|
        #![trigger parts[g][k1], parts[g][k2]]
        0 <= g < parts.len() && 0 <= k1 < parts[g].len() && 0 <= k2 < parts[g].len() ==> (parts[
            g
        ][k1] == parts[g][k2] || connected(olds, parts[g][k1] as int, parts[g][k2] as int))
}

/// A component of more than one cube grew out of an unstable seed.
pub open spec fn parts_seeded(olds: Seq<Cube>, parts: Seq<Seq<usize>>) -> bool {
    forall|g: int|
        0 <= g < parts.len() && (#[trigger] parts[g]).len() > 1 ==> exists|k: int|
            0 <= k < parts[g].len() && olds[#[trigger] parts[g][k] as int].spec_unstable()
}

/// What one component contributes to the final state, by its tally.
pub open spec fn part_outcome(olds: Seq<Cube>, finals: Seq<Cube>, part: Seq<usize>) -> bool {
    match spec_arena_result(part_kinds(olds, part)) {
        crate::arena::ArenaResult::Nothing => forall|k: int|
            0 <= k < part.len() ==> exists|f: int|
                0 <= f < finals.len() && #[trigger] finals[f] == olds[#[trigger] part[k] as int],
        crate::arena::ArenaResult::Draw => forall|k: int|
            0 <= k < part.len() ==> exists|f: int|
                0 <= f < finals.len() && #[trigger] finals[f] == with_balanced(
                    olds[#[trigger] part[k] as int],
                    true,
                ),
        crate::arena::ArenaResult::Have(kd) => exists|f: int|
            0 <= f < finals.len() && #[trigger] merged_shape(finals[f], olds, part, kd),
    }
}

/// Every component's outcome shows in the final state.
pub open spec fn parts_outcomes(olds: Seq<Cube>, finals: Seq<Cube>, parts: Seq<Seq<usize>>) -> bool {
    forall|g: int| 0 <= g < parts.len() ==> part_outcome(olds, finals, #[trigger] parts[g])
}

/// One final cube explained by one component.
pub open spec fn final_from_part(olds: Seq<Cube>, c: Cube, part: Seq<usize>) -> bool {
    match spec_arena_result(part_kinds(olds, part)) {
        crate::arena::ArenaResult::Nothing => exists|k: int|
            0 <= k < part.len() && c == olds[#[trigger] part[k] as int],
        crate::arena::ArenaResult::Draw => exists|k: int|
            0 <= k < part.len() && c == with_balanced(olds[#[trigger] part[k] as int], true),
        crate::arena::ArenaResult::Have(kd) => merged_shape(c, olds, part, kd),
    }
}

/// Every final cube is explained by some component.
pub open spec fn finals_from_parts(
    olds: Seq<Cube>,
    finals: Seq<Cube>,
    parts: Seq<Seq<usize>>,
) -> bool {
    forall|f: int| 0 <= f < finals.len() ==> #[trigger] final_explained(olds, finals, parts, f)
}

/// Whether some component explains the final cube at `f`.
pub open spec fn final_explained(
    olds: Seq<Cube>,
    finals: Seq<Cube>,
    parts: Seq<Seq<usize>>,
    f: int,
) -> bool {
    exists|g: int|
        #![trigger parts[g]]
        0 <= g < parts.len() && final_from_part(olds, finals[f], parts[g])
}

/// The whole account of one absorption tick: the cubes split into the
/// connected components of outline adjacency seeded at unstable cubes,
/// and the final state is exactly the per-component contest outcomes.
pub open spec fn absorb_outcome(olds: Seq<Cube>, finals: Seq<Cube>, parts: Seq<Seq<usize>>) -> bool {
    &&& parts_wf(olds, parts)
    &&& parts_closed(olds, parts)
    &&& parts_connected(olds, parts)
    &&& parts_seeded(olds, parts)
    &&& parts_outcomes(olds, finals, parts)
    &&& finals_from_parts(olds, finals, parts)
}

/// How one member of a contested component stands mid-tick, before
/// pruning: untouched, balanced, merged into the head, or emptied.
pub open spec fn part_member_state(
    olds: Seq<Cube>,
    cur: Seq<Cube>,
    part: Seq<usize>,
    k: int,
) -> bool {
    match spec_arena_result(part_kinds(olds, part)) {
        crate::arena::ArenaResult::Nothing => cur[part[k] as int] == olds[part[k] as int],
        crate::arena::ArenaResult::Draw => cur[part[k] as int] == with_balanced(
            olds[part[k] as int],
            true,
        ),
        crate::arena::ArenaResult::Have(kd) => if k == 0 {
            merged_shape(cur[part[0] as int], olds, part, kd)
        } else {
            cur[part[k] as int].units@.len() == 0
        },
    }
}

/// The winner tallies, merge inputs and occupancy of a component depend
/// only on its members' cubes.
proof fn lemma_part_agree(c1: Seq<Cube>, c2: Seq<Cube>, from: Seq<usize>, kind: Kind)
    requires
        forall|k: int|
            0 <= k < from.len() ==> #[trigger] from[k] < c1.len() && from[k] < c2.len() && c1[
                from[k] as int
            ] == c2[from[k] as int],
    ensures
        winners_movements(c1, from, kind) == winners_movements(c2, from, kind),
        winners_motions(c1, from, kind) == winners_motions(c2, from, kind),
        winners_constraint(c1, from, kind) == winners_constraint(c2, from, kind),
        concat_units(c1, from) == concat_units(c2, from),
        part_kinds(c1, from) =~= part_kinds(c2, from),
        forall|p: Point|
            group_occupies(c1, from, p) <==> #[trigger] group_occupies(c2, from, p),
    decreases from.len(),
{
    assert forall|p: Point|
        group_occupies(c1, from, p) <==> #[trigger] group_occupies(c2, from, p) by {
        if group_occupies(c1, from, p) {
            let k = choose|k: int|
                0 <= k < from.len() && footprint(c1[#[trigger] from[k] as int].units@).contains(
                    p,
                );
            assert(footprint(c2[from[k] as int].units@).contains(p));
        }
        if group_occupies(c2, from, p) {
            let k = choose|k: int|
                0 <= k < from.len() && footprint(c2[#[trigger] from[k] as int].units@).contains(
                    p,
                );
            assert(footprint(c1[from[k] as int].units@).contains(p));
        }
    }
    if from.len() > 0 {
        let rest = from.drop_last();
        assert forall|k: int|
            0 <= k < rest.len() implies #[trigger] rest[k] < c1.len() && rest[k] < c2.len()
                && c1[rest[k] as int] == c2[rest[k] as int] by {
            assert(rest[k] == from[k]);
        }
        lemma_part_agree(c1, c2, rest, kind);
        assert(c1[from.last() as int] == c2[from.last() as int]);
    }
}

/// The root-merge formula one union step leaves behind.
pub open spec fn join_formula(
    c1: crate::lookup::DisjointSet,
    c2: crate::lookup::DisjointSet,
    x: int,
    y: int,
) -> bool {
    forall|a: int|
        0 <= a < c1.spec_len() ==> c2.spec_root(a) == (if c1.spec_root(a) == c1.spec_root(x)
            || c1.spec_root(a) == c1.spec_root(y) {
            if c1.spec_root(x) <= c1.spec_root(y) {
                c1.spec_root(x)
            } else {
                c1.spec_root(y)
            }
        } else {
            c1.spec_root(a)
        })
}

/// A union step joins its two arguments and keeps every joined pair.
proof fn lemma_after_join(
    olds: Seq<Cube>,
    c1: crate::lookup::DisjointSet,
    c2: crate::lookup::DisjointSet,
    x: int,
    y: int,
)
    requires
        c1.spec_len() == c2.spec_len(),
        0 <= x < c1.spec_len(),
        0 <= y < c1.spec_len(),
        join_formula(c1, c2, x, y),
    ensures
        joined(c2, x, y),
        forall|a: int, b: int|
            0 <= a < c1.spec_len() && 0 <= b < c1.spec_len() && #[trigger] joined(c1, a, b)
                ==> joined(c2, a, b),
{
}

/// A pair newly joined by a union step bridges through its two arguments.
proof fn lemma_merge_cases(
    olds: Seq<Cube>,
    c1: crate::lookup::DisjointSet,
    c2: crate::lookup::DisjointSet,
    x: int,
    y: int,
    a: int,
    b: int,
)
    requires
        c1.spec_len() == c2.spec_len(),
        c1.spec_len() == olds.len(),
        0 <= x < olds.len(),
        0 <= y < olds.len(),
        0 <= a < olds.len(),
        0 <= b < olds.len(),
        a != b,
        join_formula(c1, c2, x, y),
        forall|i: int| 0 <= i < olds.len() ==> (#[trigger] olds[i]).spec_alive(),
        forall|p: int, q: int|
            0 <= p < olds.len() && 0 <= q < olds.len() && p != q && #[trigger] joined(c1, p, q)
                ==> connected(olds, p, q),
        connected(olds, x, y),
        joined(c2, a, b),
        !joined(c1, a, b),
    ensures
        connected(olds, a, b),
{
    let ra = c1.spec_root(a);
    let rb = c1.spec_root(b);
    let rx = c1.spec_root(x);
    let ry = c1.spec_root(y);
    assert((ra == rx || ra == ry) && (rb == rx || rb == ry));
    let side_a = if ra == rx {
        x
    } else {
        y
    };
    let side_b = if rb == rx {
        x
    } else {
        y
    };
    assert(joined(c1, a, side_a));
    assert(joined(c1, b, side_b));
    assert(connected(olds, a, side_a)) by {
        if a == side_a {
            lemma_connected_refl(olds, a);
        }
    }
    assert(connected(olds, b, side_b)) by {
        if b == side_b {
            lemma_connected_refl(olds, b);
        }
    }
    assert(connected(olds, side_a, side_b)) by {
        if side_a == side_b {
            lemma_connected_refl(olds, side_a);
        } else if side_a == x {
            assert(connected(olds, x, y));
        } else {
            lemma_connected_sym(olds, x, y);
        }
    }
    lemma_connected_trans(olds, a, side_a, side_b);
    lemma_connected_sym(olds, b, side_b);
    lemma_connected_trans(olds, a, side_b, b);
}

/// A union step of two other classes cannot capture an isolated index.
proof fn lemma_merge_isolated(
    c1: crate::lookup::DisjointSet,
    c2: crate::lookup::DisjointSet,
    x: int,
    y: int,
    i: int,
    j: int,
    n: int,
)
    requires
        c1.wf(),
        c1.spec_len() == n,
        c2.spec_len() == n,
        0 <= x < n,
        0 <= y < n,
        0 <= i < n,
        0 <= j < n,
        join_formula(c1, c2, x, y),
        forall|q: int| 0 <= q < n && #[trigger] joined(c1, q, i) ==> q == i,
        x != i,
        y != i,
        joined(c2, j, i),
    ensures
        j == i,
{
    crate::lookup::lemma_chain_root_basics(c1.view_parents(), i);
    assert(joined(c1, c1.spec_root(i), i));
    assert(c1.spec_root(i) == i);
    assert(c1.spec_root(x) != i) by {
        if c1.spec_root(x) == i {
            assert(joined(c1, x, i));
        }
    }
    assert(c1.spec_root(y) != i) by {
        if c1.spec_root(y) == i {
            assert(joined(c1, y, i));
        }
    }
    assert(c2.spec_root(i) == i);
    assert(c1.spec_root(j) == i) by {
        if c1.spec_root(j) == c1.spec_root(x) || c1.spec_root(j) == c1.spec_root(y) {
            assert(c2.spec_root(j) != i);
        }
    }
    assert(joined(c1, j, i));
}

/// One traversal union step keeps every class invariant: the pair is
/// joined, old classes persist, soundness and seeding carry over, settled
/// cubes stay settled, and untouched unvisited cubes stay isolated.
proof fn lemma_traversal_join(
    olds: Seq<Cube>,
    c1: crate::lookup::DisjointSet,
    c2: crate::lookup::DisjointSet,
    cur: int,
    other: int,
    visitv: Seq<bool>,
    queuev: Seq<usize>,
)
    requires
        c1.wf(),
        c1.spec_len() == olds.len(),
        c2.spec_len() == olds.len(),
        0 <= cur < olds.len(),
        0 <= other < olds.len(),
        join_formula(c1, c2, cur, other),
        forall|i: int| 0 <= i < olds.len() ==> (#[trigger] olds[i]).spec_alive(),
        adjacent(olds, cur, other),
        visitv.len() == olds.len(),
        visitv[cur],
        forall|a: int, b: int|
            0 <= a < olds.len() && 0 <= b < olds.len() && a != b && #[trigger] joined(c1, a, b)
                ==> connected(olds, a, b),
        forall|i: int|
            #![trigger visitv[i]]
            0 <= i < olds.len() && !visitv[i] ==> (forall|j: int|
                0 <= j < olds.len() && #[trigger] joined(c1, j, i) ==> j == i),
        forall|i: int|
            #![trigger visitv[i]]
            0 <= i < olds.len() && visitv[i] ==> exists|u: int|
                0 <= u < olds.len() && olds[u].spec_unstable() && #[trigger] joined(c1, u, i),
        forall|i: int|
            #![trigger visitv[i]]
            0 <= i < olds.len() && visitv[i] && !in_queue(queuev, i as usize) && i != cur
                ==> settled(olds, c1, i),
    ensures
        joined(c2, cur, other),
        forall|a: int, b: int|
            0 <= a < olds.len() && 0 <= b < olds.len() && #[trigger] joined(c1, a, b) ==> joined(
                c2,
                a,
                b,
            ),
        forall|a: int, b: int|
            0 <= a < olds.len() && 0 <= b < olds.len() && a != b && #[trigger] joined(c2, a, b)
                ==> connected(olds, a, b),
        forall|i: int|
            #![trigger visitv[i]]
            0 <= i < olds.len() && !visitv[i] && i != other ==> (forall|j: int|
                0 <= j < olds.len() && #[trigger] joined(c2, j, i) ==> j == i),
        forall|i: int|
            #![trigger visitv[i]]
            0 <= i < olds.len() && visitv[i] ==> exists|u: int|
                0 <= u < olds.len() && olds[u].spec_unstable() && #[trigger] joined(c2, u, i),
        forall|i: int|
            #![trigger visitv[i]]
            0 <= i < olds.len() && visitv[i] && !in_queue(queuev, i as usize) && i != cur
                ==> settled(olds, c2, i),
{
    lemma_after_join(olds, c1, c2, cur, other);
    lemma_connected_edge(olds, cur, other);
    assert forall|a: int, b: int|
        0 <= a < olds.len() && 0 <= b < olds.len() && a != b && #[trigger] joined(c2, a, b)
        implies connected(olds, a, b) by {
        if !joined(c1, a, b) {
            lemma_merge_cases(olds, c1, c2, cur, other, a, b);
        }
    }
    assert forall|i: int|
        #![trigger visitv[i]]
        0 <= i < olds.len() && !visitv[i] && i != other implies (forall|j: int|
        0 <= j < olds.len() && #[trigger] joined(c2, j, i) ==> j == i) by {
        assert forall|j: int|
            0 <= j < olds.len() && #[trigger] joined(c2, j, i) implies j == i by {
            assert(cur != i);
            lemma_merge_isolated(c1, c2, cur, other, i, j, olds.len() as int);
        }
    }
    assert forall|i: int|
        #![trigger visitv[i]]
        0 <= i < olds.len() && visitv[i] implies exists|u: int|
            0 <= u < olds.len() && olds[u].spec_unstable() && #[trigger] joined(c2, u, i) by {
        let u = choose|u: int|
            0 <= u < olds.len() && olds[u].spec_unstable() && #[trigger] joined(c1, u, i);
        assert(joined(c2, u, i));
    }
    assert forall|i: int|
        #![trigger visitv[i]]
        0 <= i < olds.len() && visitv[i] && !in_queue(queuev, i as usize) && i != cur
        implies settled(olds, c2, i) by {
        assert(settled(olds, c1, i));
        assert forall|j: int|
            0 <= j < olds.len() && (#[trigger] olds[j]).spec_alive() && adjacent(olds, i, j)
            implies joined(c2, i, j) by {
            assert(joined(c1, i, j));
        }
    }
}

/// A recorded component outcome survives the processing of a later
/// component: the two share no member, so the indices it reads keep their
/// values.
proof fn lemma_state_untouched(
    olds: Seq<Cube>,
    pre: Seq<Cube>,
    post: Seq<Cube>,
    groups: Seq<Vec<usize>>,
    group: Seq<usize>,
    g: int,
    g0: int,
    k0: int,
)
    requires
        pre.len() == post.len(),
        0 <= g0 < g < groups.len(),
        group == groups[g]@,
        0 <= k0 < groups[g0]@.len(),
        forall|ga: int, ka: int|
            0 <= ga < groups.len() && 0 <= ka < groups[ga]@.len()
                ==> #[trigger] groups[ga]@[ka] < pre.len(),
        forall|g1: int, k1: int, g2: int, k2: int|
            0 <= g1 < groups.len() && 0 <= k1 < groups[g1]@.len() && 0 <= g2 < groups.len() && 0
                <= k2 < groups[g2]@.len() && #[trigger] groups[g1]@[k1] == #[trigger] groups[
            g2]@[k2] ==> g1 == g2 && k1 == k2,
        part_member_state(olds, pre, groups[g0]@, k0),
        forall|x: int|
            0 <= x < post.len() && !group_holds(group, x) ==> #[trigger] post[x] == pre[x],
    ensures
        part_member_state(olds, post, groups[g0]@, k0),
{
    let p0 = groups[g0]@;
    assert forall|k: int|
        0 <= k < p0.len() implies post[#[trigger] p0[k] as int] == pre[p0[k] as int] by {
        assert(!group_holds(group, p0[k] as int)) by {
            if group_holds(group, p0[k] as int) {
                let kk = choose|kk: int|
                    0 <= kk < group.len() && #[trigger] group[kk] as int == p0[k] as int;
                assert(groups[g]@[kk] == groups[g0]@[k]);
            }
        }
    }
    assert(post[p0[k0] as int] == pre[p0[k0] as int]);
    assert(post[p0[0] as int] == pre[p0[0] as int]);
}

/// Assemble the whole account of one tick: the disjoint-set classes give
/// the components, and the recorded mid-tick member states survive the
/// pruning into the final state.
#[verifier::rlimit(100)]
#[verifier::spinoff_prover]
proof fn lemma_absorb_outcome(
    olds: Seq<Cube>,
    mid: Seq<Cube>,
    finals: Seq<Cube>,
    csnap: crate::lookup::DisjointSet,
    groups: Seq<Vec<usize>>,
    parts: Seq<Seq<usize>>,
)
    requires
        parts == groups.map_values(|v: Vec<usize>| v@),
        mid.len() == olds.len(),
        csnap.spec_len() == olds.len(),
        forall|i: int| 0 <= i < olds.len() ==> (#[trigger] olds[i]).spec_alive(),
        // the classes listed by the disjoint set
        forall|g: int| 0 <= g < groups.len() ==> #[trigger] groups[g]@.len() > 0,
        forall|g: int, k: int|
            0 <= g < groups.len() && 0 <= k < groups[g]@.len()
                ==> #[trigger] groups[g]@[k] < olds.len(),
        forall|g: int, k: int|
            0 <= g < groups.len() && 0 <= k < groups[g]@.len() ==> csnap.spec_root(
                #[trigger] groups[g]@[k] as int,
            ) == groups[g]@[0],
        forall|g: int|
            0 <= g < groups.len() ==> csnap.spec_root(#[trigger] groups[g]@[0] as int)
                == groups[g]@[0],
        forall|g1: int, g2: int|
            #![trigger groups[g1]@[0], groups[g2]@[0]]
            0 <= g1 < g2 < groups.len() ==> groups[g1]@[0] < groups[g2]@[0],
        forall|g: int, k1: int, k2: int|
            #![trigger groups[g]@[k1], groups[g]@[k2]]
            0 <= g < groups.len() && 0 <= k1 < k2 < groups[g]@.len()
                ==> groups[g]@[k1] < groups[g]@[k2],
        forall|i: int| 0 <= i < olds.len() ==> #[trigger] crate::lookup::group_covers(groups, i),
        // what the traversal guarantees of the classes
        forall|i: int, j: int|
            0 <= i < olds.len() && 0 <= j < olds.len() && (#[trigger] olds[i]).spec_unstable()
                && (#[trigger] olds[j]).spec_alive() && adjacent(olds, i, j) ==> joined(
                csnap,
                i,
                j,
            ),
        forall|a: int, b: int|
            0 <= a < olds.len() && 0 <= b < olds.len() && a != b && #[trigger] joined(
                csnap,
                a,
                b,
            ) ==> connected(olds, a, b),
        forall|a: int, b: int|
            0 <= a < olds.len() && 0 <= b < olds.len() && a != b && #[trigger] joined(
                csnap,
                a,
                b,
            ) ==> exists|u: int|
                0 <= u < olds.len() && olds[u].spec_unstable() && joined(csnap, u, a),
        // what contesting left at each member index
        forall|g: int, k: int|
            #![trigger groups[g]@[k]]
            0 <= g < groups.len() && 0 <= k < groups[g]@.len() ==> part_member_state(
                olds,
                mid,
                groups[g]@,
                k,
            ),
        // what pruning kept
        forall|f: int| 0 <= f < finals.len() ==> (#[trigger] finals[f]).spec_alive(),
        forall|f: int|
            0 <= f < finals.len() ==> exists|i: int|
                0 <= i < mid.len() && #[trigger] finals[f] == mid[i],
        forall|i: int|
            0 <= i < mid.len() && (#[trigger] mid[i]).spec_alive() ==> exists|f: int|
                0 <= f < finals.len() && finals[f] == mid[i],
    ensures
        absorb_outcome(olds, finals, parts),
{
    assert forall|g: int| 0 <= g < parts.len() implies #[trigger] parts[g] == groups[g]@ by {}
    assert(parts_wf(olds, parts)) by {
        assert forall|i: int| 0 <= i < olds.len() implies part_covers(parts, i) by {
            assert(crate::lookup::group_covers(groups, i));
            let (g, k): (int, int) = choose|g: int, k: int|
                0 <= g < groups.len() && 0 <= k < groups[g]@.len() && #[trigger] groups[
                g]@[k] == i;
            assert(parts[g][k] as int == i);
        }
        assert forall|g1: int, k1: int, g2: int, k2: int|
            0 <= g1 < parts.len() && 0 <= k1 < parts[g1].len() && 0 <= g2 < parts.len() && 0
                <= k2 < parts[g2].len() && #[trigger] parts[g1][k1] == #[trigger] parts[
        g2][k2] implies g1 == g2 && k1 == k2 by {
            assert(csnap.spec_root(parts[g1][k1] as int) == groups[g1]@[0]);
            assert(csnap.spec_root(parts[g2][k2] as int) == groups[g2]@[0]);
            if g1 < g2 {
                assert(groups[g1]@[0] < groups[g2]@[0]);
                assert(false);
            }
            if g2 < g1 {
                assert(groups[g2]@[0] < groups[g1]@[0]);
                assert(false);
            }
            if k1 != k2 {
                assert(groups[g1]@[k1] == groups[g1]@[k2]);
                assert(csnap.spec_root(groups[g1]@[k1] as int) == groups[g1]@[0]);
            }
        }
    }
    assert(parts_closed(olds, parts)) by {
        assert forall|i: int, j: int|
            0 <= i < olds.len() && 0 <= j < olds.len() && olds[i].spec_alive() && olds[
        i].spec_unstable() && olds[j].spec_alive() && #[trigger] adjacent(olds, i, j)
            implies same_part(parts, i, j) by {
            assert(joined(csnap, i, j));
            assert(crate::lookup::group_covers(groups, i));
            assert(crate::lookup::group_covers(groups, j));
            let (ga, k1): (int, int) = choose|ga: int, k1: int|
                0 <= ga < groups.len() && 0 <= k1 < groups[ga]@.len() && #[trigger] groups[
                ga]@[k1] == i;
            let (gb, k2): (int, int) = choose|gb: int, k2: int|
                0 <= gb < groups.len() && 0 <= k2 < groups[gb]@.len() && #[trigger] groups[
                gb]@[k2] == j;
            assert(csnap.spec_root(i) == groups[ga]@[0]);
            assert(csnap.spec_root(j) == groups[gb]@[0]);
            if ga < gb {
                assert(groups[ga]@[0] < groups[gb]@[0]);
                assert(false);
            }
            if gb < ga {
                assert(groups[gb]@[0] < groups[ga]@[0]);
                assert(false);
            }
            assert(parts[ga][k1] as int == i && parts[ga][k2] as int == j);
        }
    }
    assert(parts_connected(olds, parts)) by {
        assert forall|g: int, k1: int, k2: int|
            #![trigger parts[g][k1], parts[g][k2]]
            0 <= g < parts.len() && 0 <= k1 < parts[g].len() && 0 <= k2 < parts[g].len()
            implies (parts[g][k1] == parts[g][k2] || connected(
            olds,
            parts[g][k1] as int,
            parts[g][k2] as int,
        )) by {
            if parts[g][k1] != parts[g][k2] {
                assert(csnap.spec_root(groups[g]@[k1] as int) == groups[g]@[0]);
                assert(csnap.spec_root(groups[g]@[k2] as int) == groups[g]@[0]);
                assert(joined(csnap, parts[g][k1] as int, parts[g][k2] as int));
            }
        }
    }
    assert(parts_seeded(olds, parts)) by {
        assert forall|g: int|
            0 <= g < parts.len() && (#[trigger] parts[g]).len() > 1 implies exists|k: int|
                0 <= k < parts[g].len() && olds[#[trigger] parts[g][k] as int].spec_unstable()
            by {
            let a = parts[g][0] as int;
            let b = parts[g][1] as int;
            assert(groups[g]@[0] < groups[g]@[1] || groups[g]@[0] == groups[g]@[1]) by {}
            assert(a != b) by {
                if a == b {
                    assert(groups[g]@[0] == groups[g]@[1]);
                }
            }
            assert(csnap.spec_root(groups[g]@[0] as int) == groups[g]@[0]);
            assert(csnap.spec_root(groups[g]@[1] as int) == groups[g]@[0]);
            assert(joined(csnap, a, b));
            let u = choose|u: int|
                0 <= u < olds.len() && olds[u].spec_unstable() && #[trigger] joined(
                    csnap,
                    u,
                    a,
                );
            assert(crate::lookup::group_covers(groups, u));
            let (gu, ku): (int, int) = choose|gu: int, ku: int|
                0 <= gu < groups.len() && 0 <= ku < groups[gu]@.len() && #[trigger] groups[
                gu]@[ku] == u;
            assert(csnap.spec_root(u) == groups[gu]@[0]);
            assert(csnap.spec_root(a) == groups[g]@[0]);
            if gu < g {
                assert(groups[gu]@[0] < groups[g]@[0]);
                assert(false);
            }
            if g < gu {
                assert(groups[g]@[0] < groups[gu]@[0]);
                assert(false);
            }
            assert(olds[parts[g][ku] as int].spec_unstable());
        }
    }
    assert(parts_outcomes(olds, finals, parts)) by {
        assert forall|g: int|
            0 <= g < parts.len() implies part_outcome(olds, finals, #[trigger] parts[g]) by {
            let p = parts[g];
            match spec_arena_result(part_kinds(olds, p)) {
                crate::arena::ArenaResult::Nothing => {
                    assert forall|k: int|
                        0 <= k < p.len() implies exists|f: int|
                            0 <= f < finals.len() && #[trigger] finals[f] == olds[
                        #[trigger] p[k] as int] by {
                        assert(part_member_state(olds, mid, groups[g]@, k));
                        assert(mid[p[k] as int] == olds[p[k] as int]);
                        assert(mid[p[k] as int].spec_alive());
                        let f = choose|f: int|
                            0 <= f < finals.len() && finals[f] == mid[p[k] as int];
                        assert(finals[f] == olds[p[k] as int]);
                    }
                },
                crate::arena::ArenaResult::Draw => {
                    assert forall|k: int|
                        0 <= k < p.len() implies exists|f: int|
                            0 <= f < finals.len() && #[trigger] finals[f] == with_balanced(
                                olds[#[trigger] p[k] as int],
                                true,
                            ) by {
                        assert(part_member_state(olds, mid, groups[g]@, k));
                        assert(mid[p[k] as int] == with_balanced(olds[p[k] as int], true));
                        assert(mid[p[k] as int].spec_alive()) by {
                            assert(olds[p[k] as int].spec_alive());
                        }
                        let f = choose|f: int|
                            0 <= f < finals.len() && finals[f] == mid[p[k] as int];
                    }
                },
                crate::arena::ArenaResult::Have(kd) => {
                    assert(part_member_state(olds, mid, groups[g]@, 0));
                    assert(merged_shape(mid[p[0] as int], olds, p, kd));
                    assert(mid[p[0] as int].spec_alive()) by {
                        let head_old = olds[p[0] as int];
                        assert(head_old.spec_alive());
                        let q = head_old.units@[0].position;
                        assert(footprint(head_old.units@).contains(q)) by {
                            assert(head_old.units@[0].position == q);
                        }
                        assert(group_occupies(olds, p, q)) by {
                            assert(footprint(
                                olds[#[trigger] p[0] as int].units@,
                            ).contains(q));
                        }
                        assert(footprint(mid[p[0] as int].units@).contains(q));
                        let t = choose|t: int|
                            0 <= t < mid[p[0] as int].units@.len() && (#[trigger] mid[
                            p[0] as int].units@[t]).position == q;
                    }
                    let f = choose|f: int|
                        0 <= f < finals.len() && finals[f] == mid[p[0] as int];
                    assert(merged_shape(finals[f], olds, p, kd));
                },
            }
        }
    }
    assert forall|f: int|
        0 <= f < finals.len() implies #[trigger] final_explained(olds, finals, parts, f) by {
            let i = choose|i: int| 0 <= i < mid.len() && #[trigger] finals[f] == mid[i];
            assert(crate::lookup::group_covers(groups, i));
            let (g, k): (int, int) = choose|g: int, k: int|
                0 <= g < groups.len() && 0 <= k < groups[g]@.len() && #[trigger] groups[
                g]@[k] == i;
            assert(part_member_state(olds, mid, groups[g]@, k));
            let p = parts[g];
            match spec_arena_result(part_kinds(olds, p)) {
                crate::arena::ArenaResult::Nothing => {
                    assert(finals[f] == olds[p[k] as int]);
                    assert(final_from_part(olds, finals[f], p));
                },
                crate::arena::ArenaResult::Draw => {
                    assert(finals[f] == with_balanced(olds[p[k] as int], true));
                    assert(final_from_part(olds, finals[f], p));
                },
                crate::arena::ArenaResult::Have(kd) => {
                    if k == 0 {
                        assert(merged_shape(finals[f], olds, p, kd));
                    } else {
                        assert(mid[p[k] as int].units@.len() == 0);
                        assert(!finals[f].spec_alive());
                        assert(false);
                    }
                    assert(final_from_part(olds, finals[f], p));
                },
            }
            assert(0 <= g < parts.len());
            assert(final_from_part(olds, finals[f], parts[g]));
    }
    assert(finals_from_parts(olds, finals, parts));
}

/// Whether some cube carries kind `k`.
pub open spec fn kind_present(cubes: Seq<Cube>, k: Kind) -> bool {
    exists|i: int| 0 <= i < cubes.len() && (#[trigger] cubes[i]).kind == k
}

/// Every fed kind belongs to some member of the group.
pub open spec fn fed_from(fed: Seq<Kind>, cubes: Seq<Cube>, group: Seq<usize>) -> bool {
    forall|j: int|
        0 <= j < fed.len() ==> exists|k0: int|
            0 <= k0 < group.len() && #[trigger] fed[j] == cubes[group[k0] as int].kind
}

/// A cube whose movement was replaced.
pub open spec fn with_movement(c: Cube, m: Option<Movement>) -> Cube {
    Cube {
        kind: c.kind,
        units: c.units,
        motion: c.motion,
        outlines: c.outlines,
        balanced: c.balanced,
        movement: m,
        constraint: c.constraint,
    }
}

/// A cube whose constraint was replaced.
pub open spec fn with_constraint(c: Cube, k: Constraint) -> Cube {
    Cube {
        kind: c.kind,
        units: c.units,
        motion: c.motion,
        outlines: c.outlines,
        balanced: c.balanced,
        movement: c.movement,
        constraint: k,
    }
}

/// The cubes after a movement input: every cube of the controlled kind
/// takes the input, every other cube keeps its movement.
pub open spec fn assign_movement(cubes: Seq<Cube>, controlled: Kind, mv: Option<Movement>) -> Seq<
    Cube,
> {
    Seq::new(
        cubes.len(),
        |i: int|
            if cubes[i].kind == controlled {
                with_movement(cubes[i], mv)
            } else {
                cubes[i]
            },
    )
}

/// The boundary cells a moving cube leads with.
pub open spec fn spec_frontline(c: Cube) -> Seq<Point> {
    crate::outlines::spec_outline(c.units@, crate::outlines::spec_anchor(c.units@), c.movement.unwrap())
}

/// Some leading-edge cell is statically blocked.
pub open spec fn front_hits_obstacle(cubes: Seq<Cube>, area: Area, i: int) -> bool {
    exists|t: int|
        0 <= t < spec_frontline(cubes[i]).len() && area.spec_blocked(
            #[trigger] spec_frontline(cubes[i])[t],
        )
}

/// Some leading-edge cell is occupied by a cube that will not move along:
/// one that is stationary, or moves elsewhere and cannot link.
pub open spec fn front_hits_stopper(cubes: Seq<Cube>, i: int) -> bool {
    exists|t: int, j: int|
        0 <= t < spec_frontline(cubes[i]).len() && #[trigger] cube_at(
            cubes,
            j,
            spec_frontline(cubes[i])[t],
        ) && j != i && !(cubes[j].movement is Some && (cubes[j].movement == cubes[i].movement
            || cubes[i].kind.spec_linkable(cubes[j].kind)))
}

/// Cube `j` occupies a leading-edge cell of `i` and moves the same way.
pub open spec fn front_same_mover(cubes: Seq<Cube>, i: int, j: int) -> bool {
    exists|t: int|
        0 <= t < spec_frontline(cubes[i]).len() && #[trigger] cube_at(
            cubes,
            j,
            spec_frontline(cubes[i])[t],
        ) && j != i && cubes[j].movement == cubes[i].movement
}

/// A moving cube is blocked within `d` steps: directly by an obstacle or a
/// stopper, or through a same-direction cube ahead that is itself blocked
/// within `d - 1` steps.
pub open spec fn blocked_within(cubes: Seq<Cube>, area: Area, i: int, d: int) -> bool
    decreases d,
{
    if d <= 0 {
        false
    } else {
        cubes[i].movement is Some && (front_hits_obstacle(cubes, area, i) || front_hits_stopper(
            cubes,
            i,
        ) || exists|j: int|
            0 <= j < cubes.len() && #[trigger] front_same_mover(cubes, i, j) && blocked_within(
                cubes,
                area,
                j,
                d - 1,
            ))
    }
}

/// A moving cube is blocked if it is blocked within any number of steps.
pub open spec fn spec_blocked(cubes: Seq<Cube>, area: Area, i: int) -> bool {
    exists|d: int| #[trigger] blocked_within(cubes, area, i, d)
}

/// A set that contains every directly blocked cube and is closed under the
/// same-direction chain rule contains every blocked cube.
proof fn lemma_blocked_closure(cubes: Seq<Cube>, area: Area, marked: Seq<bool>, i: int, d: int)
    requires
        marked.len() == cubes.len(),
        forall|i0: int|
            #![trigger marked[i0]]
            0 <= i0 < cubes.len() && !marked[i0] && cubes[i0].movement is Some ==> (
            !front_hits_obstacle(cubes, area, i0) && !front_hits_stopper(cubes, i0) && forall|
                j: int,
            |
                0 <= j < cubes.len() && #[trigger] front_same_mover(cubes, i0, j)
                    ==> !marked[j]),
        0 <= i < cubes.len(),
        blocked_within(cubes, area, i, d),
    ensures
        marked[i],
    decreases d,
{
    if !marked[i] {
        assert(d > 0);
        if front_hits_obstacle(cubes, area, i) || front_hits_stopper(cubes, i) {
            assert(false);
        } else {
            let j = choose|j: int|
                0 <= j < cubes.len() && #[trigger] front_same_mover(cubes, i, j)
                    && blocked_within(cubes, area, j, d - 1);
            assert(!marked[j]);
            lemma_blocked_closure(cubes, area, marked, j, d - 1);
        }
    }
}

/// Owns the static area and every live cube, and runs the per-tick
/// absorption and movement-resolution passes.
pub struct Collection {
    pub area: Area,
    pub cubes: Vec<Cube>,
}

impl Collection {
    /// Geometry of every cube is sound and no two cubes overlap, nor does
    /// any cube sit on a statically blocked cell.
    pub open spec fn geometry_ok(self) -> bool {
        &&& self.area.wf()
        &&& forall|i: int| 0 <= i < self.cubes@.len() ==> (#[trigger] self.cubes@[i]).wf()
        &&& crate::faction::cubes_disjoint(self.cubes@)
        &&& forall|i: int, p: Point|
            #![trigger footprint(self.cubes@[i].units@).contains(p)]
            0 <= i < self.cubes@.len() && footprint(self.cubes@[i].units@).contains(p)
                ==> !self.area.spec_blocked(p)
    }

    /// The public invariant: sound geometry and only alive cubes.
    pub open spec fn wf(self) -> bool {
        &&& self.geometry_ok()
        &&& forall|i: int| 0 <= i < self.cubes@.len() ==> (#[trigger] self.cubes@[i]).spec_alive()
    }

    /// Whether some seed paints `q` before position (`i`, `k`) in seed
    /// order.
    pub open spec fn painted_before(seeds: Seq<CubeSeed>, i: int, k: int, q: Point) -> bool {
        ||| exists|i0: int, k0: int|
            0 <= i0 < i && 0 <= k0 < seeds[i0].body@.len() && #[trigger] seeds[i0].body@[k0] == q
        ||| exists|k0: int| 0 <= k0 < k && #[trigger] seeds[i].body@[k0] == q
    }

    /// Build a collection from level data: the grid size, the static
    /// obstacle cells (grouped), and one seed per cube. All validation
    /// happens here; a tick never fails afterwards. Rejects, in this
    /// order: an unusable grid size, any point off the grid, a cube
    /// without cells, and any two cells that collide (two seeds painting
    /// one cell, one seed painting one cell twice, or a seed on an
    /// obstacle).
    pub fn new(
        width: usize,
        height: usize,
        obstacles: &Vec<Vec<Point>>,
        seeds: &Vec<CubeSeed>,
    ) -> (r: Result<Collection, LevelError>)
        ensures
            r is Ok <==> (size_ok(width, height) && obstacles_in_grid(width, height, obstacles@)
                && seeds_in_grid(width, height, seeds@) && seeds_nonempty(seeds@)
                && !seeds_collide(seeds@, obstacles@)),
            r == Err::<Collection, LevelError>(LevelError::InvalidSize) <==> !size_ok(
                width,
                height,
            ),
            r == Err::<Collection, LevelError>(LevelError::OutOfBounds) <==> (size_ok(
                width,
                height,
            ) && !(obstacles_in_grid(width, height, obstacles@) && seeds_in_grid(
                width,
                height,
                seeds@,
            ))),
            r == Err::<Collection, LevelError>(LevelError::EmptyCube) <==> (size_ok(width, height)
                && obstacles_in_grid(width, height, obstacles@) && seeds_in_grid(
                width,
                height,
                seeds@,
            ) && !seeds_nonempty(seeds@)),
            r == Err::<Collection, LevelError>(LevelError::Overlapping) <==> (size_ok(
                width,
                height,
            ) && obstacles_in_grid(width, height, obstacles@) && seeds_in_grid(
                width,
                height,
                seeds@,
            ) && seeds_nonempty(seeds@) && seeds_collide(seeds@, obstacles@)),
            r matches Ok(c) ==> {
                &&& c.wf()
                &&& c.cubes@.len() == seeds@.len()
                &&& forall|i: int|
                    0 <= i < seeds@.len() ==> {
                        &&& (#[trigger] c.cubes@[i]).kind == seeds@[i].kind
                        &&& !c.cubes@[i].balanced
                        &&& c.cubes@[i].constraint == Constraint::Free
                        &&& c.cubes@[i].movement == seeds@[i].movement
                        &&& c.cubes@[i].motion.is_loop == seeds@[i].motion.is_loop
                        &&& c.cubes@[i].motion.movements@ == seeds@[i].motion.movements@
                        &&& positions_of(c.cubes@[i].units@) == seeds@[i].body@
                    }
                &&& forall|p: Point|
                    #[trigger] c.area.spec_blocked(p) <==> (0 <= p.x < width && 0 <= p.y < height
                        && crate::area::groups_contain(
                        obstacles@.map_values(|v: Vec<Point>| v@),
                        p,
                    ))
            },
    {
        // grid size
        let limit = crate::point::COORD_LIMIT as usize;
        if width == 0 || height == 0 || width > limit || height > limit {
            return Err(LevelError::InvalidSize);
        }
        if (width as u64) > (usize::MAX as u64) / (height as u64) {
            proof {
                assert(!size_ok(width, height)) by (nonlinear_arith)
                    requires
                        (width as u64) > (usize::MAX as u64) / (height as u64),
                        0 < height,
                        width == width as u64,
                        height == height as u64,
                        usize::MAX == usize::MAX as u64,
                ;
            }
            return Err(LevelError::InvalidSize);
        }
        proof {
            assert(size_ok(width, height)) by (nonlinear_arith)
                requires
                    (width as u64) <= (usize::MAX as u64) / (height as u64),
                    0 < width <= crate::point::COORD_LIMIT,
                    0 < height <= crate::point::COORD_LIMIT,
                    width == width as u64,
                    height == height as u64,
                    usize::MAX == usize::MAX as u64,
            ;
        }

        // every point on the grid
        let on = obstacles.len();
        for g in 0..on
            invariant
                on == obstacles@.len(),
                size_ok(width, height),
                forall|g0: int, t: int|
                    0 <= g0 < g && 0 <= t < obstacles@[g0]@.len() ==> in_grid(
                        width,
                        height,
                        #[trigger] obstacles@[g0]@[t],
                    ),
        {
            let tn = obstacles[g].len();
            for t in 0..tn
                invariant
                    on == obstacles@.len(),
                    g < on,
                    tn == obstacles@[g as int]@.len(),
                    size_ok(width, height),
                    forall|g0: int, t0: int|
                        0 <= g0 < g && 0 <= t0 < obstacles@[g0]@.len() ==> in_grid(
                            width,
                            height,
                            #[trigger] obstacles@[g0]@[t0],
                        ),
                    forall|t0: int|
                        0 <= t0 < t ==> in_grid(
                            width,
                            height,
                            #[trigger] obstacles@[g as int]@[t0],
                        ),
            {
                let p = obstacles[g][t];
                if !(p.x >= 0 && p.y >= 0 && (p.x as usize) < width && (p.y as usize) < height) {
                    return Err(LevelError::OutOfBounds);
                }
            }
        }
        let sn = seeds.len();
        for i in 0..sn
            invariant
                sn == seeds@.len(),
                size_ok(width, height),
                obstacles_in_grid(width, height, obstacles@),
                forall|i0: int, k: int|
                    0 <= i0 < i && 0 <= k < seeds@[i0].body@.len() ==> in_grid(
                        width,
                        height,
                        #[trigger] seeds@[i0].body@[k],
                    ),
        {
            let kn = seeds[i].body.len();
            for k in 0..kn
                invariant
                    sn == seeds@.len(),
                    i < sn,
                    kn == seeds@[i as int].body@.len(),
                    size_ok(width, height),
                    obstacles_in_grid(width, height, obstacles@),
                    forall|i0: int, k0: int|
                        0 <= i0 < i && 0 <= k0 < seeds@[i0].body@.len() ==> in_grid(
                            width,
                            height,
                            #[trigger] seeds@[i0].body@[k0],
                        ),
                    forall|k0: int|
                        0 <= k0 < k ==> in_grid(
                            width,
                            height,
                            #[trigger] seeds@[i as int].body@[k0],
                        ),
            {
                let p = seeds[i].body[k];
                if !(p.x >= 0 && p.y >= 0 && (p.x as usize) < width && (p.y as usize) < height) {
                    return Err(LevelError::OutOfBounds);
                }
            }
        }

        // every cube paints something
        for i in 0..sn
            invariant
                sn == seeds@.len(),
                size_ok(width, height),
                obstacles_in_grid(width, height, obstacles@),
                seeds_in_grid(width, height, seeds@),
                forall|i0: int| 0 <= i0 < i ==> (#[trigger] seeds@[i0]).body@.len() > 0,
        {
            if seeds[i].body.len() == 0 {
                return Err(LevelError::EmptyCube);
            }
        }

        // the static area, and the collision scan over it
        let area = Area::new(width, height, obstacles);
        let mut occ = Bitmap::new(width, height);
        for i in 0..sn
            invariant
                sn == seeds@.len(),
                size_ok(width, height),
                obstacles_in_grid(width, height, obstacles@),
                seeds_in_grid(width, height, seeds@),
                seeds_nonempty(seeds@),
                area.wf(),
                forall|p: Point|
                    #[trigger] area.spec_blocked(p) <==> (0 <= p.x < width && 0 <= p.y < height
                        && crate::area::groups_contain(
                        obstacles@.map_values(|v: Vec<Point>| v@),
                        p,
                    )),
                occ.wf(),
                occ.spec_width() == width,
                occ.spec_height() == height,
                forall|q: Point|
                    #[trigger] occ.spec_hit(q) <==> (in_grid(width, height, q)
                        && Collection::painted_before(seeds@, i as int, 0, q)),
                forall|i0: int, k0: int|
                    #![trigger seeds@[i0].body@[k0]]
                    0 <= i0 < i && 0 <= k0 < seeds@[i0].body@.len() ==> (
                    !Collection::painted_before(seeds@, i0, k0, seeds@[i0].body@[k0])
                        && !area.spec_blocked(seeds@[i0].body@[k0])),
        {
            let kn = seeds[i].body.len();
            for k in 0..kn
                invariant
                    sn == seeds@.len(),
                    i < sn,
                    kn == seeds@[i as int].body@.len(),
                    size_ok(width, height),
                    obstacles_in_grid(width, height, obstacles@),
                    seeds_in_grid(width, height, seeds@),
                    seeds_nonempty(seeds@),
                    area.wf(),
                    forall|p: Point|
                        #[trigger] area.spec_blocked(p) <==> (0 <= p.x < width && 0 <= p.y
                            < height && crate::area::groups_contain(
                            obstacles@.map_values(|v: Vec<Point>| v@),
                            p,
                        )),
                    occ.wf(),
                    occ.spec_width() == width,
                    occ.spec_height() == height,
                    forall|q: Point|
                        #[trigger] occ.spec_hit(q) <==> (in_grid(width, height, q)
                            && Collection::painted_before(seeds@, i as int, k as int, q)),
                    forall|i0: int, k0: int|
                        #![trigger seeds@[i0].body@[k0]]
                        0 <= i0 < i && 0 <= k0 < seeds@[i0].body@.len() ==> (
                        !Collection::painted_before(seeds@, i0, k0, seeds@[i0].body@[k0])
                            && !area.spec_blocked(seeds@[i0].body@[k0])),
                    forall|k0: int|
                        #![trigger seeds@[i as int].body@[k0]]
                        0 <= k0 < k ==> (!Collection::painted_before(
                            seeds@,
                            i as int,
                            k0,
                            seeds@[i as int].body@[k0],
                        ) && !area.spec_blocked(seeds@[i as int].body@[k0])),
            {
                let p = seeds[i].body[k];
                if area.blocked(p) {
                    proof {
                        let gv = obstacles@.map_values(|v: Vec<Point>| v@);
                        let (g, t): (int, int) = choose|g: int, t: int|
                            0 <= g < gv.len() && 0 <= t < gv[g].len() && #[trigger] gv[g][t] == p;
                        assert(obstacles@[g]@[t] == p);
                        assert(seeds_collide(seeds@, obstacles@));
                    }
                    return Err(LevelError::Overlapping);
                }
                if occ.hit(p) {
                    proof {
                        assert(Collection::painted_before(seeds@, i as int, k as int, p));
                        if exists|i0: int, k0: int|
                            0 <= i0 < i && 0 <= k0 < seeds@[i0].body@.len()
                                && #[trigger] seeds@[i0].body@[k0] == p {
                            let (i0, k0): (int, int) = choose|i0: int, k0: int|
                                0 <= i0 < i && 0 <= k0 < seeds@[i0].body@.len()
                                    && #[trigger] seeds@[i0].body@[k0] == p;
                            assert(seeds@[i0].body@[k0] == seeds@[i as int].body@[k as int]);
                        } else {
                            let k0 = choose|k0: int|
                                0 <= k0 < k && #[trigger] seeds@[i as int].body@[k0] == p;
                            assert(seeds@[i as int].body@[k0] == seeds@[i as int].body@[
                                k as int]);
                        }
                        assert(seeds_collide(seeds@, obstacles@));
                    }
                    return Err(LevelError::Overlapping);
                }
                occ.put(p);
                proof {
                    assert(in_grid(width, height, p));
                    assert forall|q: Point|
                        #[trigger] occ.spec_hit(q) <==> (in_grid(width, height, q)
                            && Collection::painted_before(seeds@, i as int, k + 1 as int, q)) by {
                        if q == p {
                            assert(seeds@[i as int].body@[k as int] == q);
                        } else {
                            if Collection::painted_before(seeds@, i as int, k + 1 as int, q) {
                                if exists|k0: int|
                                    0 <= k0 < k + 1 && #[trigger] seeds@[i as int].body@[k0]
                                        == q {
                                    let k0 = choose|k0: int|
                                        0 <= k0 < k + 1 && #[trigger] seeds@[i as int].body@[k0]
                                            == q;
                                    assert(k0 < k);
                                    assert(Collection::painted_before(
                                        seeds@,
                                        i as int,
                                        k as int,
                                        q,
                                    ));
                                }
                            }
                        }
                    }
                }
            }
            proof {
                assert forall|k0: int|
                    #![trigger seeds@[i as int].body@[k0]]
                    0 <= k0 < seeds@[i as int].body@.len() implies (
                    !Collection::painted_before(seeds@, i as int, k0, seeds@[i as int].body@[k0])
                        && !area.spec_blocked(seeds@[i as int].body@[k0])) by {}
                assert forall|q: Point|
                    #[trigger] occ.spec_hit(q) <==> (in_grid(width, height, q)
                        && Collection::painted_before(seeds@, i + 1 as int, 0, q)) by {
                    if occ.spec_hit(q) {
                        assert(Collection::painted_before(seeds@, i as int, kn as int, q));
                        if exists|k0: int|
                            0 <= k0 < kn && #[trigger] seeds@[i as int].body@[k0] == q {
                            let k0 = choose|k0: int|
                                0 <= k0 < kn && #[trigger] seeds@[i as int].body@[k0] == q;
                            assert(Collection::painted_before(seeds@, i + 1 as int, 0, q));
                        }
                    }
                    if Collection::painted_before(seeds@, i + 1 as int, 0, q) {
                        let (i0, k0): (int, int) = choose|i0: int, k0: int|
                            0 <= i0 < i + 1 && 0 <= k0 < seeds@[i0].body@.len()
                                && #[trigger] seeds@[i0].body@[k0] == q;
                        if i0 < i {
                            assert(Collection::painted_before(seeds@, i as int, kn as int, q));
                        } else {
                            assert(Collection::painted_before(seeds@, i as int, kn as int, q));
                        }
                        assert(in_grid(width, height, q));
                    }
                }
            }
        }
        proof {
            assert(!seeds_collide(seeds@, obstacles@)) by {
                if exists|i1: int, k1: int, i2: int, k2: int|
                    #![trigger seeds@[i1].body@[k1], seeds@[i2].body@[k2]]
                    0 <= i1 < seeds@.len() && 0 <= k1 < seeds@[i1].body@.len() && 0 <= i2
                        < seeds@.len() && 0 <= k2 < seeds@[i2].body@.len() && (i1 != i2 || k1
                        != k2) && seeds@[i1].body@[k1] == seeds@[i2].body@[k2] {
                    let (i1, k1, i2, k2): (int, int, int, int) = choose|
                        i1: int,
                        k1: int,
                        i2: int,
                        k2: int,
                    |
                        #![trigger seeds@[i1].body@[k1], seeds@[i2].body@[k2]]
                        0 <= i1 < seeds@.len() && 0 <= k1 < seeds@[i1].body@.len() && 0 <= i2
                            < seeds@.len() && 0 <= k2 < seeds@[i2].body@.len() && (i1 != i2 || k1
                            != k2) && seeds@[i1].body@[k1] == seeds@[i2].body@[k2];
                    if i1 < i2 || (i1 == i2 && k1 < k2) {
                        assert(Collection::painted_before(
                            seeds@,
                            i2,
                            k2,
                            seeds@[i2].body@[k2],
                        ));
                        assert(false);
                    } else {
                        assert(Collection::painted_before(
                            seeds@,
                            i1,
                            k1,
                            seeds@[i1].body@[k1],
                        ));
                        assert(false);
                    }
                }
                if exists|i: int, k: int, g: int, t: int|
                    #![trigger seeds@[i].body@[k], obstacles@[g]@[t]]
                    0 <= i < seeds@.len() && 0 <= k < seeds@[i].body@.len() && 0 <= g
                        < obstacles@.len() && 0 <= t < obstacles@[g]@.len() && seeds@[i].body@[k]
                        == obstacles@[g]@[t] {
                    let (i, k, g, t): (int, int, int, int) = choose|
                        i: int,
                        k: int,
                        g: int,
                        t: int,
                    |
                        #![trigger seeds@[i].body@[k], obstacles@[g]@[t]]
                        0 <= i < seeds@.len() && 0 <= k < seeds@[i].body@.len() && 0 <= g
                            < obstacles@.len() && 0 <= t < obstacles@[g]@.len()
                            && seeds@[i].body@[k] == obstacles@[g]@[t];
                    let gv = obstacles@.map_values(|v: Vec<Point>| v@);
                    assert(gv[g][t] == obstacles@[g]@[t]);
                    assert(crate::area::groups_contain(gv, seeds@[i].body@[k]));
                    assert(area.spec_blocked(seeds@[i].body@[k]));
                    assert(false);
                }
            }
        }

        // build the cubes
        let mut cubes: Vec<Cube> = Vec::new();
        for i in 0..sn
            invariant
                sn == seeds@.len(),
                size_ok(width, height),
                obstacles_in_grid(width, height, obstacles@),
                seeds_in_grid(width, height, seeds@),
                seeds_nonempty(seeds@),
                !seeds_collide(seeds@, obstacles@),
                area.wf(),
                forall|p: Point|
                    #[trigger] area.spec_blocked(p) <==> (0 <= p.x < width && 0 <= p.y < height
                        && crate::area::groups_contain(
                        obstacles@.map_values(|v: Vec<Point>| v@),
                        p,
                    )),
                cubes@.len() == i,
                forall|i0: int|
                    0 <= i0 < i ==> {
                        &&& (#[trigger] cubes@[i0]).kind == seeds@[i0].kind
                        &&& !cubes@[i0].balanced
                        &&& cubes@[i0].constraint == Constraint::Free
                        &&& cubes@[i0].movement == seeds@[i0].movement
                        &&& cubes@[i0].motion.is_loop == seeds@[i0].motion.is_loop
                        &&& cubes@[i0].motion.movements@ == seeds@[i0].motion.movements@
                        &&& positions_of(cubes@[i0].units@) == seeds@[i0].body@
                        &&& cubes@[i0].wf()
                        &&& cubes@[i0].spec_alive()
                    },
        {
            let body = &seeds[i].body;
            let table = PointSet::new(body);
            let kn = body.len();
            let mut units: Vec<Unit> = Vec::new();
            for k in 0..kn
                invariant
                    sn == seeds@.len(),
                    i < sn,
                    body == seeds@[i as int].body,
                    kn == body@.len(),
                    size_ok(width, height),
                    seeds_in_grid(width, height, seeds@),
                    forall|p: Point| table.spec_contains(p) <==> body@.contains(p),
                    units@.len() == k,
                    forall|k0: int|
                        0 <= k0 < k ==> (#[trigger] units@[k0]).position == body@[k0]
                            && units@[k0].index == i,
                    forall|k0: int, a: crate::neighborhood::Adjacence|
                        #![trigger units@[k0].neighborhood.spec_has(a)]
                        0 <= k0 < k ==> (units@[k0].neighborhood.spec_has(a) <==> body@.contains(
                            spec_near(units@[k0].position, a),
                        )),
            {
                let p = body[k];
                proof {
                    assert(in_grid(width, height, seeds@[i as int].body@[k as int]));
                    assert(coord_ok(p));
                }
                let nb = table.neighborhood(p);
                units.push(Unit { index: i, position: p, neighborhood: nb });
            }
            proof {
                assert(positions_of(units@) =~= body@);
                assert(units_ok(units@)) by {
                    assert forall|k0: int| 0 <= k0 < units@.len() implies coord_ok(
                        (#[trigger] units@[k0]).position,
                    ) by {
                        assert(in_grid(width, height, seeds@[i as int].body@[k0]));
                    }
                }
                assert(units_distinct(units@)) by {
                    assert forall|k1: int, k2: int|
                        #![trigger units@[k1].position, units@[k2].position]
                        0 <= k1 < k2 < units@.len() implies units@[k1].position != units@[
                    k2].position by {
                        if units@[k1].position == units@[k2].position {
                            assert(seeds@[i as int].body@[k1] == seeds@[i as int].body@[k2]);
                            assert(seeds_collide(seeds@, obstacles@));
                        }
                    }
                }
                assert(units_consistent(units@)) by {
                    assert forall|k0: int, a: crate::neighborhood::Adjacence|
                        #![trigger units@[k0].neighborhood.spec_has(a)]
                        0 <= k0 < units@.len() implies (units@[k0].neighborhood.spec_has(a)
                        <==> footprint(units@).contains(spec_near(units@[k0].position, a))) by {
                        lemma_footprint_positions(units@, spec_near(units@[k0].position, a));
                    }
                }
            }
            let outlines = Outlines::new(&units);
            let cube = Cube {
                kind: seeds[i].kind,
                units,
                motion: seeds[i].motion.duplicate(),
                outlines,
                balanced: false,
                movement: seeds[i].movement,
                constraint: Constraint::Free,
            };
            cubes.push(cube);
        }
        let c = Collection { area, cubes };
        proof {
            assert(crate::faction::cubes_disjoint(c.cubes@)) by {
                assert forall|i1: int, i2: int, p: Point|
                    #![trigger footprint(c.cubes@[i1].units@).contains(p), footprint(c.cubes@[i2].units@).contains(p)]
                    0 <= i1 < c.cubes@.len() && 0 <= i2 < c.cubes@.len() && footprint(
                        c.cubes@[i1].units@,
                    ).contains(p) && footprint(c.cubes@[i2].units@).contains(p)
                    implies i1 == i2 by {
                    if i1 != i2 {
                        lemma_footprint_positions(c.cubes@[i1].units@, p);
                        lemma_footprint_positions(c.cubes@[i2].units@, p);
                        let k1 = choose|k1: int|
                            0 <= k1 < seeds@[i1].body@.len() && #[trigger] seeds@[i1].body@[k1]
                                == p;
                        let k2 = choose|k2: int|
                            0 <= k2 < seeds@[i2].body@.len() && #[trigger] seeds@[i2].body@[k2]
                                == p;
                        assert(seeds@[i1].body@[k1] == seeds@[i2].body@[k2]);
                        assert(seeds_collide(seeds@, obstacles@));
                        assert(false);
                    }
                }
            }
            assert forall|i: int, p: Point|
                #![trigger footprint(c.cubes@[i].units@).contains(p)]
                0 <= i < c.cubes@.len() && footprint(c.cubes@[i].units@).contains(p)
                implies !c.area.spec_blocked(p) by {
                lemma_footprint_positions(c.cubes@[i].units@, p);
                let k = choose|k: int|
                    0 <= k < seeds@[i].body@.len() && #[trigger] seeds@[i].body@[k] == p;
                if c.area.spec_blocked(p) {
                    let gv = obstacles@.map_values(|v: Vec<Point>| v@);
                    let (g, t): (int, int) = choose|g: int, t: int|
                        0 <= g < gv.len() && 0 <= t < gv[g].len() && #[trigger] gv[g][t] == p;
                    assert(obstacles@[g]@[t] == p);
                    assert(seeds_collide(seeds@, obstacles@));
                }
            }
        }
        Ok(c)
    }

    pub fn number_of_cubes(&self) -> (r: usize)
        ensures
            r == self.cubes@.len(),
    {
        self.cubes.len()
    }

    /// Drop every cube whose unit list has become empty, keeping the
    /// survivors in order.
    fn retain_alive(&mut self)
        requires
            old(self).geometry_ok(),
        ensures
            final(self).geometry_ok(),
            final(self).area == old(self).area,
            forall|j: int|
                0 <= j < final(self).cubes@.len() ==> (#[trigger] final(self).cubes@[j]).spec_alive(),
            // survivors are exactly the alive cubes, in order
            forall|j: int|
                0 <= j < final(self).cubes@.len() ==> exists|i: int|
                    0 <= i < old(self).cubes@.len() && #[trigger] final(self).cubes@[j] == old(
                        self,
                    ).cubes@[i],
            forall|p: Point|
                occupied(final(self).cubes@, p) <==> occupied(old(self).cubes@, p),
            forall|i: int|
                0 <= i < old(self).cubes@.len() && (#[trigger] old(self).cubes@[i]).spec_alive()
                    ==> exists|j: int|
                    0 <= j < final(self).cubes@.len() && final(self).cubes@[j] == old(
                        self,
                    ).cubes@[i],
            (forall|i: int|
                0 <= i < old(self).cubes@.len() ==> (#[trigger] old(self).cubes@[i]).spec_alive())
                ==> final(self).cubes@ == old(self).cubes@,
    {
        let n = self.cubes.len();
        let mut kept: Vec<Cube> = Vec::new();
        let ghost olds = self.cubes@;
        // indices of the kept cubes, strictly increasing
        let ghost mut taken: Seq<int> = Seq::empty();
        let mut i: usize = 0;
        while i < n
            invariant
                self.area == old(self).area,
                n == self.cubes@.len(),
                n == olds.len(),
                forall|j: int| i <= j < n ==> #[trigger] self.cubes@[j] == olds[j],
                i <= n,
                kept@.len() == taken.len(),
                forall|j: int| 0 <= j < taken.len() ==> 0 <= #[trigger] taken[j] < i,
                forall|j1: int, j2: int| 0 <= j1 < j2 < taken.len() ==> taken[j1] < taken[j2],
                forall|j: int|
                    0 <= j < taken.len() ==> #[trigger] kept@[j] == olds[taken[j]],
                forall|j: int| 0 <= j < kept@.len() ==> (#[trigger] kept@[j]).spec_alive(),
                forall|i0: int|
                    0 <= i0 < i && olds[i0].spec_alive() ==> exists|j: int|
                        0 <= j < taken.len() && #[trigger] taken[j] == i0,
                (forall|i0: int| 0 <= i0 < olds.len() ==> (#[trigger] olds[i0]).spec_alive())
                    ==> kept@ == olds.subrange(0, i as int),
            decreases n - i,
        {
            let ghost taken_before = taken;
            let alive = self.cubes[i].alive();
            if alive {
                let dead = Cube {
                    kind: Kind::White,
                    units: Vec::new(),
                    motion: Motion::idle(),
                    outlines: Outlines::new(&Vec::new()),
                    balanced: true,
                    movement: None,
                    constraint: Constraint::Free,
                };
                let mut cube = dead;
                core::mem::swap(&mut self.cubes[i], &mut cube);
                proof {
                    assert(cube == olds[i as int]);
                }
                kept.push(cube);
                proof {
                    taken = taken.push(i as int);
                }
            }
            proof {
                assert forall|i0: int|
                    0 <= i0 < i + 1 && olds[i0].spec_alive() implies exists|j: int|
                        0 <= j < taken.len() && #[trigger] taken[j] == i0 by {
                    if i0 < i {
                        let j = choose|j: int|
                            0 <= j < taken_before.len() && #[trigger] taken_before[j] == i0;
                        assert(taken[j] == i0);
                    } else {
                        assert(alive);
                        assert(taken[taken.len() - 1] == i0);
                    }
                }
                if forall|i0: int| 0 <= i0 < olds.len() ==> (#[trigger] olds[i0]).spec_alive() {
                    assert(olds[i as int].spec_alive());
                    assert(kept@ =~= olds.subrange(0, i + 1 as int));
                }
            }
            i = i + 1;
        }
        proof {
            assert(olds.subrange(0, n as int) =~= olds);
        }
        self.cubes = kept;
        proof {
            assert forall|p: Point|
                occupied(final(self).cubes@, p) <==> occupied(olds, p) by {
                if occupied(final(self).cubes@, p) {
                    let j = choose|j: int| #[trigger] cube_at(final(self).cubes@, j, p);
                    assert(cube_at(olds, taken[j], p));
                }
                if occupied(olds, p) {
                    let i0 = choose|i0: int| #[trigger] cube_at(olds, i0, p);
                    assert(olds[i0].spec_alive());
                    let j = choose|j: int| 0 <= j < taken.len() && #[trigger] taken[j] == i0;
                    assert(cube_at(final(self).cubes@, j, p));
                }
            }
            assert forall|j: int|
                0 <= j < final(self).cubes@.len() implies exists|i0: int|
                    0 <= i0 < olds.len() && #[trigger] final(self).cubes@[j] == olds[i0] by {
                assert(final(self).cubes@[j] == olds[taken[j]]);
            }
            assert forall|i0: int|
                0 <= i0 < olds.len() && (#[trigger] olds[i0]).spec_alive() implies exists|j: int|
                    0 <= j < final(self).cubes@.len() && final(self).cubes@[j] == olds[i0] by {
                let j = choose|j: int| 0 <= j < taken.len() && #[trigger] taken[j] == i0;
                assert(final(self).cubes@[j] == olds[i0]);
            }
        }
    }

    /// Mark every member of `whom` as balanced, leaving everything else of
    /// every cube unchanged.
    fn mark_balanced(&mut self, whom: &Vec<usize>)
        requires
            forall|k: int| 0 <= k < whom@.len() ==> #[trigger] whom@[k] < old(self).cubes@.len(),
        ensures
            final(self).area == old(self).area,
            final(self).cubes@.len() == old(self).cubes@.len(),
            forall|j: int|
                0 <= j < final(self).cubes@.len() ==> #[trigger] final(self).cubes@[j] == (
                if group_holds(whom@, j) {
                    with_balanced(old(self).cubes@[j], true)
                } else {
                    old(self).cubes@[j]
                }),
    {
        let n = whom.len();
        let ghost olds = self.cubes@;
        for k in 0..n
            invariant
                n == whom@.len(),
                self.area == old(self).area,
                self.cubes@.len() == olds.len(),
                olds == old(self).cubes@,
                forall|k0: int| 0 <= k0 < whom@.len() ==> #[trigger] whom@[k0] < olds.len(),
                forall|j: int|
                    0 <= j < self.cubes@.len() ==> #[trigger] self.cubes@[j] == (
                    if exists|k0: int| 0 <= k0 < k && #[trigger] whom@[k0] as int == j {
                        with_balanced(olds[j], true)
                    } else {
                        olds[j]
                    }),
        {
            let idx = whom[k];
            self.cubes[idx].balanced = true;
            proof {
                assert forall|j: int|
                    0 <= j < self.cubes@.len() implies #[trigger] self.cubes@[j] == (
                    if exists|k0: int| 0 <= k0 < k + 1 && #[trigger] whom@[k0] as int == j {
                        with_balanced(olds[j], true)
                    } else {
                        olds[j]
                    }) by {
                    if j == idx as int {
                        assert(whom@[k as int] as int == j);
                    } else {
                        if exists|k0: int| 0 <= k0 < k + 1 && #[trigger] whom@[k0] as int == j {
                            let k0 = choose|k0: int|
                                0 <= k0 < k + 1 && #[trigger] whom@[k0] as int == j;
                            assert(k0 < k);
                        }
                    }
                }
            }
        }
        proof {
            assert forall|j: int|
                0 <= j < self.cubes@.len() implies #[trigger] self.cubes@[j] == (
                if group_holds(whom@, j) {
                    with_balanced(olds[j], true)
                } else {
                    olds[j]
                }) by {}
        }
    }

    /// Union every chain of touching alive cubes, starting the traversal
    /// at each unstable cube. The classes that come back are exactly the
    /// contest components: an unstable cube shares its class with every
    /// alive cube its boundary touches, two cubes share a class only if an
    /// adjacency chain links them, and every class of more than one cube
    /// grew from an unstable seed.
    #[verifier::rlimit(100)]
    #[verifier::spinoff_prover]
    fn connect_adjacent(&self, faction: &crate::faction::Faction) -> (r: crate::lookup::DisjointSet)
        requires
            self.wf(),
            forall|p: Point|
                #[trigger] crate::faction::spec_lookup(faction.entries(), p) matches Some(i)
                    ==> crate::faction::entry_ok(self.cubes@, (p, i)),
            forall|i: usize, p: Point|
                #![trigger footprint(self.cubes@[i as int].units@).contains(p)]
                i < self.cubes@.len() && self.cubes@[i as int].spec_alive() && footprint(
                    self.cubes@[i as int].units@,
                ).contains(p) ==> crate::faction::spec_lookup(faction.entries(), p) == Some(i),
        ensures
            r.wf(),
            r.spec_len() == self.cubes@.len(),
            (forall|i: int|
                0 <= i < self.cubes@.len() ==> !(#[trigger] self.cubes@[i]).spec_unstable())
                ==> (forall|a: int| 0 <= a < self.cubes@.len() ==> r.spec_root(a) == a),
            forall|i: int, j: int|
                0 <= i < self.cubes@.len() && 0 <= j < self.cubes@.len() && (#[trigger] self.cubes@[
                    i
                ]).spec_unstable() && (#[trigger] self.cubes@[j]).spec_alive() && adjacent(
                    self.cubes@,
                    i,
                    j,
                ) ==> joined(r, i, j),
            forall|a: int, b: int|
                0 <= a < self.cubes@.len() && 0 <= b < self.cubes@.len() && a != b
                    && #[trigger] joined(r, a, b) ==> connected(self.cubes@, a, b),
            forall|a: int, b: int|
                0 <= a < self.cubes@.len() && 0 <= b < self.cubes@.len() && a != b
                    && #[trigger] joined(r, a, b) ==> exists|u: int|
                    0 <= u < self.cubes@.len() && self.cubes@[u].spec_unstable() && joined(r, u, a),
    {
        let n = self.cubes.len();
        let ghost olds = self.cubes@;
        let ghost all_stable = forall|i: int|
            0 <= i < olds.len() ==> !(#[trigger] olds[i]).spec_unstable();
        let mut connect = crate::lookup::DisjointSet::new(n);
        let mut visit: Vec<bool> = Vec::new();
        for k in 0..n
            invariant
                visit@.len() == k,
                count_true(visit@) == 0,
                forall|j: int| 0 <= j < k ==> !visit@[j],
        {
            let ghost before = visit@;
            visit.push(false);
            proof {
                assert(visit@.drop_last() =~= before);
            }
        }
        let mut queue: Vec<usize> = Vec::new();
        for seed in 0..n
            invariant
                n == self.cubes@.len(),
                self.cubes@ == olds,
                self.wf(),
                visit@.len() == n,
                queue@.len() == 0,
                connect.wf(),
                connect.spec_len() == n,
                all_stable == (forall|i: int|
                    0 <= i < olds.len() ==> !(#[trigger] olds[i]).spec_unstable()),
                all_stable ==> forall|a: int| 0 <= a < n ==> connect.spec_root(a) == a,
                forall|p: Point|
                    #[trigger] crate::faction::spec_lookup(faction.entries(), p) matches Some(i)
                        ==> crate::faction::entry_ok(olds, (p, i)),
                forall|i: usize, p: Point|
                    #![trigger footprint(olds[i as int].units@).contains(p)]
                    i < olds.len() && olds[i as int].spec_alive() && footprint(
                        olds[i as int].units@,
                    ).contains(p) ==> crate::faction::spec_lookup(faction.entries(), p) == Some(
                        i,
                    ),
                forall|i: int|
                    #![trigger visit@[i]]
                    0 <= i < n && visit@[i] ==> settled(olds, connect, i),
                forall|i0: int|
                    0 <= i0 < seed && olds[i0].spec_alive() && (#[trigger] olds[
                    i0]).spec_unstable() ==> visit@[i0],
                forall|a: int, b: int|
                    0 <= a < n && 0 <= b < n && a != b && #[trigger] joined(connect, a, b)
                        ==> connected(olds, a, b),
                forall|i: int|
                    #![trigger visit@[i]]
                    0 <= i < n && !visit@[i] ==> (forall|j: int|
                        0 <= j < n && #[trigger] joined(connect, j, i) ==> j == i),
                forall|i: int|
                    #![trigger visit@[i]]
                    0 <= i < n && visit@[i] ==> exists|u: int|
                        0 <= u < n && olds[u].spec_unstable() && #[trigger] joined(
                            connect,
                            u,
                            i,
                        ),
        {
            let is_seed = self.cubes[seed].alive() && self.cubes[seed].unstable() && !visit[seed];
            if is_seed {
                proof {
                    assert(olds[seed as int].spec_unstable());
                    lemma_count_true_lt(visit@, seed as int);
                    lemma_count_true_set(visit@, seed as int);
                }
                let ghost v_seeded = visit@;
                visit[seed] = true;
                queue.push(seed);
                proof {
                    assert(queue@[queue@.len() - 1] == seed);
                    assert(in_queue(queue@, seed));
                    assert forall|i: int|
                        #![trigger visit@[i]]
                        0 <= i < n && visit@[i] && !in_queue(queue@, i as usize)
                            implies settled(olds, connect, i) by {
                        assert(i != seed as int);
                        assert(v_seeded[i]);
                    }
                    assert(joined(connect, seed as int, seed as int));
                    assert forall|i: int|
                        #![trigger visit@[i]]
                        0 <= i < n && visit@[i] implies exists|u: int|
                            0 <= u < n && olds[u].spec_unstable() && #[trigger] joined(
                                connect,
                                u,
                                i,
                            ) by {
                        if i == seed as int {
                            assert(joined(connect, seed as int, i));
                        } else {
                            assert(v_seeded[i]);
                        }
                    }
                }
                while queue.len() > 0
                    invariant
                        n == self.cubes@.len(),
                        self.cubes@ == olds,
                        self.wf(),
                        visit@.len() == n,
                        connect.wf(),
                        connect.spec_len() == n,
                        seed < n,
                        forall|t: int|
                            0 <= t < queue@.len() ==> #[trigger] queue@[t] < n && visit@[
                            queue@[t] as int] && olds[queue@[t] as int].spec_alive(),
                        forall|t1: int, t2: int|
                            #![trigger queue@[t1], queue@[t2]]
                            0 <= t1 < t2 < queue@.len() ==> queue@[t1] != queue@[t2],
                        forall|i: int|
                            #![trigger visit@[i]]
                            0 <= i < n && visit@[i] && !in_queue(queue@, i as usize) ==> settled(
                                olds,
                                connect,
                                i,
                            ),
                        forall|i0: int|
                            0 <= i0 <= seed && olds[i0].spec_alive() && (#[trigger] olds[
                            i0]).spec_unstable() ==> visit@[i0],
                        count_true(visit@) <= n,
                        !all_stable,
                        forall|p: Point|
                            #[trigger] crate::faction::spec_lookup(faction.entries(), p)
                                matches Some(i) ==> crate::faction::entry_ok(olds, (p, i)),
                        forall|i: usize, p: Point|
                            #![trigger footprint(olds[i as int].units@).contains(p)]
                            i < olds.len() && olds[i as int].spec_alive() && footprint(
                                olds[i as int].units@,
                            ).contains(p) ==> crate::faction::spec_lookup(faction.entries(), p)
                                == Some(i),
                        forall|a: int, b: int|
                            0 <= a < n && 0 <= b < n && a != b && #[trigger] joined(
                                connect,
                                a,
                                b,
                            ) ==> connected(olds, a, b),
                        forall|i: int|
                            #![trigger visit@[i]]
                            0 <= i < n && !visit@[i] ==> (forall|j: int|
                                0 <= j < n && #[trigger] joined(connect, j, i) ==> j == i),
                        forall|i: int|
                            #![trigger visit@[i]]
                            0 <= i < n && visit@[i] ==> exists|u: int|
                                0 <= u < n && olds[u].spec_unstable() && #[trigger] joined(
                                    connect,
                                    u,
                                    i,
                                ),
                    decreases queue@.len() + n - count_true(visit@),
                {
                    let ghost q_before = queue@;
                    let cur = match queue.pop() {
                        Some(c) => c,
                        None => { return connect; },
                    };
                    proof {
                        assert(cur == q_before[q_before.len() - 1]);
                        assert(!in_queue(queue@, cur)) by {
                            if in_queue(queue@, cur) {
                                let t = choose|t: int|
                                    0 <= t < queue@.len() && queue@[t] == cur;
                                assert(q_before[t] == q_before[q_before.len() - 1]);
                            }
                        }
                        assert(olds[cur as int].spec_alive());
                        assert forall|i: int|
                            #![trigger visit@[i]]
                            0 <= i < n && visit@[i] && !in_queue(queue@, i as usize) && i
                                != cur implies settled(olds, connect, i) by {
                            assert(!in_queue(q_before, i as usize)) by {
                                if in_queue(q_before, i as usize) {
                                    let t = choose|t: int|
                                        0 <= t < q_before.len() && q_before[t] == i as usize;
                                    if t < q_before.len() - 1 {
                                        assert(queue@[t] == i as usize);
                                    }
                                }
                            }
                        }
                    }
                    let ghost m0 = queue@.len() + n - count_true(visit@);
                    let alive = self.cubes[cur].alive();
                    if alive {
                        let anchor = Outlines::anchor(&self.cubes[cur].units);
                        proof {
                            if olds[cur as int].units@.len() > 0 {
                                assert(coord_ok(olds[cur as int].units@[0].position));
                            }
                        }
                        let points = self.cubes[cur].outlines.all(anchor);
                        let pn = points.len();
                        for t in 0..pn
                            invariant
                                n == self.cubes@.len(),
                                self.cubes@ == olds,
                                self.wf(),
                                cur < n,
                                seed < n,
                                !in_queue(queue@, cur),
                                visit@.len() == n,
                                visit@[cur as int],
                                connect.wf(),
                                connect.spec_len() == n,
                                pn == points@.len(),
                                points@ == crate::outlines::spec_outline_all(
                                    olds[cur as int].units@,
                                    crate::outlines::spec_anchor(olds[cur as int].units@),
                                ),
                                forall|t0: int|
                                    0 <= t0 < queue@.len() ==> #[trigger] queue@[t0] < n
                                        && visit@[queue@[t0] as int] && olds[
                                    queue@[t0] as int].spec_alive(),
                                forall|t1: int, t2: int|
                                    #![trigger queue@[t1], queue@[t2]]
                                    0 <= t1 < t2 < queue@.len() ==> queue@[t1] != queue@[t2],
                                forall|i: int|
                                    #![trigger visit@[i]]
                                    0 <= i < n && visit@[i] && !in_queue(queue@, i as usize)
                                        && i != cur ==> settled(olds, connect, i),
                                forall|t0: int, j: int|
                                    #![trigger footprint(olds[j].units@).contains(points@[t0])]
                                    0 <= t0 < t && 0 <= j < n && olds[j].spec_alive()
                                        && footprint(olds[j].units@).contains(points@[t0])
                                        ==> joined(connect, cur as int, j),
                                forall|i0: int|
                                    0 <= i0 <= seed && olds[i0].spec_alive() && (
                                    #[trigger] olds[i0]).spec_unstable() ==> visit@[i0],
                                count_true(visit@) <= n,
                                queue@.len() + n - count_true(visit@) == m0,
                                !all_stable,
                                forall|p: Point|
                                    #[trigger] crate::faction::spec_lookup(
                                        faction.entries(),
                                        p,
                                    ) matches Some(i) ==> crate::faction::entry_ok(
                                        olds,
                                        (p, i),
                                    ),
                                forall|i: usize, p: Point|
                                    #![trigger footprint(olds[i as int].units@).contains(p)]
                                    i < olds.len() && olds[i as int].spec_alive() && footprint(
                                        olds[i as int].units@,
                                    ).contains(p) ==> crate::faction::spec_lookup(
                                        faction.entries(),
                                        p,
                                    ) == Some(i),
                                forall|a: int, b: int|
                                    0 <= a < n && 0 <= b < n && a != b && #[trigger] joined(
                                        connect,
                                        a,
                                        b,
                                    ) ==> connected(olds, a, b),
                                forall|i: int|
                                    #![trigger visit@[i]]
                                    0 <= i < n && !visit@[i] ==> (forall|j: int|
                                        0 <= j < n && #[trigger] joined(connect, j, i) ==> j
                                            == i),
                                forall|i: int|
                                    #![trigger visit@[i]]
                                    0 <= i < n && visit@[i] ==> exists|u: int|
                                        0 <= u < n && olds[u].spec_unstable()
                                            && #[trigger] joined(connect, u, i),
                        {
                            let other = faction.get(points[t]);
                            if let Some(other) = other {
                                proof {
                                    assert(crate::faction::entry_ok(
                                        olds,
                                        (points@[t as int], other),
                                    ));
                                    assert(cube_at(olds, other as int, points@[t as int]));
                                }
                                let ghost c_before = connect;
                                connect.join(cur, other);
                                proof {
                                    assert(adjacent(olds, cur as int, other as int)) by {
                                        assert(footprint(olds[other as int].units@).contains(
                                            points@[t as int],
                                        ));
                                    }
                                    lemma_traversal_join(
                                        olds,
                                        c_before,
                                        connect,
                                        cur as int,
                                        other as int,
                                        visit@,
                                        queue@,
                                    );
                                    assert forall|t0: int, j: int|
                                        #![trigger footprint(olds[j].units@).contains(points@[t0])]
                                        0 <= t0 < t + 1 && 0 <= j < n && olds[j].spec_alive()
                                            && footprint(olds[j].units@).contains(points@[t0])
                                            implies joined(connect, cur as int, j) by {
                                        if t0 < t {
                                            assert(joined(c_before, cur as int, j));
                                        } else {
                                            assert(crate::faction::spec_lookup(
                                                faction.entries(),
                                                points@[t0],
                                            ) == Some(j as usize));
                                            assert(j == other as int);
                                        }
                                    }
                                }
                                if !visit[other] {
                                    let ghost v_mid = visit@;
                                    let ghost q_mid = queue@;
                                    proof {
                                        lemma_count_true_lt(visit@, other as int);
                                        lemma_count_true_set(visit@, other as int);
                                    }
                                    visit[other] = true;
                                    queue.push(other);
                                    proof {
                                        assert(queue@ == q_mid.push(other));
                                        assert(queue@[queue@.len() - 1] == other);
                                        assert(in_queue(queue@, other));
                                        assert(!in_queue(queue@, cur)) by {
                                            if in_queue(queue@, cur) {
                                                let t0 = choose|t0: int|
                                                    0 <= t0 < queue@.len() && queue@[t0]
                                                        == cur;
                                                if t0 < q_mid.len() {
                                                    assert(q_mid[t0] == cur);
                                                    assert(in_queue(q_mid, cur));
                                                }
                                            }
                                        }
                                        assert forall|i: int|
                                            #![trigger visit@[i]]
                                            0 <= i < n && visit@[i] && !in_queue(
                                                queue@,
                                                i as usize,
                                            ) && i != cur implies settled(
                                            olds,
                                            connect,
                                            i,
                                        ) by {
                                            assert(i != other as int);
                                            assert(v_mid[i]);
                                            assert(!in_queue(q_mid, i as usize)) by {
                                                if in_queue(q_mid, i as usize) {
                                                    let t0 = choose|t0: int|
                                                        0 <= t0 < q_mid.len() && q_mid[t0]
                                                            == i as usize;
                                                    assert(queue@[t0] == i as usize);
                                                }
                                            }
                                        }
                                        assert forall|t0: int|
                                            0 <= t0 < queue@.len() implies #[trigger] queue@[
                                        t0] < n && visit@[queue@[t0] as int] && olds[
                                        queue@[t0] as int].spec_alive() by {
                                            if t0 < q_mid.len() {
                                                assert(q_mid[t0] == queue@[t0]);
                                                assert(v_mid[q_mid[t0] as int]);
                                            }
                                        }
                                        assert forall|t1: int, t2: int|
                                            #![trigger queue@[t1], queue@[t2]]
                                            0 <= t1 < t2 < queue@.len() implies queue@[t1]
                                            != queue@[t2] by {
                                            if t2 < q_mid.len() {
                                                assert(q_mid[t1] == queue@[t1] && q_mid[t2]
                                                    == queue@[t2]);
                                            } else {
                                                assert(queue@[t2] == other);
                                                assert(q_mid[t1] == queue@[t1]);
                                                assert(v_mid[q_mid[t1] as int]);
                                                assert(!v_mid[other as int]);
                                            }
                                        }
                                        assert forall|i0: int|
                                            0 <= i0 <= seed && olds[i0].spec_alive() && (
                                            #[trigger] olds[i0]).spec_unstable()
                                            implies visit@[i0] by {
                                            if i0 != other as int {
                                                assert(v_mid[i0]);
                                            }
                                        }
                                        assert forall|i: int|
                                            #![trigger visit@[i]]
                                            0 <= i < n && visit@[i] implies exists|u: int|
                                                0 <= u < n && olds[u].spec_unstable()
                                                    && #[trigger] joined(connect, u, i) by {
                                            if i == other as int {
                                                let u = choose|u: int|
                                                    0 <= u < n && olds[u].spec_unstable()
                                                        && #[trigger] joined(
                                                        connect,
                                                        u,
                                                        cur as int,
                                                    );
                                                assert(joined(connect, cur as int, i));
                                                assert(joined(connect, u, i));
                                            } else {
                                                assert(v_mid[i]);
                                            }
                                        }
                                    }
                                }
                                proof {
                                    assert forall|i: int|
                                        #![trigger visit@[i]]
                                        0 <= i < n && !visit@[i] implies (forall|j: int|
                                        0 <= j < n && #[trigger] joined(connect, j, i) ==> j
                                            == i) by {
                                        assert(i != other as int);
                                    }
                                }
                            }
                        }
                        proof {
                            assert(settled(olds, connect, cur as int)) by {
                                assert forall|j: int|
                                    0 <= j < olds.len() && (#[trigger] olds[j]).spec_alive()
                                        && adjacent(olds, cur as int, j) implies joined(
                                    connect,
                                    cur as int,
                                    j,
                                ) by {
                                    let t0 = choose|t0: int|
                                        0 <= t0 < crate::outlines::spec_outline_all(
                                            olds[cur as int].units@,
                                            crate::outlines::spec_anchor(
                                                olds[cur as int].units@,
                                            ),
                                        ).len() && footprint(olds[j].units@).contains(
                                            #[trigger] crate::outlines::spec_outline_all(
                                                olds[cur as int].units@,
                                                crate::outlines::spec_anchor(
                                                    olds[cur as int].units@,
                                                ),
                                            )[t0],
                                        );
                                    assert(footprint(olds[j].units@).contains(points@[t0]));
                                }
                            }
                        }
                    } else {
                        proof {
                            assert(false);
                        }
                    }
                }
            }
        }
        proof {
            assert forall|i: int, j: int|
                0 <= i < n && 0 <= j < n && (#[trigger] olds[i]).spec_unstable() && (
            #[trigger] olds[j]).spec_alive() && adjacent(olds, i, j) implies joined(
                connect,
                i,
                j,
            ) by {
                assert(olds[i].spec_alive());
                assert(visit@[i]);
                assert(settled(olds, connect, i));
            }
            assert forall|a: int, b: int|
                0 <= a < n && 0 <= b < n && a != b && #[trigger] joined(connect, a, b)
                implies exists|u: int|
                    0 <= u < n && olds[u].spec_unstable() && joined(connect, u, a) by {
                if !visit@[a as int] {
                    assert(joined(connect, b, a));
                    assert(false);
                }
                let u = choose|u: int|
                    0 <= u < n && olds[u].spec_unstable() && #[trigger] joined(connect, u, a);
            }
        }
        connect
    }

    /// Run every listed component through the arena and apply its
    /// outcome: merge it into its first member on a win, mark every member
    /// balanced on a draw, and leave it alone otherwise.
    #[verifier::rlimit(100)]
    #[verifier::spinoff_prover]
    fn contest_groups(&mut self, groups: &Vec<Vec<usize>>, Ghost(olds): Ghost<Seq<Cube>>)
        requires
            old(self).wf(),
            old(self).cubes@ == olds,
            forall|g: int, k: int|
                0 <= g < groups@.len() && 0 <= k < groups@[g]@.len()
                    ==> #[trigger] groups@[g]@[k] < olds.len(),
            forall|g: int| 0 <= g < groups@.len() ==> #[trigger] groups@[g]@.len() > 0,
            forall|g: int, k1: int, k2: int|
                #![trigger groups@[g]@[k1], groups@[g]@[k2]]
                0 <= g < groups@.len() && 0 <= k1 < k2 < groups@[g]@.len()
                    ==> groups@[g]@[k1] < groups@[g]@[k2],
            forall|g1: int, k1: int, g2: int, k2: int|
                0 <= g1 < groups@.len() && 0 <= k1 < groups@[g1]@.len() && 0 <= g2
                    < groups@.len() && 0 <= k2 < groups@[g2]@.len() && #[trigger] groups@[
                g1]@[k1] == #[trigger] groups@[g2]@[k2] ==> g1 == g2 && k1 == k2,
            (forall|i: int|
                0 <= i < olds.len() ==> !(#[trigger] olds[i]).spec_unstable()) ==> (forall|g: int|
                0 <= g < groups@.len() ==> #[trigger] groups@[g]@.len() == 1),
        ensures
            final(self).geometry_ok(),
            final(self).area == old(self).area,
            final(self).cubes@.len() == olds.len(),
            forall|p: Point| occupied(final(self).cubes@, p) <==> occupied(olds, p),
            forall|k: Kind|
                #[trigger] kind_present(final(self).cubes@, k) ==> kind_present(olds, k),
            (forall|i: int|
                0 <= i < olds.len() ==> !(#[trigger] olds[i]).spec_unstable())
                ==> final(self).cubes@ == olds,
            forall|g: int, k: int|
                #![trigger groups@[g]@[k]]
                0 <= g < groups@.len() && 0 <= k < groups@[g]@.len() ==> part_member_state(
                    olds,
                    final(self).cubes@,
                    groups@[g]@,
                    k,
                ),
    {
        let gn = groups.len();
        let n = self.cubes.len();
        let ghost all_stable = forall|i: int|
            0 <= i < olds.len() ==> !(#[trigger] olds[i]).spec_unstable();
        for g in 0..gn
            invariant
                gn == groups@.len(),
                n == olds.len(),
                self.cubes@.len() == n,
                self.area == old(self).area,
                self.geometry_ok(),
                forall|g0: int, k: int|
                    0 <= g0 < groups@.len() && 0 <= k < groups@[g0]@.len()
                        ==> #[trigger] groups@[g0]@[k] < n,
                forall|g0: int| 0 <= g0 < groups@.len() ==> #[trigger] groups@[g0]@.len() > 0,
                forall|g0: int, k1: int, k2: int|
                    #![trigger groups@[g0]@[k1], groups@[g0]@[k2]]
                    0 <= g0 < groups@.len() && 0 <= k1 < k2 < groups@[g0]@.len()
                        ==> groups@[g0]@[k1] < groups@[g0]@[k2],
                forall|g1: int, k1: int, g2: int, k2: int|
                    0 <= g1 < groups@.len() && 0 <= k1 < groups@[g1]@.len() && 0 <= g2
                        < groups@.len() && 0 <= k2 < groups@[g2]@.len() && #[trigger] groups@[
                    g1]@[k1] == #[trigger] groups@[g2]@[k2] ==> g1 == g2 && k1 == k2,
                forall|p: Point| occupied(self.cubes@, p) <==> occupied(olds, p),
                forall|k: Kind| #[trigger] kind_present(self.cubes@, k) ==> kind_present(olds, k),
                all_stable == (forall|i: int|
                    0 <= i < olds.len() ==> !(#[trigger] olds[i]).spec_unstable()),
                all_stable ==> self.cubes@ == olds,
                all_stable ==> (forall|g0: int|
                    0 <= g0 < groups@.len() ==> #[trigger] groups@[g0]@.len() == 1),
                forall|g0: int, k: int|
                    #![trigger groups@[g0]@[k]]
                    g <= g0 < gn && 0 <= k < groups@[g0]@.len()
                        ==> self.cubes@[groups@[g0]@[k] as int] == olds[groups@[g0]@[k] as int],
                forall|g0: int, k: int|
                    #![trigger groups@[g0]@[k]]
                    0 <= g0 < g && 0 <= k < groups@[g0]@.len() ==> part_member_state(
                        olds,
                        self.cubes@,
                        groups@[g0]@,
                        k,
                    ),
        {
            let group = &groups[g];
            let mut arena = crate::arena::Arena::new();
            let kn = group.len();
            let ghost cubes_at_group = self.cubes@;
            let mut k: usize = 0;
            while k < kn
                invariant
                    gn == groups@.len(),
                    g < gn,
                    group@ == groups@[g as int]@,
                    kn == group@.len(),
                    k <= kn,
                    n == olds.len(),
                    self.cubes@ == cubes_at_group,
                    self.cubes@.len() == n,
                    forall|k0: int| 0 <= k0 < group@.len() ==> #[trigger] group@[k0] < n,
                    arena.wf(),
                    arena.fed().len() == k,
                    forall|j: int|
                        0 <= j < arena.fed().len() ==> #[trigger] arena.fed()[j]
                            == cubes_at_group[group@[j] as int].kind,
                    all_stable ==> kn == 1,
                ensures
                    arena.wf(),
                    self.cubes@ == cubes_at_group,
                    forall|j: int|
                        0 <= j < arena.fed().len() ==> #[trigger] arena.fed()[j]
                            == cubes_at_group[group@[j] as int].kind,
                    arena.fed().len() == kn || (arena.fed().contains(Kind::Red)
                        && arena.fed().contains(Kind::Blue) && arena.fed().contains(
                        Kind::Green,
                    )),
                    all_stable ==> arena.fed().len() == 1,
                decreases kn - k,
            {
                let idx = group[k];
                let more = arena.input(self.cubes[idx].kind);
                k = k + 1;
                if !more {
                    break ;
                }
            }
            let out = arena.output();
            proof {
                if all_stable {
                    // a lone kind never yields a winner or a draw
                    assert(arena.fed().len() == 1);
                    let lone = arena.fed()[0];
                    assert forall|x: Kind| #[trigger] arena.fed().contains(x) implies x
                        == lone by {
                        let j = choose|j: int|
                            0 <= j < arena.fed().len() && arena.fed()[j] == x;
                    }
                    if arena.fed().contains(Kind::Red) && arena.fed().contains(Kind::Blue) {
                        assert(false);
                    }
                    if arena.fed().contains(Kind::Red) && arena.fed().contains(Kind::Green) {
                        assert(false);
                    }
                    if arena.fed().contains(Kind::Blue) && arena.fed().contains(Kind::Green) {
                        assert(false);
                    }
                    assert(out == crate::arena::ArenaResult::Nothing);
                }
                // the tally decides the same way as the whole component
                assert(spec_arena_result(arena.fed()) == spec_arena_result(
                    part_kinds(olds, group@),
                )) by {
                    let pk = part_kinds(olds, group@);
                    assert forall|j: int|
                        0 <= j < arena.fed().len() implies #[trigger] arena.fed()[j] == pk[
                    j] by {
                        assert(cubes_at_group[group@[j] as int] == olds[group@[j] as int]);
                    }
                    if arena.fed().len() == kn {
                        assert(arena.fed() =~= pk);
                    } else {
                        assert(pk.contains(Kind::Red)) by {
                            let j = choose|j: int|
                                0 <= j < arena.fed().len() && arena.fed()[j] == Kind::Red;
                            assert(pk[j] == Kind::Red);
                        }
                        assert(pk.contains(Kind::Blue)) by {
                            let j = choose|j: int|
                                0 <= j < arena.fed().len() && arena.fed()[j] == Kind::Blue;
                            assert(pk[j] == Kind::Blue);
                        }
                        assert(pk.contains(Kind::Green)) by {
                            let j = choose|j: int|
                                0 <= j < arena.fed().len() && arena.fed()[j] == Kind::Green;
                            assert(pk[j] == Kind::Green);
                        }
                    }
                }
            }
            match out {
                crate::arena::ArenaResult::Have(kind) => {
                    proof {
                        assert(!all_stable);
                        assert forall|k1: int, k2: int|
                            #![trigger group@[k1], group@[k2]]
                            0 <= k1 < k2 < group@.len() implies group@[k1] != group@[k2] by {}
                        assert(arena.fed().contains(kind));
                        assert(kind_present(cubes_at_group, kind)) by {
                            let j = choose|j: int|
                                0 <= j < arena.fed().len() && arena.fed()[j] == kind;
                            assert(cubes_at_group[group@[j] as int].kind == kind);
                        }
                    }
                    self.link_to_first(group, kind);
                    proof {
                        assert forall|p: Point|
                            occupied(self.cubes@, p) <==> occupied(olds, p) by {}
                        assert forall|k0: Kind|
                            #[trigger] kind_present(self.cubes@, k0) implies kind_present(
                            olds,
                            k0,
                        ) by {
                            let i = choose|i: int|
                                0 <= i < self.cubes@.len() && (#[trigger] self.cubes@[i]).kind
                                    == k0;
                            if i == group@[0] as int {
                                assert(kind_present(cubes_at_group, k0));
                            } else if group_holds(group@, i) {
                                let kk = choose|kk: int|
                                    0 <= kk < group@.len() && #[trigger] group@[kk] as int == i;
                                assert(self.cubes@[i].kind == cubes_at_group[i].kind) by {
                                    if kk > 0 {
                                        assert(self.cubes@[group@[kk] as int].kind
                                            == cubes_at_group[group@[kk] as int].kind);
                                    }
                                }
                                assert(kind_present(cubes_at_group, k0));
                            } else {
                                assert(self.cubes@[i] == cubes_at_group[i]);
                                assert(kind_present(cubes_at_group, k0));
                            }
                        }
                        // the head takes the merged shape, the rest empty
                        lemma_part_agree(olds, cubes_at_group, group@, kind);
                        assert(merged_shape(
                            self.cubes@[group@[0] as int],
                            olds,
                            group@,
                            kind,
                        )) by {
                            assert(positions_of(self.cubes@[group@[0] as int].units@)
                                == positions_of(concat_units(cubes_at_group, group@)));
                            assert forall|p: Point|
                                #[trigger] footprint(
                                    self.cubes@[group@[0] as int].units@,
                                ).contains(p) <==> group_occupies(olds, group@, p) by {
                                assert(footprint(
                                    self.cubes@[group@[0] as int].units@,
                                ).contains(p) <==> group_occupies(cubes_at_group, group@, p));
                            }
                        }
                        assert forall|k0: int|
                            #![trigger group@[k0]]
                            0 <= k0 < group@.len() implies part_member_state(
                            olds,
                            self.cubes@,
                            group@,
                            k0,
                        ) by {
                            if k0 > 0 {
                                assert(self.cubes@[group@[k0] as int].units@.len() == 0);
                            }
                        }
                        // earlier components keep their recorded state
                        assert forall|g0: int, k0: int|
                            #![trigger groups@[g0]@[k0]]
                            0 <= g0 < g && 0 <= k0 < groups@[g0]@.len()
                            implies part_member_state(
                            olds,
                            self.cubes@,
                            groups@[g0]@,
                            k0,
                        ) by {
                            lemma_state_untouched(
                                olds,
                                cubes_at_group,
                                self.cubes@,
                                groups@,
                                group@,
                                g as int,
                                g0,
                                k0,
                            );
                        }
                        // later components are still untouched
                        assert forall|g0: int, k0: int|
                            #![trigger groups@[g0]@[k0]]
                            g + 1 <= g0 < gn && 0 <= k0 < groups@[g0]@.len()
                            implies self.cubes@[groups@[g0]@[k0] as int] == olds[groups@[
                        g0]@[k0] as int] by {
                            let idx = groups@[g0]@[k0] as int;
                            assert(!group_holds(group@, idx)) by {
                                if group_holds(group@, idx) {
                                    let kk = choose|kk: int|
                                        0 <= kk < group@.len() && #[trigger] group@[kk] as int
                                            == idx;
                                    assert(groups@[g as int]@[kk] == groups@[g0]@[k0]);
                                }
                            }
                        }
                    }
                },
                crate::arena::ArenaResult::Draw => {
                    proof {
                        assert(!all_stable);
                    }
                    self.mark_balanced(group);
                    proof {
                        let news = self.cubes@;
                        assert forall|j: int|
                            0 <= j < news.len() implies (#[trigger] news[j]).units@
                                == cubes_at_group[j].units@ && news[j].wf() by {
                            if group_holds(group@, j) {
                                assert(news[j] == with_balanced(cubes_at_group[j], true));
                            } else {
                                assert(news[j] == cubes_at_group[j]);
                            }
                        }
                        assert forall|p: Point|
                            occupied(news, p) <==> occupied(olds, p) by {
                            if occupied(news, p) {
                                let i = choose|i: int| #[trigger] cube_at(news, i, p);
                                assert(cube_at(cubes_at_group, i, p));
                            }
                            if occupied(olds, p) {
                                assert(occupied(cubes_at_group, p));
                                let i = choose|i: int| #[trigger] cube_at(cubes_at_group, i, p);
                                assert(cube_at(news, i, p));
                            }
                        }
                        assert forall|i1: int, i2: int, p: Point|
                            #![trigger footprint(news[i1].units@).contains(p), footprint(news[i2].units@).contains(p)]
                            0 <= i1 < news.len() && 0 <= i2 < news.len() && footprint(
                                news[i1].units@,
                            ).contains(p) && footprint(news[i2].units@).contains(p)
                            implies i1 == i2 by {
                            assert(footprint(cubes_at_group[i1].units@).contains(p));
                            assert(footprint(cubes_at_group[i2].units@).contains(p));
                        }
                        assert forall|i: int, p: Point|
                            #![trigger footprint(news[i].units@).contains(p)]
                            0 <= i < news.len() && footprint(news[i].units@).contains(p)
                            implies !self.area.spec_blocked(p) by {
                            assert(footprint(cubes_at_group[i].units@).contains(p));
                        }
                        assert forall|k0: Kind|
                            #[trigger] kind_present(news, k0) implies kind_present(olds, k0) by {
                            let i = choose|i: int|
                                0 <= i < news.len() && (#[trigger] news[i]).kind == k0;
                            assert(news[i].kind == cubes_at_group[i].kind);
                            assert(kind_present(cubes_at_group, k0));
                        }
                        assert forall|k0: int|
                            #![trigger group@[k0]]
                            0 <= k0 < group@.len() implies part_member_state(
                            olds,
                            news,
                            group@,
                            k0,
                        ) by {
                            assert(group_holds(group@, group@[k0] as int)) by {
                                assert(group@[k0] as int == group@[k0] as int);
                            }
                            assert(news[group@[k0] as int] == with_balanced(
                                cubes_at_group[group@[k0] as int],
                                true,
                            ));
                            assert(cubes_at_group[group@[k0] as int] == olds[
                                group@[k0] as int]);
                        }
                        assert forall|g0: int, k0: int|
                            #![trigger groups@[g0]@[k0]]
                            0 <= g0 < g && 0 <= k0 < groups@[g0]@.len()
                            implies part_member_state(olds, news, groups@[g0]@, k0) by {
                            lemma_state_untouched(
                                olds,
                                cubes_at_group,
                                news,
                                groups@,
                                group@,
                                g as int,
                                g0,
                                k0,
                            );
                        }
                        assert forall|g0: int, k0: int|
                            #![trigger groups@[g0]@[k0]]
                            g + 1 <= g0 < gn && 0 <= k0 < groups@[g0]@.len()
                            implies news[groups@[g0]@[k0] as int] == olds[groups@[
                        g0]@[k0] as int] by {
                            let idx = groups@[g0]@[k0] as int;
                            assert(!group_holds(group@, idx)) by {
                                if group_holds(group@, idx) {
                                    let kk = choose|kk: int|
                                        0 <= kk < group@.len() && #[trigger] group@[kk] as int
                                            == idx;
                                    assert(groups@[g as int]@[kk] == groups@[g0]@[k0]);
                                }
                            }
                        }
                    }
                },
                crate::arena::ArenaResult::Nothing => {
                    proof {
                        assert forall|k0: int|
                            #![trigger group@[k0]]
                            0 <= k0 < group@.len() implies part_member_state(
                            olds,
                            self.cubes@,
                            group@,
                            k0,
                        ) by {
                            assert(self.cubes@[group@[k0] as int] == olds[group@[k0] as int]);
                        }
                    }
                },
            }
        }
    }

    /// One full contest-resolution tick: group every transitively touching
    /// unstable cube with its alive neighbors, run each component through
    /// the arena, merge won components into their first member, mark drawn
    /// ones balanced, and prune cubes that lost all units.
    ///
    /// Besides preserving the occupied cells, the area and well-formedness,
    /// the contract accounts for the whole outcome: the cubes split into
    /// adjacency components seeded at unstable cubes (`absorb_outcome`),
    /// and the final state is exactly the per-component contest results. A
    /// collection with no unstable cube is returned unchanged.
    pub fn absorb(&mut self)
        requires
            old(self).wf(),
        ensures
            final(self).wf(),
            final(self).area == old(self).area,
            forall|i: int|
                0 <= i < final(self).cubes@.len()
                    ==> (#[trigger] final(self).cubes@[i]).spec_alive(),
            forall|p: Point| occupied(final(self).cubes@, p) <==> occupied(old(self).cubes@, p),
            forall|f: int|
                0 <= f < final(self).cubes@.len() ==> kind_present(
                    old(self).cubes@,
                    (#[trigger] final(self).cubes@[f]).kind,
                ),
            (forall|i: int|
                0 <= i < old(self).cubes@.len()
                    ==> !(#[trigger] old(self).cubes@[i]).spec_unstable()) ==> final(self).cubes@
                == old(self).cubes@,
            exists|parts: Seq<Seq<usize>>|
                #[trigger] absorb_outcome(old(self).cubes@, final(self).cubes@, parts),
    {
        let n = self.cubes.len();
        let ghost olds = self.cubes@;
        let ghost all_stable = forall|i: int|
            0 <= i < olds.len() ==> !(#[trigger] olds[i]).spec_unstable();
        let faction = crate::faction::Faction::new(&self.cubes);
        let connect = self.connect_adjacent(&faction);
        let ghost csnap = connect;
        let groups = connect.groups();
        let ghost groups_snap = groups@;
        let ghost parts = groups_snap.map_values(|v: Vec<usize>| v@);
        proof {
            assert forall|g: int| 0 <= g < parts.len() implies #[trigger] parts[g]
                == groups_snap[g]@ by {}
            if all_stable {
                assert forall|g0: int|
                    0 <= g0 < groups@.len() implies #[trigger] groups@[g0]@.len() == 1 by {
                    if groups@[g0]@.len() > 1 {
                        assert(csnap.spec_root(groups@[g0]@[0] as int) == groups@[g0]@[0]);
                        assert(csnap.spec_root(groups@[g0]@[1] as int) == groups@[g0]@[0]);
                        assert(csnap.spec_root(groups@[g0]@[1] as int) == groups@[g0]@[1]);
                        assert(groups@[g0]@[0] < groups@[g0]@[1]);
                        assert(false);
                    }
                }
            }
            // no index sits in two places
            assert forall|g1: int, k1: int, g2: int, k2: int|
                0 <= g1 < groups@.len() && 0 <= k1 < groups@[g1]@.len() && 0 <= g2
                    < groups@.len() && 0 <= k2 < groups@[g2]@.len() && #[trigger] groups@[
            g1]@[k1] == #[trigger] groups@[g2]@[k2] implies g1 == g2 && k1 == k2 by {
                assert(csnap.spec_root(groups@[g1]@[k1] as int) == groups@[g1]@[0]);
                assert(csnap.spec_root(groups@[g2]@[k2] as int) == groups@[g2]@[0]);
                if g1 < g2 {
                    assert(groups@[g1]@[0] < groups@[g2]@[0]);
                    assert(false);
                }
                if g2 < g1 {
                    assert(groups@[g2]@[0] < groups@[g1]@[0]);
                    assert(false);
                }
                if k1 < k2 {
                    assert(groups@[g1]@[k1] < groups@[g1]@[k2]);
                    assert(false);
                }
                if k2 < k1 {
                    assert(groups@[g1]@[k2] < groups@[g1]@[k1]);
                    assert(false);
                }
            }
        }
        self.contest_groups(&groups, Ghost(olds));
        let ghost mid = self.cubes@;
        self.retain_alive();
        proof {
            if all_stable {
                assert(final(self).cubes@ == olds);
            }
            assert forall|f: int|
                0 <= f < final(self).cubes@.len() implies kind_present(
                olds,
                (#[trigger] final(self).cubes@[f]).kind,
            ) by {
                let i = choose|i: int|
                    0 <= i < mid.len() && final(self).cubes@[f] == mid[i];
                assert(kind_present(mid, final(self).cubes@[f].kind)) by {
                    assert(mid[i].kind == final(self).cubes@[f].kind);
                }
            }
            lemma_absorb_outcome(olds, mid, final(self).cubes@, csnap, groups_snap, parts);
        }
    }

    /// Resolve one tick of movement: give the input to every cube of the
    /// controlled kind, then decide which moving cubes are blocked — by a
    /// static obstacle on their leading edge, by an occupant there that is
    /// stationary or moves elsewhere without linking, or by a
    /// same-direction cube ahead that is itself blocked. Blocked movers end
    /// the pass with `Stop`, unblocked movers with `Free`; everything else
    /// is untouched.
    pub fn input(&mut self, movement: Option<Movement>, controlled: Kind)
        requires
            old(self).wf(),
        ensures
            final(self).wf(),
            final(self).area == old(self).area,
            final(self).cubes@.len() == old(self).cubes@.len(),
            forall|i: int|
                0 <= i < old(self).cubes@.len() ==> #[trigger] final(self).cubes@[i]
                    == with_constraint(
                    assign_movement(old(self).cubes@, controlled, movement)[i],
                    if assign_movement(old(self).cubes@, controlled, movement)[i].movement
                        is Some {
                        if spec_blocked(
                            assign_movement(old(self).cubes@, controlled, movement),
                            old(self).area,
                            i,
                        ) {
                            Constraint::Stop
                        } else {
                            Constraint::Free
                        }
                    } else {
                        old(self).cubes@[i].constraint
                    },
                ),
    {
        let n = self.cubes.len();
        let ghost olds = self.cubes@;
        let ghost asg = assign_movement(olds, controlled, movement);

        // hand the input to the controlled kind
        for i in 0..n
            invariant
                n == self.cubes@.len(),
                n == olds.len(),
                self.area == old(self).area,
                asg == assign_movement(olds, controlled, movement),
                forall|j: int| 0 <= j < i ==> #[trigger] self.cubes@[j] == asg[j],
                forall|j: int| i <= j < n ==> #[trigger] self.cubes@[j] == olds[j],
        {
            if self.cubes[i].kind == controlled {
                self.cubes[i].movement = movement;
            }
            proof {
                assert(self.cubes@[i as int] == asg[i as int]);
            }
        }
        proof {
            assert(self.cubes@ =~= asg);
            assert forall|i: int| 0 <= i < n implies (#[trigger] asg[i]).wf() && asg[i].units@
                == olds[i].units@ && asg[i].spec_alive() by {
                assert(olds[i].wf());
            }
            assert(crate::faction::cubes_disjoint(asg)) by {
                assert forall|i1: int, i2: int, p: Point|
                    #![trigger footprint(asg[i1].units@).contains(p), footprint(asg[i2].units@).contains(p)]
                    0 <= i1 < asg.len() && 0 <= i2 < asg.len() && footprint(
                        asg[i1].units@,
                    ).contains(p) && footprint(asg[i2].units@).contains(p) implies i1 == i2 by {
                    assert(footprint(olds[i1].units@).contains(p));
                    assert(footprint(olds[i2].units@).contains(p));
                }
            }
            assert forall|i: int, p: Point|
                #![trigger footprint(asg[i].units@).contains(p)]
                0 <= i < asg.len() && footprint(asg[i].units@).contains(p)
                implies !self.area.spec_blocked(p) by {
                assert(footprint(olds[i].units@).contains(p));
            }
        }

        // find the blocked movers
        let faction = crate::faction::Faction::new(&self.cubes);
        let mut marked: Vec<bool> = Vec::new();
        for k in 0..n
            invariant
                marked@.len() == k,
                count_true(marked@) == 0,
                forall|j: int| 0 <= j < k ==> !marked@[j],
        {
            let ghost before = marked@;
            marked.push(false);
            proof {
                assert(marked@.drop_last() =~= before);
            }
        }
        loop
            invariant
                n == self.cubes@.len(),
                n == olds.len(),
                self.cubes@ == asg,
                self.area == old(self).area,
                self.wf(),
                marked@.len() == n,
                count_true(marked@) <= n,
                forall|i: int|
                    #![trigger marked@[i]]
                    0 <= i < n && marked@[i] ==> spec_blocked(asg, self.area, i),
                forall|i: usize, p: Point|
                    #![trigger footprint(asg[i as int].units@).contains(p)]
                    i < asg.len() && asg[i as int].spec_alive() && footprint(
                        asg[i as int].units@,
                    ).contains(p) ==> crate::faction::spec_lookup(faction.entries(), p) == Some(
                        i,
                    ),
                forall|p: Point|
                    #[trigger] crate::faction::spec_lookup(faction.entries(), p)
                        matches Some(j) ==> crate::faction::entry_ok(asg, (p, j)),
            ensures
                n == self.cubes@.len(),
                self.cubes@ == asg,
                self.area == old(self).area,
                self.wf(),
                marked@.len() == n,
                forall|i: int|
                    #![trigger marked@[i]]
                    0 <= i < n && marked@[i] ==> spec_blocked(asg, self.area, i),
                forall|i0: int|
                    #![trigger marked@[i0]]
                    0 <= i0 < n && !marked@[i0] && asg[i0].movement is Some ==> (
                    !front_hits_obstacle(asg, self.area, i0) && !front_hits_stopper(asg, i0)
                        && forall|j: int|
                        0 <= j < n && #[trigger] front_same_mover(asg, i0, j)
                            ==> !marked@[j]),
            decreases n - count_true(marked@),
        {
            let ghost count0 = count_true(marked@);
            let mut changed = false;
            for i in 0..n
                invariant
                    n == self.cubes@.len(),
                    n == olds.len(),
                    self.cubes@ == asg,
                    self.area == old(self).area,
                    self.wf(),
                    marked@.len() == n,
                    count_true(marked@) <= n,
                    changed ==> count_true(marked@) > count0,
                    !changed ==> count_true(marked@) == count0,
                    forall|i0: int|
                        #![trigger marked@[i0]]
                        0 <= i0 < n && marked@[i0] ==> spec_blocked(asg, self.area, i0),
                    !changed ==> forall|i0: int|
                        #![trigger marked@[i0]]
                        0 <= i0 < i && !marked@[i0] && asg[i0].movement is Some ==> (
                        !front_hits_obstacle(asg, self.area, i0) && !front_hits_stopper(
                            asg,
                            i0,
                        ) && forall|j: int|
                            0 <= j < n && #[trigger] front_same_mover(asg, i0, j)
                                ==> !marked@[j]),
                    forall|i0: usize, p: Point|
                        #![trigger footprint(asg[i0 as int].units@).contains(p)]
                        i0 < asg.len() && asg[i0 as int].spec_alive() && footprint(
                            asg[i0 as int].units@,
                        ).contains(p) ==> crate::faction::spec_lookup(faction.entries(), p)
                            == Some(i0),
                    forall|p: Point|
                        #[trigger] crate::faction::spec_lookup(faction.entries(), p)
                            matches Some(j) ==> crate::faction::entry_ok(asg, (p, j)),
            {
                let already = marked[i];
                let moving = self.cubes[i].movement;
                if !already {
                    if let Some(m) = moving {
                        let anchor = Outlines::anchor(&self.cubes[i].units);
                        proof {
                            if asg[i as int].units@.len() > 0 {
                                assert(coord_ok(asg[i as int].units@[0].position));
                            }
                        }
                        let points = self.cubes[i].outlines.one(anchor, m);
                        proof {
                            assert(points@ == spec_frontline(asg[i as int]));
                        }
                        let pn = points.len();
                        let mut hit = false;
                        for t in 0..pn
                            invariant
                                n == self.cubes@.len(),
                                self.cubes@ == asg,
                                self.area == old(self).area,
                                self.wf(),
                                i < n,
                                marked@.len() == n,
                                asg[i as int].movement == Some(m),
                                pn == points@.len(),
                                points@ == spec_frontline(asg[i as int]),
                                hit ==> spec_blocked(asg, self.area, i as int),
                                forall|i0: int|
                                    #![trigger marked@[i0]]
                                    0 <= i0 < n && marked@[i0] ==> spec_blocked(
                                        asg,
                                        self.area,
                                        i0,
                                    ),
                                !hit ==> forall|t0: int|
                                    0 <= t0 < t ==> !self.area.spec_blocked(
                                        #[trigger] points@[t0],
                                    ),
                                !hit ==> forall|t0: int, j: int|
                                    #![trigger cube_at(asg, j, points@[t0])]
                                    0 <= t0 < t && cube_at(asg, j, points@[t0]) && j != i
                                        ==> ((asg[j].movement is Some && (asg[j].movement
                                        == asg[i as int].movement
                                        || asg[i as int].kind.spec_linkable(asg[j].kind)))
                                        && (asg[j].movement == asg[i as int].movement
                                        ==> !marked@[j])),
                                forall|i0: usize, p: Point|
                                    #![trigger footprint(asg[i0 as int].units@).contains(p)]
                                    i0 < asg.len() && asg[i0 as int].spec_alive() && footprint(
                                        asg[i0 as int].units@,
                                    ).contains(p) ==> crate::faction::spec_lookup(
                                        faction.entries(),
                                        p,
                                    ) == Some(i0),
                                forall|p: Point|
                                    #[trigger] crate::faction::spec_lookup(faction.entries(), p)
                                        matches Some(j) ==> crate::faction::entry_ok(
                                        asg,
                                        (p, j),
                                    ),
                        {
                            let p = points[t];
                            if self.area.blocked(p) {
                                hit = true;
                                proof {
                                    assert(front_hits_obstacle(asg, self.area, i as int)) by {
                                        assert(self.area.spec_blocked(
                                            spec_frontline(asg[i as int])[t as int],
                                        ));
                                    }
                                    assert(blocked_within(asg, self.area, i as int, 1));
                                }
                            } else {
                                let owner = faction.get(p);
                                if let Some(j) = owner {
                                    proof {
                                        assert(crate::faction::entry_ok(asg, (p, j)));
                                        assert(cube_at(asg, j as int, p));
                                    }
                                    if j != i {
                                        let stopper = match self.cubes[j].movement {
                                            None => true,
                                            Some(mj) => !(mj == m || self.cubes[i].kind.linkable(
                                                self.cubes[j].kind,
                                            )),
                                        };
                                        if stopper {
                                            hit = true;
                                            proof {
                                                assert(front_hits_stopper(asg, i as int)) by {
                                                    assert(cube_at(
                                                        asg,
                                                        j as int,
                                                        spec_frontline(asg[i as int])[t as int],
                                                    ));
                                                }
                                                assert(blocked_within(
                                                    asg,
                                                    self.area,
                                                    i as int,
                                                    1,
                                                ));
                                            }
                                        } else {
                                            let same = match self.cubes[j].movement {
                                                None => false,
                                                Some(mj) => mj == m,
                                            };
                                            if same && marked[j] {
                                                hit = true;
                                                proof {
                                                    assert(front_same_mover(
                                                        asg,
                                                        i as int,
                                                        j as int,
                                                    )) by {
                                                        assert(cube_at(
                                                            asg,
                                                            j as int,
                                                            spec_frontline(
                                                                asg[i as int],
                                                            )[t as int],
                                                        ));
                                                    }
                                                    assert(spec_blocked(
                                                        asg,
                                                        self.area,
                                                        j as int,
                                                    ));
                                                    let d = choose|d: int|
                                                        #[trigger] blocked_within(
                                                            asg,
                                                            self.area,
                                                            j as int,
                                                            d,
                                                        );
                                                    assert(blocked_within(
                                                        asg,
                                                        self.area,
                                                        i as int,
                                                        d + 1,
                                                    ));
                                                }
                                            } else {
                                                proof {
                                                    if !hit {
                                                        lemma_one_owner(asg, j as int, p);
                                                    }
                                                }
                                            }
                                        }
                                    } else {
                                        proof {
                                            if !hit {
                                                lemma_one_owner(asg, j as int, p);
                                            }
                                        }
                                    }
                                } else {
                                    proof {
                                        if !hit {
                                            assert forall|j: int|
                                                !(#[trigger] cube_at(asg, j, p)) by {
                                                if cube_at(asg, j, p) {
                                                    assert(asg[j].spec_alive());
                                                    assert(crate::faction::spec_lookup(
                                                        faction.entries(),
                                                        p,
                                                    ) == Some(j as usize));
                                                }
                                            }
                                        }
                                    }
                                }
                            }
                        }
                        if hit {
                            proof {
                                lemma_count_true_lt(marked@, i as int);
                                lemma_count_true_set(marked@, i as int);
                            }
                            marked[i] = true;
                            changed = true;
                        } else {
                            proof {
                                assert(!front_hits_obstacle(asg, self.area, i as int)) by {
                                    if front_hits_obstacle(asg, self.area, i as int) {
                                        let t0 = choose|t0: int|
                                            0 <= t0 < spec_frontline(asg[i as int]).len()
                                                && self.area.spec_blocked(
                                                #[trigger] spec_frontline(
                                                    asg[i as int],
                                                )[t0],
                                            );
                                        assert(!self.area.spec_blocked(points@[t0]));
                                    }
                                }
                                assert(!front_hits_stopper(asg, i as int)) by {
                                    if front_hits_stopper(asg, i as int) {
                                        let (t0, j): (int, int) = choose|t0: int, j: int|
                                            0 <= t0 < spec_frontline(asg[i as int]).len()
                                                && #[trigger] cube_at(
                                                asg,
                                                j,
                                                spec_frontline(asg[i as int])[t0],
                                            ) && j != i && !(asg[j].movement is Some && (
                                            asg[j].movement == asg[i as int].movement
                                                || asg[i as int].kind.spec_linkable(
                                                asg[j].kind,
                                            )));
                                        assert(cube_at(asg, j, points@[t0]));
                                    }
                                }
                                assert forall|j: int|
                                    0 <= j < n && #[trigger] front_same_mover(asg, i as int, j)
                                        implies !marked@[j] by {
                                    let t0 = choose|t0: int|
                                        0 <= t0 < spec_frontline(asg[i as int]).len()
                                            && #[trigger] cube_at(
                                            asg,
                                            j,
                                            spec_frontline(asg[i as int])[t0],
                                        ) && j != i && asg[j].movement == asg[
                                        i as int].movement;
                                    assert(cube_at(asg, j, points@[t0]));
                                }
                            }
                        }
                    }
                }
            }
            if !changed {
                break ;
            }
        }
        proof {
            assert forall|i0: int|
                #![trigger marked@[i0]]
                0 <= i0 < n implies (marked@[i0] <==> (asg[i0].movement is Some
                && spec_blocked(asg, self.area, i0))) by {
                if marked@[i0] {
                    assert(spec_blocked(asg, self.area, i0));
                    let d = choose|d: int| #[trigger] blocked_within(asg, self.area, i0, d);
                    assert(d > 0);
                    assert(asg[i0].movement is Some);
                }
                if !marked@[i0] && asg[i0].movement is Some && spec_blocked(
                    asg,
                    self.area,
                    i0,
                ) {
                    let d = choose|d: int| #[trigger] blocked_within(asg, self.area, i0, d);
                    lemma_blocked_closure(asg, self.area, marked@, i0, d);
                }
            }
        }

        // write the resolved constraints
        let ghost resolved = self.cubes@;
        for i in 0..n
            invariant
                n == self.cubes@.len(),
                n == olds.len(),
                self.area == old(self).area,
                marked@.len() == n,
                asg == assign_movement(olds, controlled, movement),
                forall|i0: int|
                    #![trigger marked@[i0]]
                    0 <= i0 < n ==> (marked@[i0] <==> (asg[i0].movement is Some && spec_blocked(
                        asg,
                        self.area,
                        i0,
                    ))),
                forall|j: int| i <= j < n ==> #[trigger] self.cubes@[j] == asg[j],
                forall|j: int|
                    0 <= j < i ==> #[trigger] self.cubes@[j] == with_constraint(
                        asg[j],
                        if asg[j].movement is Some {
                            if spec_blocked(asg, self.area, j) {
                                Constraint::Stop
                            } else {
                                Constraint::Free
                            }
                        } else {
                            olds[j].constraint
                        },
                    ),
        {
            let has_movement = matches!(self.cubes[i].movement, Some(_));
            if has_movement {
                if marked[i] {
                    self.cubes[i].constraint = Constraint::Stop;
                } else {
                    self.cubes[i].constraint = Constraint::Free;
                }
            }
            proof {
                assert(asg[i as int].constraint == olds[i as int].constraint);
            }
        }
        proof {
            assert forall|i: int| 0 <= i < n implies (#[trigger] final(self).cubes@[i]).wf()
                && final(self).cubes@[i].spec_alive() && final(self).cubes@[i].units@ == olds[
            i].units@ by {
                assert(olds[i].wf());
            }
            assert(crate::faction::cubes_disjoint(final(self).cubes@)) by {
                assert forall|i1: int, i2: int, p: Point|
                    #![trigger footprint(final(self).cubes@[i1].units@).contains(p), footprint(final(self).cubes@[i2].units@).contains(p)]
                    0 <= i1 < n && 0 <= i2 < n && footprint(
                        final(self).cubes@[i1].units@,
                    ).contains(p) && footprint(final(self).cubes@[i2].units@).contains(p)
                    implies i1 == i2 by {
                    assert(footprint(olds[i1].units@).contains(p));
                    assert(footprint(olds[i2].units@).contains(p));
                }
            }
            assert forall|i: int, p: Point|
                #![trigger footprint(final(self).cubes@[i].units@).contains(p)]
                0 <= i < n && footprint(final(self).cubes@[i].units@).contains(p)
                implies !final(self).area.spec_blocked(p) by {
                assert(footprint(olds[i].units@).contains(p));
            }
        }
    }

    /// Merge the whole group into its first member: the units of every
    /// member move there, neighborhoods and outlines are recomputed
    /// wholesale, the winning kind is taken, the movement is the winners'
    /// unanimous choice or none, the constraint their most restrictive,
    /// and the motion the first surviving script. The other members are
    /// left as empty stubs.
    fn link_to_first(&mut self, from: &Vec<usize>, kind: Kind)
        requires
            old(self).geometry_ok(),
            from@.len() > 0,
            forall|k: int| 0 <= k < from@.len() ==> #[trigger] from@[k] < old(self).cubes@.len(),
            forall|k1: int, k2: int|
                #![trigger from@[k1], from@[k2]]
                0 <= k1 < k2 < from@.len() ==> from@[k1] != from@[k2],
        ensures
            final(self).geometry_ok(),
            final(self).area == old(self).area,
            final(self).cubes@.len() == old(self).cubes@.len(),
            forall|j: int|
                0 <= j < old(self).cubes@.len() && !group_holds(from@, j)
                    ==> final(self).cubes@[j] == old(self).cubes@[j],
            forall|k: int|
                1 <= k < from@.len()
                    ==> !(final(self).cubes@[#[trigger] from@[k] as int]).spec_alive(),
            forall|k: int|
                1 <= k < from@.len()
                    ==> (final(self).cubes@[#[trigger] from@[k] as int]).kind == old(
                    self,
                ).cubes@[from@[k] as int].kind,
            forall|p: Point| occupied(final(self).cubes@, p) <==> occupied(old(self).cubes@, p),
            final(self).cubes@[from@[0] as int].kind == kind,
            !final(self).cubes@[from@[0] as int].balanced,
            positions_of(final(self).cubes@[from@[0] as int].units@) == positions_of(
                concat_units(old(self).cubes@, from@),
            ),
            forall|p: Point|
                #[trigger] footprint(final(self).cubes@[from@[0] as int].units@).contains(p)
                    <==> group_occupies(old(self).cubes@, from@, p),
            final(self).cubes@[from@[0] as int].movement == (match spec_agreed(
                winners_movements(old(self).cubes@, from@, kind),
            ) {
                Some(v) => v,
                None => None::<Movement>,
            }),
            final(self).cubes@[from@[0] as int].constraint == winners_constraint(
                old(self).cubes@,
                from@,
                kind,
            ),
            (match spec_combined(winners_motions(old(self).cubes@, from@, kind)) {
                Some(m) => final(self).cubes@[from@[0] as int].motion.is_loop == m.is_loop
                    && final(self).cubes@[from@[0] as int].motion.movements@ == m.movements@,
                None => final(self).cubes@[from@[0] as int].motion.spec_idle(),
            }),
    {
        let ghost olds = self.cubes@;
        let gn = from.len();

        // unanimous movement among the winning-kind members
        let mut agreement = Agreement::new();
        for k in 0..gn
            invariant
                gn == from@.len(),
                self.cubes@ == olds,
                forall|k0: int| 0 <= k0 < from@.len() ==> #[trigger] from@[k0] < olds.len(),
                agreement.wf(),
                agreement.submitted() == winners_movements(
                    olds,
                    from@.subrange(0, k as int),
                    kind,
                ),
        {
            let idx = from[k];
            let ghost pre = from@.subrange(0, k as int);
            if self.cubes[idx].kind == kind {
                agreement.submit(self.cubes[idx].movement);
            }
            proof {
                let cur = from@.subrange(0, k + 1 as int);
                assert(cur.drop_last() =~= pre);
                assert(cur.last() == from@[k as int]);
            }
        }
        proof {
            assert(from@.subrange(0, gn as int) =~= from@);
        }
        let movement = match agreement.result() {
            Some(v) => v,
            None => None,
        };

        // most restrictive constraint among the winning-kind members
        let mut constraint = Constraint::Free;
        for k in 0..gn
            invariant
                gn == from@.len(),
                self.cubes@ == olds,
                forall|k0: int| 0 <= k0 < from@.len() ==> #[trigger] from@[k0] < olds.len(),
                constraint == winners_constraint(olds, from@.subrange(0, k as int), kind),
        {
            let idx = from[k];
            let ghost pre = from@.subrange(0, k as int);
            if self.cubes[idx].kind == kind {
                constraint = constraint.max(self.cubes[idx].constraint);
            }
            proof {
                let cur = from@.subrange(0, k + 1 as int);
                assert(cur.drop_last() =~= pre);
                assert(cur.last() == from@[k as int]);
            }
        }

        // the winners' scripts, in member order
        let mut motions: Vec<Motion> = Vec::new();
        for k in 0..gn
            invariant
                gn == from@.len(),
                self.cubes@ == olds,
                forall|k0: int| 0 <= k0 < from@.len() ==> #[trigger] from@[k0] < olds.len(),
                motions_match(
                    motions@,
                    winners_motions(olds, from@.subrange(0, k as int), kind),
                ),
        {
            let idx = from[k];
            let ghost pre = from@.subrange(0, k as int);
            let ghost mpre = motions@;
            if self.cubes[idx].kind == kind {
                let sn = self.cubes[idx].motion.movements.len();
                let mut script: Vec<(Movement, usize)> = Vec::new();
                for t in 0..sn
                    invariant
                        gn == from@.len(),
                        self.cubes@ == olds,
                        idx == from@[k as int],
                        idx < olds.len(),
                        sn == olds[idx as int].motion.movements@.len(),
                        script@ == olds[idx as int].motion.movements@.subrange(0, t as int),
                {
                    script.push(self.cubes[idx].motion.movements[t]);
                    proof {
                        assert(script@ =~= olds[idx as int].motion.movements@.subrange(
                            0,
                            t + 1 as int,
                        ));
                    }
                }
                proof {
                    assert(olds[idx as int].motion.movements@.subrange(0, sn as int) =~= olds[
                        idx as int].motion.movements@);
                }
                motions.push(Motion { is_loop: self.cubes[idx].motion.is_loop, movements: script });
            }
            proof {
                let cur = from@.subrange(0, k + 1 as int);
                assert(cur.drop_last() =~= pre);
                assert(cur.last() == from@[k as int]);
                let target = winners_motions(olds, cur, kind);
                assert forall|j: int|
                    0 <= j < motions@.len() implies (#[trigger] motions@[j]).is_loop == target[
                    j].is_loop && motions@[j].movements@ == target[j].movements@ by {
                    if olds[from@[k as int] as int].kind == kind {
                        if j < mpre.len() {
                            assert(motions@[j] == mpre[j]);
                        }
                    }
                }
            }
        }
        let motion = Motion::combine(&motions);

        // every member's units, in member order
        let mut merged_units: Vec<Unit> = Vec::new();
        for k in 0..gn
            invariant
                gn == from@.len(),
                self.cubes@ == olds,
                forall|k0: int| 0 <= k0 < from@.len() ==> #[trigger] from@[k0] < olds.len(),
                merged_units@ == concat_units(olds, from@.subrange(0, k as int)),
        {
            let idx = from[k];
            let ghost pre = from@.subrange(0, k as int);
            let un = self.cubes[idx].units.len();
            for t in 0..un
                invariant
                    gn == from@.len(),
                    self.cubes@ == olds,
                    idx == from@[k as int],
                    idx < olds.len(),
                    un == olds[idx as int].units@.len(),
                    merged_units@ == concat_units(olds, pre) + olds[idx as int].units@.subrange(
                        0,
                        t as int,
                    ),
            {
                merged_units.push(self.cubes[idx].units[t]);
                proof {
                    assert(merged_units@ =~= concat_units(olds, pre) + olds[
                        idx as int].units@.subrange(0, t + 1 as int));
                }
            }
            proof {
                let cur = from@.subrange(0, k + 1 as int);
                assert(cur.drop_last() =~= pre);
                assert(cur.last() == from@[k as int]);
                assert(olds[idx as int].units@.subrange(0, un as int) =~= olds[
                    idx as int].units@);
                assert(merged_units@ =~= concat_units(olds, cur));
            }
        }
        proof {
            assert(from@.subrange(0, 0) =~= Seq::<usize>::empty());
            assert(concat_units(olds, from@.subrange(0, 0)) =~= Seq::<Unit>::empty());
            assert(from@.subrange(0, gn as int) =~= from@);
            lemma_concat_units_props(olds, from@);
        }

        // recompute every unit's neighborhood against the merged footprint
        let mut body: Vec<Point> = Vec::new();
        let mn = merged_units.len();
        for t in 0..mn
            invariant
                mn == merged_units@.len(),
                body@ == positions_of(merged_units@).subrange(0, t as int),
        {
            body.push(merged_units[t].position);
            proof {
                assert(body@ =~= positions_of(merged_units@).subrange(0, t + 1 as int));
            }
        }
        proof {
            assert(positions_of(merged_units@).subrange(0, mn as int) =~= positions_of(
                merged_units@,
            ));
        }
        let table = PointSet::new(&body);
        let ghost before_fix = merged_units@;
        for t in 0..mn
            invariant
                mn == merged_units@.len(),
                before_fix.len() == mn,
                units_ok(before_fix),
                forall|j: int|
                    0 <= j < mn ==> (#[trigger] merged_units@[j]).position == before_fix[
                    j].position && merged_units@[j].index == before_fix[j].index,
                forall|p: Point| table.spec_contains(p) <==> positions_of(before_fix).contains(p),
                forall|j: int, a: crate::neighborhood::Adjacence|
                    #![trigger merged_units@[j].neighborhood.spec_has(a)]
                    0 <= j < t ==> (merged_units@[j].neighborhood.spec_has(a)
                        <==> positions_of(before_fix).contains(
                        spec_near(merged_units@[j].position, a),
                    )),
        {
            let p = merged_units[t].position;
            proof {
                assert(coord_ok(before_fix[t as int].position));
            }
            let nb = table.neighborhood(p);
            merged_units[t].neighborhood = nb;
        }
        proof {
            assert(positions_of(merged_units@) =~= positions_of(before_fix));
            assert(units_consistent(merged_units@)) by {
                assert forall|j: int, a: crate::neighborhood::Adjacence|
                    #![trigger merged_units@[j].neighborhood.spec_has(a)]
                    0 <= j < merged_units@.len() implies (merged_units@[
                j].neighborhood.spec_has(a) <==> footprint(merged_units@).contains(
                    spec_near(merged_units@[j].position, a),
                )) by {
                    lemma_footprint_positions(merged_units@, spec_near(
                        merged_units@[j].position,
                        a,
                    ));
                }
            }
            assert(units_ok(merged_units@)) by {
                assert forall|j: int| 0 <= j < merged_units@.len() implies coord_ok(
                    (#[trigger] merged_units@[j]).position,
                ) by {
                    assert(merged_units@[j].position == before_fix[j].position);
                }
            }
            assert(units_distinct(merged_units@)) by {
                assert forall|k1: int, k2: int|
                    #![trigger merged_units@[k1].position, merged_units@[k2].position]
                    0 <= k1 < k2 < merged_units@.len() implies merged_units@[k1].position
                    != merged_units@[k2].position by {
                    assert(before_fix[k1].position != before_fix[k2].position);
                }
            }
            assert forall|p: Point|
                #[trigger] footprint(merged_units@).contains(p) <==> group_occupies(
                olds,
                from@,
                p,
            ) by {
                lemma_footprint_positions(merged_units@, p);
                lemma_footprint_positions(before_fix, p);
            }
        }
        let outlines = Outlines::new(&merged_units);
        let ghost merged_units_snap = merged_units@;
        let merged = Cube {
            kind,
            units: merged_units,
            motion,
            outlines,
            balanced: false,
            movement,
            constraint,
        };

        // leave every non-first member as an empty stub
        let mut k: usize = 1;
        while k < gn
            invariant
                gn == from@.len(),
                1 <= k <= gn,
                self.area == old(self).area,
                self.cubes@.len() == olds.len(),
                forall|k0: int| 0 <= k0 < from@.len() ==> #[trigger] from@[k0] < olds.len(),
                forall|k1: int, k2: int|
                    #![trigger from@[k1], from@[k2]]
                    0 <= k1 < k2 < from@.len() ==> from@[k1] != from@[k2],
                forall|j: int|
                    0 <= j < olds.len() && !group_holds(from@.subrange(1, k as int), j)
                        ==> #[trigger] self.cubes@[j] == olds[j],
                forall|k0: int|
                    1 <= k0 < k ==> (#[trigger] self.cubes@[from@[k0] as int]).units@.len() == 0
                        && self.cubes@[from@[k0] as int].wf() && self.cubes@[
                    from@[k0] as int].kind == olds[from@[k0] as int].kind,
            decreases gn - k,
        {
            let idx = from[k];
            let ghost snap = self.cubes@;
            self.cubes[idx].units = Vec::new();
            self.cubes[idx].outlines = Outlines::new(&Vec::new());
            proof {
                assert forall|j: int|
                    0 <= j < olds.len() && !group_holds(from@.subrange(1, k + 1 as int), j)
                        implies #[trigger] self.cubes@[j] == olds[j] by {
                    assert(j != idx as int) by {
                        if j == idx as int {
                            assert(from@.subrange(1, k + 1 as int)[k - 1] == from@[k as int]);
                        }
                    }
                    assert(self.cubes@[j] == snap[j]);
                    assert(!group_holds(from@.subrange(1, k as int), j)) by {
                        if group_holds(from@.subrange(1, k as int), j) {
                            let k0 = choose|k0: int|
                                0 <= k0 < from@.subrange(1, k as int).len()
                                    && #[trigger] from@.subrange(1, k as int)[k0] as int == j;
                            assert(from@.subrange(1, k + 1 as int)[k0] as int == j);
                        }
                    }
                }
                assert forall|k0: int|
                    1 <= k0 < k + 1 implies (#[trigger] self.cubes@[
                from@[k0] as int]).units@.len() == 0 && self.cubes@[from@[k0] as int].wf()
                    && self.cubes@[from@[k0] as int].kind == olds[from@[k0] as int].kind by {
                    if k0 < k {
                        assert(from@[k0] != from@[k as int]);
                        assert(self.cubes@[from@[k0] as int] == snap[from@[k0] as int]);
                    } else {
                        assert(snap[idx as int].kind == olds[idx as int].kind) by {
                            assert(!group_holds(from@.subrange(1, k as int), idx as int)) by {
                                if group_holds(from@.subrange(1, k as int), idx as int) {
                                    let k1 = choose|k1: int|
                                        0 <= k1 < from@.subrange(1, k as int).len()
                                            && #[trigger] from@.subrange(1, k as int)[k1] as int
                                            == idx as int;
                                    assert(from@[k1 + 1] == from@[k as int]);
                                }
                            }
                        }
                    }
                }
            }
            k = k + 1;
        }
        let g0 = from[0];
        proof {
            assert(!group_holds(from@.subrange(1, gn as int), g0 as int)) by {
                if group_holds(from@.subrange(1, gn as int), g0 as int) {
                    let k0 = choose|k0: int|
                        0 <= k0 < from@.subrange(1, gn as int).len() && #[trigger] from@.subrange(
                            1,
                            gn as int,
                        )[k0] as int == g0 as int;
                    assert(from@[k0 + 1] == from@[0]);
                }
            }
            assert(self.cubes@[g0 as int] == olds[g0 as int]);
        }
        let ghost before_write = self.cubes@;
        self.cubes[g0] = merged;
        proof {
            let news = self.cubes@;
            assert(news[g0 as int].units@ == merged_units_snap);
            lemma_combined_match(motions@, winners_motions(olds, from@, kind));
            assert(positions_of(news[g0 as int].units@) =~= positions_of(
                concat_units(olds, from@),
            ));
            assert forall|q: Point|
                #[trigger] footprint(news[g0 as int].units@).contains(q) <==> group_occupies(
                olds,
                from@,
                q,
            ) by {}
            // untouched cubes
            assert forall|j: int|
                0 <= j < olds.len() && !group_holds(from@, j) implies #[trigger] news[j]
                    == olds[j] by {
                assert(j != g0 as int) by {
                    if j == g0 as int {
                        assert(from@[0] as int == j);
                    }
                }
                assert(news[j] == before_write[j]);
                assert(!group_holds(from@.subrange(1, gn as int), j)) by {
                    if group_holds(from@.subrange(1, gn as int), j) {
                        let k0 = choose|k0: int|
                            0 <= k0 < from@.subrange(1, gn as int).len()
                                && #[trigger] from@.subrange(1, gn as int)[k0] as int == j;
                        assert(from@[k0 + 1] as int == j);
                    }
                }
            }
            // stubs stay empty and keep their kind
            assert forall|k0: int|
                1 <= k0 < from@.len() implies !(news[#[trigger] from@[k0] as int]).spec_alive()
                    && news[from@[k0] as int].kind == olds[from@[k0] as int].kind by {
                assert(from@[k0] != from@[0]);
                assert(news[from@[k0] as int] == before_write[from@[k0] as int]);
            }
            // geometry: every cube well formed
            assert forall|i: int| 0 <= i < news.len() implies (#[trigger] news[i]).wf() by {
                if i == g0 as int {
                } else if group_holds(from@.subrange(1, gn as int), i) {
                    assert(news[i] == before_write[i]);
                    let k0 = choose|k0: int|
                        0 <= k0 < from@.subrange(1, gn as int).len() && #[trigger] from@.subrange(
                            1,
                            gn as int,
                        )[k0] as int == i;
                    assert(before_write[from@[k0 + 1] as int].wf());
                } else {
                    assert(news[i] == olds[i]) by {
                        assert(!group_holds(from@, i)) by {
                            if group_holds(from@, i) {
                                let k0 = choose|k0: int|
                                    0 <= k0 < from@.len() && #[trigger] from@[k0] as int == i;
                                assert(k0 == 0 ==> i == g0 as int);
                                if k0 > 0 {
                                    assert(from@.subrange(1, gn as int)[k0 - 1] as int == i);
                                }
                            }
                        }
                    }
                }
            }
            // geometry: disjoint footprints and clear of the static area
            assert forall|i1: int, i2: int, p: Point|
                #![trigger footprint(news[i1].units@).contains(p), footprint(news[i2].units@).contains(p)]
                0 <= i1 < news.len() && 0 <= i2 < news.len() && footprint(
                    news[i1].units@,
                ).contains(p) && footprint(news[i2].units@).contains(p) implies i1 == i2 by {
                lemma_link_owner(olds, from@, news, g0, i1, p);
                lemma_link_owner(olds, from@, news, g0, i2, p);
                if i1 == g0 as int && i2 != g0 as int {
                    let k = choose|k: int|
                        0 <= k < from@.len() && footprint(
                            olds[#[trigger] from@[k] as int].units@,
                        ).contains(p);
                    assert(footprint(olds[i2].units@).contains(p));
                    assert(from@[k] as int == i2);
                    assert(group_holds(from@, i2));
                    assert(false);
                } else if i2 == g0 as int && i1 != g0 as int {
                    let k = choose|k: int|
                        0 <= k < from@.len() && footprint(
                            olds[#[trigger] from@[k] as int].units@,
                        ).contains(p);
                    assert(footprint(olds[i1].units@).contains(p));
                    assert(from@[k] as int == i1);
                    assert(group_holds(from@, i1));
                    assert(false);
                } else if i1 != g0 as int && i2 != g0 as int {
                    assert(footprint(olds[i1].units@).contains(p));
                    assert(footprint(olds[i2].units@).contains(p));
                }
            }
            assert forall|i: int, p: Point|
                #![trigger footprint(news[i].units@).contains(p)]
                0 <= i < news.len() && footprint(news[i].units@).contains(p)
                    implies !self.area.spec_blocked(p) by {
                lemma_link_owner(olds, from@, news, g0, i, p);
                if i == g0 as int {
                    let k = choose|k: int|
                        0 <= k < from@.len() && footprint(
                            olds[#[trigger] from@[k] as int].units@,
                        ).contains(p);
                    assert(footprint(olds[from@[k] as int].units@).contains(p));
                } else {
                    assert(footprint(olds[i].units@).contains(p));
                }
            }
            // occupancy is preserved
            assert forall|p: Point| occupied(news, p) <==> occupied(olds, p) by {
                if occupied(news, p) {
                    let i = choose|i: int| #[trigger] cube_at(news, i, p);
                    lemma_link_owner(olds, from@, news, g0, i, p);
                }
                if occupied(olds, p) {
                    let i = choose|i: int| #[trigger] cube_at(olds, i, p);
                    if group_holds(from@, i) {
                        let k0 = choose|k0: int|
                            0 <= k0 < from@.len() && #[trigger] from@[k0] as int == i;
                        assert(group_occupies(olds, from@, p));
                        assert(cube_at(news, g0 as int, p));
                    } else {
                        assert(news[i] == olds[i]);
                        assert(cube_at(news, i, p));
                    }
                }
            }
        }
    }
}

/// How many flags of the list are set.
pub open spec fn count_true(s: Seq<bool>) -> int
    decreases s.len(),
{
    if s.len() == 0 {
        0
    } else {
        count_true(s.drop_last()) + if s.last() {
            1int
        } else {
            0int
        }
    }
}

/// The count never exceeds the length.
proof fn lemma_count_true_bound(s: Seq<bool>)
    ensures
        0 <= count_true(s) <= s.len(),
    decreases s.len(),
{
    if s.len() > 0 {
        lemma_count_true_bound(s.drop_last());
    }
}

/// A clear flag keeps the count strictly below the length.
proof fn lemma_count_true_lt(s: Seq<bool>, i: int)
    requires
        0 <= i < s.len(),
        !s[i],
    ensures
        0 <= count_true(s) < s.len(),
    decreases s.len(),
{
    lemma_count_true_bound(s);
    if i == s.len() - 1 {
        lemma_count_true_bound(s.drop_last());
    } else {
        lemma_count_true_lt(s.drop_last(), i);
    }
}

/// Setting one flag raises the count by one if it was clear.
proof fn lemma_count_true_set(s: Seq<bool>, i: int)
    requires
        0 <= i < s.len(),
    ensures
        count_true(s.update(i, true)) == count_true(s) + if s[i] {
            0int
        } else {
            1int
        },
    decreases s.len(),
{
    let s2 = s.update(i, true);
    if i == s.len() - 1 {
        assert(s2.drop_last() =~= s.drop_last());
    } else {
        assert(s2.drop_last() =~= s.drop_last().update(i, true));
        lemma_count_true_set(s.drop_last(), i);
    }
}

/// With disjoint cubes, at most one cube owns any point.
proof fn lemma_one_owner(cubes: Seq<Cube>, j: int, p: Point)
    requires
        crate::faction::cubes_disjoint(cubes),
        cube_at(cubes, j, p),
    ensures
        forall|j2: int| #[trigger] cube_at(cubes, j2, p) ==> j2 == j,
{
    assert forall|j2: int| #[trigger] cube_at(cubes, j2, p) implies j2 == j by {
        assert(footprint(cubes[j].units@).contains(p));
        assert(footprint(cubes[j2].units@).contains(p));
    }
}

/// After a merge, a point of any new cube was occupied by some old cube;
/// a point of the merged cube by a group member, a point of an untouched
/// cube by that same cube.
proof fn lemma_link_owner(
    olds: Seq<Cube>,
    from: Seq<usize>,
    news: Seq<Cube>,
    g0: usize,
    i: int,
    p: Point,
)
    requires
        news.len() == olds.len(),
        from.len() > 0,
        from[0] == g0,
        forall|k: int| 0 <= k < from.len() ==> #[trigger] from[k] < olds.len(),
        forall|j: int|
            0 <= j < olds.len() && !group_holds(from, j) ==> #[trigger] news[j] == olds[j],
        forall|k: int|
            1 <= k < from.len() ==> !(news[#[trigger] from[k] as int]).spec_alive(),
        forall|q: Point|
            #[trigger] footprint(news[g0 as int].units@).contains(q) <==> group_occupies(
                olds,
                from,
                q,
            ),
        0 <= i < news.len(),
        footprint(news[i].units@).contains(p),
    ensures
        exists|o: int| #[trigger] cube_at(olds, o, p),
        i == g0 as int ==> group_occupies(olds, from, p),
        i != g0 as int ==> cube_at(olds, i, p) && news[i] == olds[i] && !group_holds(from, i),
{
    if i == g0 as int {
        assert(group_occupies(olds, from, p));
        let k = choose|k: int|
            0 <= k < from.len() && footprint(olds[#[trigger] from[k] as int].units@).contains(p);
        assert(cube_at(olds, from[k] as int, p));
    } else {
        if group_holds(from, i) {
            let k0 = choose|k0: int| 0 <= k0 < from.len() && #[trigger] from[k0] as int == i;
            if k0 == 0 {
                assert(i == g0 as int);
            } else {
                assert(!news[from[k0] as int].spec_alive());
                assert(footprint(news[i].units@).contains(p));
                let t = choose|t: int|
                    0 <= t < news[i].units@.len() && (#[trigger] news[i].units@[t]).position == p;
            }
            assert(false);
        }
        assert(news[i] == olds[i]);
        assert(cube_at(olds, i, p));
    }
}

} // verus!
