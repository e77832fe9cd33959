//! Boundary geometry of a cube: the cells just outside its footprint,
//! listed per cardinal direction.

use vstd::prelude::*;
use crate::movement::Movement;
use crate::neighborhood::{Adjacence, Neighborhood, spec_near};
use crate::point::{COORD_LIMIT, Point, coord_ok};

verus! {

/// One occupied grid cell of a cube: its unit handle, its position, and
/// which of its eight neighbors belong to the same cube.
#[derive(Clone, Copy, Debug, PartialEq, Eq, Structural)]
pub struct Unit {
    pub index: usize,
    pub position: Point,
    pub neighborhood: Neighborhood,
}

/// The adjacence flag a cardinal movement direction probes.
pub open spec fn adj_of(m: Movement) -> Adjacence {
    match m {
        Movement::Left => Adjacence::Left,
        Movement::Down => Adjacence::Bottom,
        Movement::Up => Adjacence::Top,
        Movement::Right => Adjacence::Right,
    }
}

pub fn adj_of_exec(m: Movement) -> (r: Adjacence)
    ensures
        r == adj_of(m),
{
    match m {
        Movement::Left => Adjacence::Left,
        Movement::Down => Adjacence::Bottom,
        Movement::Up => Adjacence::Top,
        Movement::Right => Adjacence::Right,
    }
}

/// Every unit's position lies within the coordinate bound.
pub open spec fn units_ok(units: Seq<Unit>) -> bool {
    forall|k: int| 0 <= k < units.len() ==> coord_ok(#[trigger] units[k].position)
}

/// The reference position offsets are expressed against: the first unit's
/// position, or the origin for an empty unit list.
pub open spec fn spec_anchor(units: Seq<Unit>) -> Point {
    if units.len() == 0 {
        Point { x: 0i32, y: 0i32 }
    } else {
        units[0].position
    }
}

/// The point one step from `p` in direction `m`.
pub open spec fn spec_step(p: Point, m: Movement) -> Point {
    Point {
        x: (p.x + m.spec_offset().x) as i32,
        y: (p.y + m.spec_offset().y) as i32,
    }
}

/// The stored offset for unit `u`: anchor minus the cell just outside `u`
/// in direction `m`.
pub open spec fn spec_off(first: Point, u: Unit, m: Movement) -> Point {
    Point {
        x: (first.x - u.position.x - m.spec_offset().x) as i32,
        y: (first.y - u.position.y - m.spec_offset().y) as i32,
    }
}

/// The offsets recorded for direction `m`: one entry per unit whose
/// neighborhood lacks a same-cube neighbor on that side, in unit order.
pub open spec fn spec_offsets(units: Seq<Unit>, first: Point, m: Movement) -> Seq<Point>
    decreases units.len(),
{
    if units.len() == 0 {
        Seq::empty()
    } else {
        let rest = spec_offsets(units.drop_last(), first, m);
        let u = units.last();
        if u.neighborhood.spec_has(adj_of(m)) {
            rest
        } else {
            rest.push(spec_off(first, u, m))
        }
    }
}

/// The boundary points for direction `m`, anchored at `anchor`: for every
/// unit open on that side, the adjacent cell one step outside it,
/// translated so the first unit sits at `anchor`.
pub open spec fn spec_outline(units: Seq<Unit>, anchor: Point, m: Movement) -> Seq<Point> {
    spec_offsets(units, spec_anchor(units), m).map_values(
        |o: Point|
            Point { x: (anchor.x - o.x) as i32, y: (anchor.y - o.y) as i32 },
    )
}

/// The full boundary: the four cardinal outlines concatenated in the order
/// Left, Down, Up, Right.
pub open spec fn spec_outline_all(units: Seq<Unit>, anchor: Point) -> Seq<Point> {
    spec_outline(units, anchor, Movement::Left) + spec_outline(units, anchor, Movement::Down)
        + spec_outline(units, anchor, Movement::Up) + spec_outline(units, anchor, Movement::Right)
}

/// Cached boundary geometry of one unit list: the four per-direction
/// offset lists concatenated into one contiguous buffer, with prefix-sum
/// boundaries so each direction is a slice of it.
pub struct Outlines {
    count: [usize; 3],
    slice: Vec<Point>,
    src: Ghost<Seq<Unit>>,
}

impl Outlines {
    /// The unit list this boundary was computed from.
    pub closed spec fn src(self) -> Seq<Unit> {
        self.src@
    }

    pub closed spec fn wf(self) -> bool {
        let u = self.src@;
        let first = spec_anchor(u);
        &&& units_ok(u)
        &&& coord_ok(first)
        &&& self.count[0] <= self.count[1] <= self.count[2] <= self.slice@.len()
        &&& self.slice@.subrange(0, self.count[0] as int) == spec_offsets(u, first, Movement::Left)
        &&& self.slice@.subrange(self.count[0] as int, self.count[1] as int) == spec_offsets(
            u,
            first,
            Movement::Down,
        )
        &&& self.slice@.subrange(self.count[1] as int, self.count[2] as int) == spec_offsets(
            u,
            first,
            Movement::Up,
        )
        &&& self.slice@.subrange(self.count[2] as int, self.slice@.len() as int) == spec_offsets(
            u,
            first,
            Movement::Right,
        )
        &&& forall|k: int|
            0 <= k < self.slice@.len()
                ==> -(2 * COORD_LIMIT + 1) <= (#[trigger] self.slice@[k]).x <= 2 * COORD_LIMIT + 1
                    && -(2 * COORD_LIMIT + 1) <= self.slice@[k].y <= 2 * COORD_LIMIT + 1
    }

    /// The anchor of a unit list: its first unit's position, or the origin.
    pub fn anchor(units: &Vec<Unit>) -> (r: Point)
        ensures
            r == spec_anchor(units@),
    {
        if units.len() == 0 {
            Point { x: 0, y: 0 }
        } else {
            units[0].position
        }
    }

    /// Compute the boundary of `units` wholesale.
    pub fn new(units: &Vec<Unit>) -> (r: Outlines)
        requires
            units_ok(units@),
        ensures
            r.wf(),
            r.src() == units@,
    {
        let first = Outlines::anchor(units);
        let mut slice = offsets_for(units, first, Movement::Left);
        let c0 = slice.len();
        let mut seg = offsets_for(units, first, Movement::Down);
        slice.append(&mut seg);
        let c1 = slice.len();
        let mut seg = offsets_for(units, first, Movement::Up);
        slice.append(&mut seg);
        let c2 = slice.len();
        let mut seg = offsets_for(units, first, Movement::Right);
        slice.append(&mut seg);
        let r = Outlines { count: [c0, c1, c2], slice, src: Ghost(units@) };
        proof {
            let u = units@;
            let fl = spec_offsets(u, first, Movement::Left);
            let fd = spec_offsets(u, first, Movement::Down);
            let fu = spec_offsets(u, first, Movement::Up);
            let fr = spec_offsets(u, first, Movement::Right);
            assert(r.slice@ == fl + fd + fu + fr);
            assert(r.slice@.subrange(0, c0 as int) =~= fl);
            assert(r.slice@.subrange(c0 as int, c1 as int) =~= fd);
            assert(r.slice@.subrange(c1 as int, c2 as int) =~= fu);
            assert(r.slice@.subrange(c2 as int, r.slice@.len() as int) =~= fr);
            lemma_offsets_bounded(u, first, Movement::Left);
            lemma_offsets_bounded(u, first, Movement::Down);
            lemma_offsets_bounded(u, first, Movement::Up);
            lemma_offsets_bounded(u, first, Movement::Right);
        }
        r
    }

    /// The boundary points on the side a movement in direction `m` leads
    /// with, anchored at `anchor`.
    pub fn one(&self, anchor: Point, m: Movement) -> (r: Vec<Point>)
        requires
            self.wf(),
            coord_ok(anchor),
        ensures
            r@ == spec_outline(self.src(), anchor, m),
    {
        let (lo, hi): (usize, usize) = match m {
            Movement::Left => (0, self.count[0]),
            Movement::Down => (self.count[0], self.count[1]),
            Movement::Up => (self.count[1], self.count[2]),
            Movement::Right => (self.count[2], self.slice.len()),
        };
        let ghost seg = spec_offsets(self.src@, spec_anchor(self.src@), m);
        proof {
            assert(self.slice@.subrange(lo as int, hi as int) == seg);
        }
        let mut r: Vec<Point> = Vec::new();
        let mut k = lo;
        while k < hi
            invariant
                lo <= k <= hi <= self.slice@.len(),
                coord_ok(anchor),
                self.wf(),
                self.slice@.subrange(lo as int, hi as int) == seg,
                r@ == seg.subrange(0, k - lo as int).map_values(
                    |o: Point|
                        Point { x: (anchor.x - o.x) as i32, y: (anchor.y - o.y) as i32 },
                ),
            decreases hi - k,
        {
            let o = self.slice[k];
            proof {
                assert(seg[k - lo as int] == self.slice@[k as int]);
            }
            r.push(anchor.minus(o));
            proof {
                assert(r@ =~= seg.subrange(0, k + 1 - lo as int).map_values(
                    |o: Point|
                        Point { x: (anchor.x - o.x) as i32, y: (anchor.y - o.y) as i32 },
                ));
            }
            k = k + 1;
        }
        proof {
            assert(seg.subrange(0, hi - lo as int) =~= seg);
        }
        r
    }

    /// The full boundary, anchored at `anchor`: the four cardinal sides
    /// concatenated in the order Left, Down, Up, Right.
    pub fn all(&self, anchor: Point) -> (r: Vec<Point>)
        requires
            self.wf(),
            coord_ok(anchor),
        ensures
            r@ == spec_outline_all(self.src(), anchor),
    {
        let mut r = self.one(anchor, Movement::Left);
        let mut seg = self.one(anchor, Movement::Down);
        r.append(&mut seg);
        let mut seg = self.one(anchor, Movement::Up);
        r.append(&mut seg);
        let mut seg = self.one(anchor, Movement::Right);
        r.append(&mut seg);
        r
    }
}

/// The offsets recorded for one direction, in unit order.
fn offsets_for(units: &Vec<Unit>, first: Point, m: Movement) -> (r: Vec<Point>)
    requires
        units_ok(units@),
        coord_ok(first),
    ensures
        r@ == spec_offsets(units@, first, m),
{
    let adj = adj_of_exec(m);
    let mut r: Vec<Point> = Vec::new();
    let n = units.len();
    for k in 0..n
        invariant
            n == units@.len(),
            units_ok(units@),
            coord_ok(first),
            adj == adj_of(m),
            r@ == spec_offsets(units@.subrange(0, k as int), first, m),
    {
        let u = units[k];
        if !u.neighborhood.has(adj) {
            let o = first.minus(u.position).minus(m.offset());
            r.push(o);
        }
        proof {
            let pre = units@.subrange(0, k + 1 as int);
            assert(pre.drop_last() =~= units@.subrange(0, k as int));
            assert(pre.last() == units@[k as int]);
        }
    }
    proof {
        assert(units@.subrange(0, n as int) =~= units@);
    }
    r
}

/// No two units of one cube occupy the same cell.
pub open spec fn units_distinct(units: Seq<Unit>) -> bool {
    forall|k1: int, k2: int|
        #![trigger units[k1].position, units[k2].position]
        0 <= k1 < k2 < units.len() ==> units[k1].position != units[k2].position
}

/// The set of cells a unit list occupies.
pub open spec fn footprint(units: Seq<Unit>) -> Set<Point> {
    Set::new(|p: Point| exists|k: int| 0 <= k < units.len() && (#[trigger] units[k]).position == p)
}

/// Every unit's neighborhood flags agree with the occupied footprint: a
/// flag is on exactly when the neighbor cell on that side is occupied.
pub open spec fn units_consistent(units: Seq<Unit>) -> bool {
    forall|k: int, a: Adjacence|
        #![trigger units[k].neighborhood.spec_has(a)]
        0 <= k < units.len()
            ==> (units[k].neighborhood.spec_has(a) <==> footprint(units).contains(
                spec_near(units[k].position, a),
            ))
}

/// The cells one step outside `s` in direction `m`: reachable from an
/// occupied cell, themselves unoccupied.
pub open spec fn boundary_set(s: Set<Point>, m: Movement) -> Set<Point> {
    Set::new(
        |p: Point|
            !s.contains(p) && exists|q: Point| s.contains(q) && p == #[trigger] spec_step(q, m),
    )
}

/// An empty unit list has an empty outline in every direction.
pub proof fn lemma_outline_empty(anchor: Point, m: Movement)
    ensures
        spec_outline(Seq::<Unit>::empty(), anchor, m) =~= Seq::<Point>::empty(),
        spec_outline_all(Seq::<Unit>::empty(), anchor) =~= Seq::<Point>::empty(),
{
}

/// A single isolated unit (no neighbors of its own cube) has exactly one
/// outline point per direction: the cell one step outside it on that side.
pub proof fn lemma_outline_single(u: Unit, m: Movement)
    requires
        coord_ok(u.position),
        forall|a: Adjacence| !u.neighborhood.spec_has(a),
    ensures
        spec_outline(seq![u], u.position, m) =~= seq![spec_step(u.position, m)],
{
    let units = seq![u];
    assert(units.drop_last() =~= Seq::<Unit>::empty());
    assert(spec_offsets(units.drop_last(), u.position, m) =~= Seq::<Point>::empty());
    assert(units.last() == u);
    assert(spec_offsets(units, u.position, m) =~= Seq::<Point>::empty().push(
        spec_off(u.position, u, m),
    ));
}

/// For cardinal directions, the adjacence probe and the movement step land
/// on the same neighbor cell.
pub proof fn lemma_adj_step_agree(p: Point, m: Movement)
    ensures
        spec_near(p, adj_of(m)) == spec_step(p, m),
{
}

/// Which points an outline holds: one step outside each unit that is open
/// on the probed side.
pub proof fn lemma_outline_membership(units: Seq<Unit>, m: Movement, p: Point)
    requires
        units_ok(units),
    ensures
        spec_outline(units, spec_anchor(units), m).contains(p)
            <==> exists|k: int|
                0 <= k < units.len() && !(#[trigger] units[k]).neighborhood.spec_has(adj_of(m))
                    && p == spec_step(units[k].position, m),
{
    let first = spec_anchor(units);
    let offs = spec_offsets(units, first, m);
    let outline = spec_outline(units, first, m);
    lemma_offsets_membership(units, first, m);
    if units.len() > 0 {
        assert(coord_ok(first)) by {
            assert(units[0].position == first);
        }
    }
    if outline.contains(p) {
        let j = choose|j: int| 0 <= j < outline.len() && outline[j] == p;
        assert(outline.len() == offs.len());
        let o = offs[j];
        assert(offs.contains(o));
        let k = choose|k: int|
            0 <= k < units.len() && !(#[trigger] units[k]).neighborhood.spec_has(adj_of(m))
                && o == spec_off(first, units[k], m);
        assert(coord_ok(units[k].position));
        assert(p == Point { x: (first.x - o.x) as i32, y: (first.y - o.y) as i32 });
        assert(p == spec_step(units[k].position, m));
    }
    if exists|k: int|
        0 <= k < units.len() && !(#[trigger] units[k]).neighborhood.spec_has(adj_of(m)) && p
            == spec_step(units[k].position, m) {
        let k = choose|k: int|
            0 <= k < units.len() && !(#[trigger] units[k]).neighborhood.spec_has(adj_of(m)) && p
                == spec_step(units[k].position, m);
        let o = spec_off(first, units[k], m);
        assert(offs.contains(o));
        let j = choose|j: int| 0 <= j < offs.len() && offs[j] == o;
        assert(coord_ok(units[k].position));
        assert(outline[j] == p);
        assert(outline.contains(p));
    }
}

/// Which offsets the recorded list holds.
proof fn lemma_offsets_membership(units: Seq<Unit>, first: Point, m: Movement)
    ensures
        forall|o: Point|
            spec_offsets(units, first, m).contains(o)
                <==> exists|k: int|
                    0 <= k < units.len() && !(#[trigger] units[k]).neighborhood.spec_has(adj_of(m))
                        && o == spec_off(first, units[k], m),
    decreases units.len(),
{
    if units.len() > 0 {
        let rest = units.drop_last();
        let u = units.last();
        lemma_offsets_membership(rest, first, m);
        let whole = spec_offsets(units, first, m);
        let prev = spec_offsets(rest, first, m);
        assert forall|o: Point|
            whole.contains(o) <==> exists|k: int|
                0 <= k < units.len() && !(#[trigger] units[k]).neighborhood.spec_has(adj_of(m)) && o
                    == spec_off(first, units[k], m) by {
            if u.neighborhood.spec_has(adj_of(m)) {
                assert(whole == prev);
                if whole.contains(o) {
                    let k = choose|k: int|
                        0 <= k < rest.len() && !(#[trigger] rest[k]).neighborhood.spec_has(
                            adj_of(m),
                        ) && o == spec_off(first, rest[k], m);
                    assert(units[k] == rest[k]);
                }
                if exists|k: int|
                    0 <= k < units.len() && !(#[trigger] units[k]).neighborhood.spec_has(adj_of(m))
                        && o == spec_off(first, units[k], m) {
                    let k = choose|k: int|
                        0 <= k < units.len() && !(#[trigger] units[k]).neighborhood.spec_has(
                            adj_of(m),
                        ) && o == spec_off(first, units[k], m);
                    assert(k < rest.len() && rest[k] == units[k]);
                    assert(prev.contains(o));
                }
            } else {
                assert(whole == prev.push(spec_off(first, u, m)));
                if whole.contains(o) {
                    let j = choose|j: int| 0 <= j < whole.len() && whole[j] == o;
                    if j < prev.len() {
                        assert(prev[j] == o);
                        assert(prev.contains(o));
                        let k = choose|k: int|
                            0 <= k < rest.len() && !(#[trigger] rest[k]).neighborhood.spec_has(
                                adj_of(m),
                            ) && o == spec_off(first, rest[k], m);
                        assert(units[k] == rest[k]);
                    } else {
                        assert(o == spec_off(first, u, m));
                        assert(units[units.len() - 1] == u);
                    }
                }
                if exists|k: int|
                    0 <= k < units.len() && !(#[trigger] units[k]).neighborhood.spec_has(adj_of(m))
                        && o == spec_off(first, units[k], m) {
                    let k = choose|k: int|
                        0 <= k < units.len() && !(#[trigger] units[k]).neighborhood.spec_has(
                            adj_of(m),
                        ) && o == spec_off(first, units[k], m);
                    if k < rest.len() {
                        assert(rest[k] == units[k]);
                        assert(prev.contains(o));
                        let j = choose|j: int| 0 <= j < prev.len() && prev[j] == o;
                        assert(whole[j] == o);
                    } else {
                        assert(whole[whole.len() - 1] == o);
                    }
                    assert(whole.contains(o));
                }
            }
        }
    }
}

/// A consistent unit list's outline, taken as a set, is exactly the
/// boundary of its footprint on that side.
pub proof fn lemma_outline_is_boundary(units: Seq<Unit>, m: Movement)
    requires
        units_ok(units),
        units_consistent(units),
    ensures
        spec_outline(units, spec_anchor(units), m).to_set() =~= boundary_set(
            footprint(units),
            m,
        ),
{
    let f = footprint(units);
    let outline = spec_outline(units, spec_anchor(units), m);
    assert forall|p: Point| outline.to_set().contains(p) <==> boundary_set(f, m).contains(p) by {
        lemma_outline_membership(units, m, p);
        if outline.to_set().contains(p) {
            assert(outline.contains(p));
            let k = choose|k: int|
                0 <= k < units.len() && !(#[trigger] units[k]).neighborhood.spec_has(adj_of(m))
                    && p == spec_step(units[k].position, m);
            lemma_adj_step_agree(units[k].position, m);
            assert(f.contains(units[k].position));
            assert(!f.contains(p));
        }
        if boundary_set(f, m).contains(p) {
            let q = choose|q: Point| f.contains(q) && p == #[trigger] spec_step(q, m);
            let k = choose|k: int| 0 <= k < units.len() && (#[trigger] units[k]).position == q;
            lemma_adj_step_agree(q, m);
            assert(!units[k].neighborhood.spec_has(adj_of(m)));
            assert(outline.contains(p));
            assert(outline.to_set().contains(p));
        }
    }
}

/// Merging two footprints: the boundary of the union is the union of the
/// boundaries, minus the cells the merged footprint now occupies.
pub proof fn lemma_boundary_of_union(a: Set<Point>, b: Set<Point>, m: Movement)
    ensures
        boundary_set(a.union(b), m) =~= boundary_set(a, m).union(boundary_set(b, m)).difference(
            a.union(b),
        ),
{
    let u = a.union(b);
    assert forall|p: Point|
        boundary_set(u, m).contains(p) <==> boundary_set(a, m).union(
            boundary_set(b, m),
        ).difference(u).contains(p) by {
        if boundary_set(u, m).contains(p) {
            let q = choose|q: Point| u.contains(q) && p == #[trigger] spec_step(q, m);
            if a.contains(q) {
                assert(boundary_set(a, m).contains(p));
            } else {
                assert(boundary_set(b, m).contains(p));
            }
        }
    }
}

/// Merging unit lists only unions their footprints.
pub proof fn lemma_footprint_of_concat(a: Seq<Unit>, b: Seq<Unit>)
    ensures
        footprint(a + b) =~= footprint(a).union(footprint(b)),
{
    assert forall|p: Point|
        footprint(a + b).contains(p) <==> footprint(a).union(footprint(b)).contains(p) by {
        if footprint(a + b).contains(p) {
            let k = choose|k: int| 0 <= k < (a + b).len() && (#[trigger] (a + b)[k]).position == p;
            if k < a.len() {
                assert(a[k] == (a + b)[k]);
            } else {
                assert(b[k - a.len()] == (a + b)[k]);
            }
        }
        if footprint(a).contains(p) {
            let k = choose|k: int| 0 <= k < a.len() && (#[trigger] a[k]).position == p;
            assert((a + b)[k] == a[k]);
        }
        if footprint(b).contains(p) {
            let k = choose|k: int| 0 <= k < b.len() && (#[trigger] b[k]).position == p;
            assert((a + b)[k + a.len()] == b[k]);
        }
    }
}

/// Merging two cubes and recomputing the outline gives the union of the
/// members' outline points, minus the boundary points that now lie inside
/// the merged footprint.
pub proof fn lemma_outline_of_merge(a: Seq<Unit>, b: Seq<Unit>, merged: Seq<Unit>, m: Movement)
    requires
        units_ok(a),
        units_ok(b),
        units_ok(merged),
        units_consistent(a),
        units_consistent(b),
        units_consistent(merged),
        footprint(merged) == footprint(a).union(footprint(b)),
    ensures
        spec_outline(merged, spec_anchor(merged), m).to_set() =~= spec_outline(
            a,
            spec_anchor(a),
            m,
        ).to_set().union(spec_outline(b, spec_anchor(b), m).to_set()).difference(
            footprint(merged),
        ),
{
    lemma_outline_is_boundary(merged, m);
    lemma_outline_is_boundary(a, m);
    lemma_outline_is_boundary(b, m);
    lemma_boundary_of_union(footprint(a), footprint(b), m);
}

/// Recorded offsets stay within twice the coordinate bound plus one.
proof fn lemma_offsets_bounded(units: Seq<Unit>, first: Point, m: Movement)
    requires
        units_ok(units),
        coord_ok(first),
    ensures
        forall|k: int|
            0 <= k < spec_offsets(units, first, m).len()
                ==> -(2 * COORD_LIMIT + 1) <= (#[trigger] spec_offsets(units, first, m)[k]).x <= 2
                    * COORD_LIMIT + 1 && -(2 * COORD_LIMIT + 1) <= spec_offsets(units, first, m)[k].y
                    <= 2 * COORD_LIMIT + 1,
    decreases units.len(),
{
    if units.len() > 0 {
        let rest = spec_offsets(units.drop_last(), first, m);
        let u = units.last();
        assert(units_ok(units.drop_last()));
        lemma_offsets_bounded(units.drop_last(), first, m);
        assert(coord_ok(u.position));
        if u.neighborhood.spec_has(adj_of(m)) {
            assert(spec_offsets(units, first, m) == rest);
        } else {
            let whole = spec_offsets(units, first, m);
            assert(whole == rest.push(spec_off(first, u, m)));
            assert forall|k: int|
                0 <= k < whole.len() implies -(2 * COORD_LIMIT + 1) <= (
            #[trigger] whole[k]).x <= 2 * COORD_LIMIT + 1 && -(2 * COORD_LIMIT + 1) <= whole[k].y
                <= 2 * COORD_LIMIT + 1 by {
                if k < rest.len() {
                    assert(whole[k] == rest[k]);
                } else {
                    assert(whole[k] == spec_off(first, u, m));
                }
            }
        }
    }
}

} // verus!
