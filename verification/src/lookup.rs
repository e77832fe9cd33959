//! Spatial indexes and the disjoint-set structure used to group cubes.

use vstd::prelude::*;
use crate::neighborhood::{Adjacence, Neighborhood, near, spec_near};
use crate::point::Point;

verus! {

/// Margin inside `i32` that keeps one-step neighbor arithmetic safe.
pub open spec fn coord_in_margin(p: Point) -> bool {
    i32::MIN < p.x < i32::MAX && i32::MIN < p.y < i32::MAX
}

/// A dense width-by-height grid of occupancy flags, answering point
/// membership in constant time. Out-of-bounds queries simply miss.
pub struct Bitmap {
    width: usize,
    height: usize,
    bits: Vec<bool>,
}

impl Bitmap {
    pub closed spec fn wf(self) -> bool {
        self.bits@.len() == self.width * self.height
    }

    pub closed spec fn spec_width(self) -> usize {
        self.width
    }

    pub closed spec fn spec_height(self) -> usize {
        self.height
    }

    pub open spec fn spec_in_bounds(self, p: Point) -> bool {
        0 <= p.x < self.spec_width() && 0 <= p.y < self.spec_height()
    }

    pub closed spec fn spec_hit(self, p: Point) -> bool {
        self.spec_in_bounds(p) && self.bits@[p.y * self.width + p.x]
    }

    pub fn new(width: usize, height: usize) -> (r: Bitmap)
        requires
            width * height <= usize::MAX,
        ensures
            r.wf(),
            r.spec_width() == width,
            r.spec_height() == height,
            forall|q: Point| !r.spec_hit(q),
    {
        let total = width * height;
        let mut bits: Vec<bool> = Vec::new();
        let mut k: usize = 0;
        while k < total
            invariant
                bits@.len() == k,
                k <= total,
                forall|i: int| 0 <= i < k ==> !bits@[i],
            decreases total - k,
        {
            bits.push(false);
            k = k + 1;
        }
        let r = Bitmap { width, height, bits };
        proof {
            assert forall|q: Point| !r.spec_hit(q) by {
                if r.spec_in_bounds(q) {
                    lemma_grid_index_bounds(width as int, height as int, q.x as int, q.y as int);
                }
            }
        }
        r
    }

    /// Mark `p` occupied. A point outside the grid is ignored.
    pub fn put(&mut self, p: Point)
        requires
            old(self).wf(),
        ensures
            final(self).wf(),
            final(self).spec_width() == old(self).spec_width(),
            final(self).spec_height() == old(self).spec_height(),
            forall|q: Point|
                final(self).spec_hit(q)
                    <==> (old(self).spec_hit(q) || (q == p && old(self).spec_in_bounds(p))),
    {
        if p.x >= 0 && p.y >= 0 && (p.x as usize) < self.width && (p.y as usize) < self.height {
            let total = self.bits.len();
            proof {
                lemma_grid_index_bounds(
                    self.width as int,
                    self.height as int,
                    p.x as int,
                    p.y as int,
                );
            }
            let idx = (p.y as usize) * self.width + (p.x as usize);
            self.bits[idx] = true;
            proof {
                let w = self.width as int;
                let h = self.height as int;
                assert forall|q: Point|
                    final(self).spec_hit(q)
                        <==> (old(self).spec_hit(q) || (q == p && old(self).spec_in_bounds(p)))
                by {
                    if final(self).spec_in_bounds(q) {
                        lemma_grid_index_bounds(w, h, q.x as int, q.y as int);
                        if q != p {
                            lemma_grid_index_injective(
                                w,
                                q.x as int,
                                q.y as int,
                                p.x as int,
                                p.y as int,
                            );
                        }
                    }
                }
            }
        }
    }

    /// Whether `p` is marked occupied.
    pub fn hit(&self, p: Point) -> (r: bool)
        requires
            self.wf(),
        ensures
            r == self.spec_hit(p),
    {
        if p.x >= 0 && p.y >= 0 && (p.x as usize) < self.width && (p.y as usize) < self.height {
            let total = self.bits.len();
            proof {
                lemma_grid_index_bounds(
                    self.width as int,
                    self.height as int,
                    p.x as int,
                    p.y as int,
                );
            }
            let idx = (p.y as usize) * self.width + (p.x as usize);
            self.bits[idx]
        } else {
            false
        }
    }
}

/// Row-major indexing stays inside the bitmap.
proof fn lemma_grid_index_bounds(w: int, h: int, x: int, y: int)
    by (nonlinear_arith)
    requires
        0 <= x < w,
        0 <= y < h,
    ensures
        0 <= y * w + x < h * w,
        h * w == w * h,
{
}

/// Row-major indexing maps distinct in-bounds points to distinct offsets.
proof fn lemma_grid_index_injective(w: int, x1: int, y1: int, x2: int, y2: int)
    by (nonlinear_arith)
    requires
        0 <= x1 < w,
        0 <= x2 < w,
    ensures
        y1 * w + x1 == y2 * w + x2 ==> x1 == x2 && y1 == y2,
{
}

/// A finite set of points answering membership and local neighborhoods,
/// used while building the static area.
pub struct PointSet {
    points: Vec<Point>,
}

impl PointSet {
    pub closed spec fn spec_contains(self, p: Point) -> bool {
        self.points@.contains(p)
    }

    pub fn new(points: &Vec<Point>) -> (r: PointSet)
        ensures
            forall|p: Point| r.spec_contains(p) <==> points@.contains(p),
    {
        let mut copied: Vec<Point> = Vec::new();
        let n = points.len();
        for k in 0..n
            invariant
                n == points@.len(),
                copied@ == points@.subrange(0, k as int),
        {
            copied.push(points[k]);
            proof {
                assert(copied@ =~= points@.subrange(0, k + 1 as int));
            }
        }
        proof {
            assert(points@.subrange(0, n as int) =~= points@);
        }
        PointSet { points: copied }
    }

    pub fn has(&self, p: Point) -> (r: bool)
        ensures
            r == self.spec_contains(p),
    {
        let n = self.points.len();
        for k in 0..n
            invariant
                n == self.points@.len(),
                forall|i: int| 0 <= i < k ==> self.points@[i] != p,
        {
            if self.points[k] == p {
                return true;
            }
        }
        false
    }

    /// Which of the eight neighbors of `p` belong to the set.
    pub fn neighborhood(&self, p: Point) -> (r: Neighborhood)
        requires
            coord_in_margin(p),
        ensures
            forall|a: Adjacence| r.spec_has(a) <==> self.spec_contains(spec_near(p, a)),
    {
        let mut n = Neighborhood::new();
        if self.has(near(p, Adjacence::Left)) {
            n.set(Adjacence::Left);
        }
        if self.has(near(p, Adjacence::LeftTop)) {
            n.set(Adjacence::LeftTop);
        }
        if self.has(near(p, Adjacence::Top)) {
            n.set(Adjacence::Top);
        }
        if self.has(near(p, Adjacence::RightTop)) {
            n.set(Adjacence::RightTop);
        }
        if self.has(near(p, Adjacence::Right)) {
            n.set(Adjacence::Right);
        }
        if self.has(near(p, Adjacence::RightBottom)) {
            n.set(Adjacence::RightBottom);
        }
        if self.has(near(p, Adjacence::Bottom)) {
            n.set(Adjacence::Bottom);
        }
        if self.has(near(p, Adjacence::LeftBottom)) {
            n.set(Adjacence::LeftBottom);
        }
        proof {
            assert forall|a: Adjacence| n.spec_has(a) <==> self.spec_contains(spec_near(p, a)) by {
                match a {
                    Adjacence::Left => {},
                    Adjacence::LeftTop => {},
                    Adjacence::Top => {},
                    Adjacence::RightTop => {},
                    Adjacence::Right => {},
                    Adjacence::RightBottom => {},
                    Adjacence::Bottom => {},
                    Adjacence::LeftBottom => {},
                }
            }
        }
        n
    }
}

/// Every parent pointer leads downward, so chains terminate.
pub open spec fn parents_wf(s: Seq<usize>) -> bool {
    forall|i: int| 0 <= i < s.len() ==> #[trigger] s[i] <= i
}

/// The representative reached from `i` by following parent pointers.
pub open spec fn chain_root(s: Seq<usize>, i: int) -> int
    decreases i,
{
    if 0 <= i < s.len() && s[i] < i {
        chain_root(s, s[i] as int)
    } else {
        i
    }
}

/// Roots stay in range and are fixed points of the parent table.
pub proof fn lemma_chain_root_basics(s: Seq<usize>, i: int)
    requires
        parents_wf(s),
        0 <= i < s.len(),
    ensures
        0 <= chain_root(s, i) <= i,
        s[chain_root(s, i)] == chain_root(s, i),
        chain_root(s, chain_root(s, i)) == chain_root(s, i),
    decreases i,
{
    if s[i] < i {
        lemma_chain_root_basics(s, s[i] as int);
    }
}

/// Redirecting one root to a lower node merges exactly that root's class.
proof fn lemma_chain_root_update(s: Seq<usize>, r: int, v: usize, a: int)
    requires
        parents_wf(s),
        0 <= r < s.len(),
        s[r] == r,
        0 <= v <= r,
        0 <= a < s.len(),
    ensures
        chain_root(s.update(r, v), a) == if chain_root(s, a) == r {
            chain_root(s, v as int)
        } else {
            chain_root(s, a)
        },
    decreases a,
{
    let s2 = s.update(r, v);
    lemma_chain_root_basics(s, a);
    if a == r {
        if v == r {
            assert(s2 =~= s);
        } else {
            assert(s2[a] == v < a);
            lemma_chain_root_update(s, r, v, v as int);
            lemma_chain_root_basics(s, v as int);
        }
    } else {
        if s[a] < a {
            lemma_chain_root_update(s, r, v, s[a] as int);
        } else {
            assert(chain_root(s, a) == a);
        }
    }
}

/// Whether index `i` appears somewhere in the listed groups.
pub open spec fn group_covers(r: Seq<Vec<usize>>, i: int) -> bool {
    exists|g: int, k: int|
        0 <= g < r.len() && 0 <= k < r[g]@.len() && #[trigger] r[g]@[k] == i
}

/// A disjoint-set forest over the indices `0 .. len`, with parent pointers
/// always leading toward smaller indices.
pub struct DisjointSet {
    parent: Vec<usize>,
}

impl DisjointSet {
    pub closed spec fn view_parents(self) -> Seq<usize> {
        self.parent@
    }

    pub open spec fn wf(self) -> bool {
        parents_wf(self.view_parents())
    }

    pub open spec fn spec_len(self) -> int {
        self.view_parents().len() as int
    }

    /// The class representative of `i`.
    pub open spec fn spec_root(self, i: int) -> int {
        chain_root(self.view_parents(), i)
    }

    pub fn new(n: usize) -> (r: DisjointSet)
        ensures
            r.wf(),
            r.spec_len() == n,
            forall|i: int| 0 <= i < n ==> r.spec_root(i) == i,
    {
        let mut parent: Vec<usize> = Vec::new();
        let mut k: usize = 0;
        while k < n
            invariant
                parent@.len() == k,
                k <= n,
                forall|i: int| 0 <= i < k ==> parent@[i] == i,
            decreases n - k,
        {
            parent.push(k);
            k = k + 1;
        }
        let r = DisjointSet { parent };
        proof {
            assert forall|i: int| 0 <= i < n implies r.spec_root(i) == i by {
                assert(r.view_parents()[i] == i);
            }
        }
        r
    }

    /// The representative of the class holding `i`.
    pub fn find(&self, i: usize) -> (r: usize)
        requires
            self.wf(),
            i < self.spec_len(),
        ensures
            r == self.spec_root(i as int),
            r <= i,
    {
        let mut cur = i;
        loop
            invariant
                self.wf(),
                cur <= i,
                cur < self.view_parents().len(),
                chain_root(self.view_parents(), cur as int) == chain_root(
                    self.view_parents(),
                    i as int,
                ),
            decreases cur,
        {
            let p = self.parent[cur];
            if p < cur {
                cur = p;
            } else {
                proof {
                    assert(self.view_parents()[cur as int] >= cur);
                }
                return cur;
            }
        }
    }

    /// Union the classes of `i` and `j`; the smaller representative stays.
    pub fn join(&mut self, i: usize, j: usize)
        requires
            old(self).wf(),
            i < old(self).spec_len(),
            j < old(self).spec_len(),
        ensures
            final(self).wf(),
            final(self).spec_len() == old(self).spec_len(),
            forall|a: int|
                0 <= a < old(self).spec_len() ==> final(self).spec_root(a) == (if old(
                    self,
                ).spec_root(a) == old(self).spec_root(i as int) || old(self).spec_root(a) == old(
                    self,
                ).spec_root(j as int) {
                    if old(self).spec_root(i as int) <= old(self).spec_root(j as int) {
                        old(self).spec_root(i as int)
                    } else {
                        old(self).spec_root(j as int)
                    }
                } else {
                    old(self).spec_root(a)
                }),
    {
        let ri = self.find(i);
        let rj = self.find(j);
        proof {
            lemma_chain_root_basics(self.view_parents(), i as int);
            lemma_chain_root_basics(self.view_parents(), j as int);
        }
        if ri < rj {
            self.parent[rj] = ri;
            proof {
                let s = old(self).view_parents();
                assert forall|a: int| 0 <= a < s.len() implies final(self).spec_root(a)
                    == (if chain_root(s, a) == chain_root(s, rj as int) {
                    chain_root(s, ri as int)
                } else {
                    chain_root(s, a)
                }) by {
                    lemma_chain_root_update(s, rj as int, ri, a);
                }
                lemma_chain_root_basics(s, ri as int);
            }
        } else if rj < ri {
            self.parent[ri] = rj;
            proof {
                let s = old(self).view_parents();
                assert forall|a: int| 0 <= a < s.len() implies final(self).spec_root(a)
                    == (if chain_root(s, a) == chain_root(s, ri as int) {
                    chain_root(s, rj as int)
                } else {
                    chain_root(s, a)
                }) by {
                    lemma_chain_root_update(s, ri as int, rj, a);
                }
                lemma_chain_root_basics(s, rj as int);
            }
        }
    }

    /// The equivalence classes, each listed in ascending index order and
    /// led by its representative; classes appear ordered by representative.
    pub fn groups(self) -> (r: Vec<Vec<usize>>)
        requires
            self.wf(),
        ensures
            forall|g: int| 0 <= g < r@.len() ==> #[trigger] r@[g]@.len() > 0,
            forall|g: int, k: int|
                0 <= g < r@.len() && 0 <= k < r@[g]@.len()
                    ==> #[trigger] r@[g]@[k] < self.spec_len(),
            forall|g: int, k: int|
                0 <= g < r@.len() && 0 <= k < r@[g]@.len()
                    ==> self.spec_root(#[trigger] r@[g]@[k] as int) == r@[g]@[0],
            forall|g: int|
                0 <= g < r@.len() ==> self.spec_root(#[trigger] r@[g]@[0] as int) == r@[g]@[0],
            forall|g1: int, g2: int|
                #![trigger r@[g1]@[0], r@[g2]@[0]]
                0 <= g1 < g2 < r@.len() ==> r@[g1]@[0] < r@[g2]@[0],
            forall|g: int, k1: int, k2: int|
                #![trigger r@[g]@[k1], r@[g]@[k2]]
                0 <= g < r@.len() && 0 <= k1 < k2 < r@[g]@.len() ==> r@[g]@[k1] < r@[g]@[k2],
            forall|i: int| 0 <= i < self.spec_len() ==> #[trigger] group_covers(r@, i),
    {
        let n = self.parent.len();
        let mut out: Vec<Vec<usize>> = Vec::new();
        proof {
            assert forall|i: int| 0 <= i < n implies 0 <= #[trigger] self.spec_root(i) <= i by {
                lemma_chain_root_basics(self.view_parents(), i);
            }
        }
        for root in 0..n
            invariant
                self.wf(),
                n == self.spec_len(),
                forall|g: int| 0 <= g < out@.len() ==> #[trigger] out@[g]@.len() > 0,
                forall|g: int, k: int|
                    0 <= g < out@.len() && 0 <= k < out@[g]@.len() ==> #[trigger] out@[g]@[k] < n,
                forall|g: int, k: int|
                    0 <= g < out@.len() && 0 <= k < out@[g]@.len()
                        ==> self.spec_root(#[trigger] out@[g]@[k] as int) == out@[g]@[0],
                forall|g: int|
                    0 <= g < out@.len()
                        ==> self.spec_root(#[trigger] out@[g]@[0] as int) == out@[g]@[0],
                forall|g: int| 0 <= g < out@.len() ==> #[trigger] out@[g]@[0] < root,
                forall|g1: int, g2: int|
                    #![trigger out@[g1]@[0], out@[g2]@[0]]
                    0 <= g1 < g2 < out@.len() ==> out@[g1]@[0] < out@[g2]@[0],
                forall|g: int, k1: int, k2: int|
                    #![trigger out@[g]@[k1], out@[g]@[k2]]
                    0 <= g < out@.len() && 0 <= k1 < k2 < out@[g]@.len()
                        ==> out@[g]@[k1] < out@[g]@[k2],
                forall|i: int|
                    0 <= i < n && self.spec_root(i) < root ==> #[trigger] group_covers(out@, i),
        {
            let mut members: Vec<usize> = Vec::new();
            for cand in 0..n
                invariant
                    self.wf(),
                    n == self.spec_len(),
                    root < n,
                    forall|k: int| 0 <= k < members@.len() ==> #[trigger] members@[k] < cand,
                    forall|k: int|
                        0 <= k < members@.len()
                            ==> self.spec_root(#[trigger] members@[k] as int) == root,
                    forall|k1: int, k2: int|
                        #![trigger members@[k1], members@[k2]]
                        0 <= k1 < k2 < members@.len() ==> members@[k1] < members@[k2],
                    forall|q: int|
                        0 <= q < cand && self.spec_root(q) == root
                            ==> exists|k: int| 0 <= k < members@.len() && members@[k] == q,
            {
                let ghost before = members@;
                if self.find(cand) == root {
                    members.push(cand);
                    proof {
                        assert forall|q: int|
                            0 <= q < cand + 1 && self.spec_root(q) == root implies exists|k: int|
                                0 <= k < members@.len() && members@[k] == q by {
                            if q == cand {
                                assert(members@[members@.len() - 1] == q);
                            } else {
                                let k = choose|k: int|
                                    0 <= k < before.len() && before[k] == q;
                                assert(members@[k] == q);
                            }
                        }
                    }
                }
            }
            let ghost msnap = members@;
            let ghost out_before = out@;
            if members.len() > 0 {
                proof {
                    assert(self.spec_root(msnap[0] as int) == root);
                    lemma_chain_root_basics(self.view_parents(), msnap[0] as int);
                    // the representative itself belongs to the class, so it
                    // is the smallest member
                    assert(self.spec_root(root as int) == root);
                    let k = choose|k: int| 0 <= k < msnap.len() && msnap[k] == root;
                    assert(msnap[0] <= msnap[k]);
                }
                out.push(members);
            }
            proof {
                assert forall|i: int|
                    0 <= i < n && self.spec_root(i) < root + 1 implies #[trigger] group_covers(
                    out@,
                    i,
                ) by {
                    if self.spec_root(i) == root {
                        let k = choose|k: int| 0 <= k < msnap.len() && msnap[k] == i;
                        assert(out@[out@.len() - 1]@[k] == i);
                    } else {
                        assert(self.spec_root(i) < root);
                        assert(group_covers(out_before, i));
                        let (g, k): (int, int) = choose|g: int, k: int|
                            0 <= g < out_before.len() && 0 <= k < out_before[g]@.len()
                                && #[trigger] out_before[g]@[k] == i;
                        assert(out@[g]@[k] == i);
                    }
                }
            }
        }
        proof {
            assert forall|i: int| 0 <= i < n implies #[trigger] group_covers(out@, i) by {
                lemma_chain_root_basics(self.view_parents(), i);
            }
        }
        out
    }
}

} // verus!
