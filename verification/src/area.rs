//! The static obstacle layout: every obstacle cell with its neighborhood,
//! plus a dense bitmap for constant-time blocked queries.

use vstd::prelude::*;
use crate::handle::HeadID;
use crate::kind::Kind;
use crate::lookup::{Bitmap, PointSet};
use crate::movement::{Constraint, Movement};
use crate::neighborhood::{Adjacence, Neighborhood, spec_near};
use crate::point::{Point, coord_ok};

verus! {

/// One cell of the world as exposed to collaborators: its handle, kind,
/// position, movement, constraint, and local neighborhood.
#[derive(Clone, Copy, Debug, PartialEq, Eq, Structural)]
pub struct Item {
    pub id: HeadID,
    pub kind: Kind,
    pub position: Point,
    pub movement: Option<Movement>,
    pub constraint: Constraint,
    pub neighborhood: Neighborhood,
}

/// Whether any listed group holds `p`.
pub open spec fn groups_contain(groups: Seq<Seq<Point>>, p: Point) -> bool {
    exists|g: int, k: int|
        0 <= g < groups.len() && 0 <= k < groups[g].len() && #[trigger] groups[g][k] == p
}

/// A recorded cell: its point comes from some listed group, and its
/// neighborhood flags say exactly which neighbor cells that group holds.
pub open spec fn cell_described(groups: Seq<Seq<Point>>, cell: (Point, Neighborhood)) -> bool {
    exists|g: int, k: int|
        0 <= g < groups.len() && 0 <= k < groups[g].len() && #[trigger] groups[g][k] == cell.0
            && (forall|a: Adjacence|
                cell.1.spec_has(a) <==> groups[g].contains(spec_near(cell.0, a)))
}

/// Whether some recorded cell sits at `p`.
pub open spec fn cells_have(cells: Seq<(Point, Neighborhood)>, p: Point) -> bool {
    exists|j: int| 0 <= j < cells.len() && (#[trigger] cells[j]).0 == p
}

/// Pushing another cell keeps every point already recorded.
proof fn lemma_cells_have_push(cells: Seq<(Point, Neighborhood)>, c: (Point, Neighborhood), p: Point)
    requires
        cells_have(cells, p),
    ensures
        cells_have(cells.push(c), p),
{
    let j = choose|j: int| 0 <= j < cells.len() && (#[trigger] cells[j]).0 == p;
    assert((cells.push(c))[j].0 == p);
}

/// How many cells the groups before group `g` hold.
pub open spec fn prefix_len(groups: Seq<Seq<Point>>, g: int) -> int
    decreases g,
{
    if g <= 0 {
        0
    } else {
        prefix_len(groups, g - 1) + groups[g - 1].len()
    }
}

/// Prefix lengths are never negative.
proof fn lemma_prefix_len_nonneg(groups: Seq<Seq<Point>>, a: int)
    ensures
        0 <= prefix_len(groups, a),
    decreases a,
{
    if a > 0 {
        lemma_prefix_len_nonneg(groups, a - 1);
    }
}

/// Group prefixes grow with the group index.
proof fn lemma_prefix_len_mono(groups: Seq<Seq<Point>>, a: int, b: int)
    requires
        0 <= a <= b,
    ensures
        prefix_len(groups, a) <= prefix_len(groups, b),
        0 <= prefix_len(groups, a),
    decreases b - a,
{
    lemma_prefix_len_nonneg(groups, a);
    if b > a {
        lemma_prefix_len_mono(groups, a, b - 1);
    }
}

/// The static, immovable obstacle layout. Built once at level load and
/// read-only afterwards.
pub struct Area {
    cells: Vec<(Point, Neighborhood)>,
    impassable: Bitmap,
}

impl Area {
    pub closed spec fn spec_cells(self) -> Seq<(Point, Neighborhood)> {
        self.cells@
    }

    pub closed spec fn spec_blocked(self, p: Point) -> bool {
        self.impassable.spec_hit(p)
    }

    pub closed spec fn wf(self) -> bool {
        self.impassable.wf()
    }

    /// Build the area from obstacle cells, grouped so each group computes
    /// its neighborhoods against its own cells only.
    pub fn new(width: usize, height: usize, groups: &Vec<Vec<Point>>) -> (r: Area)
        requires
            width * height <= usize::MAX,
            forall|g: int, k: int|
                0 <= g < groups@.len() && 0 <= k < groups@[g]@.len()
                    ==> coord_ok(#[trigger] groups@[g]@[k]),
        ensures
            r.wf(),
            forall|p: Point|
                #[trigger] r.spec_blocked(p)
                    <==> (0 <= p.x < width && 0 <= p.y < height && groups_contain(
                        groups@.map_values(|v: Vec<Point>| v@),
                        p,
                    )),
            r.spec_cells().len() == prefix_len(
                groups@.map_values(|v: Vec<Point>| v@),
                groups@.len() as int,
            ),
            forall|j: int|
                0 <= j < r.spec_cells().len() ==> cell_described(
                    groups@.map_values(|v: Vec<Point>| v@),
                    #[trigger] r.spec_cells()[j],
                ),
            forall|g: int, k: int|
                #![trigger groups@[g]@[k]]
                0 <= g < groups@.len() && 0 <= k < groups@[g]@.len() ==> cells_have(
                    r.spec_cells(),
                    groups@[g]@[k],
                ),
    {
        let ghost gv = groups@.map_values(|v: Vec<Point>| v@);
        let mut cells: Vec<(Point, Neighborhood)> = Vec::new();
        let gn = groups.len();
        for g in 0..gn
            invariant
                gn == groups@.len(),
                gv == groups@.map_values(|v: Vec<Point>| v@),
                forall|g0: int, k: int|
                    0 <= g0 < groups@.len() && 0 <= k < groups@[g0]@.len()
                        ==> coord_ok(#[trigger] groups@[g0]@[k]),
                cells@.len() == prefix_len(gv, g as int),
                forall|j: int|
                    0 <= j < cells@.len() ==> cell_described(gv, #[trigger] cells@[j]),
                forall|g0: int, k: int|
                    #![trigger gv[g0][k]]
                    0 <= g0 < g && 0 <= k < gv[g0].len() ==> cells_have(cells@, gv[g0][k]),
        {
            let group = &groups[g];
            let table = PointSet::new(group);
            let kn = group.len();
            proof {
                assert(gv[g as int] == groups@[g as int]@);
            }
            for k in 0..kn
                invariant
                    gn == groups@.len(),
                    g < gn,
                    gv == groups@.map_values(|v: Vec<Point>| v@),
                    group@ == gv[g as int],
                    kn == group@.len(),
                    forall|g0: int, k0: int|
                        0 <= g0 < groups@.len() && 0 <= k0 < groups@[g0]@.len()
                            ==> coord_ok(#[trigger] groups@[g0]@[k0]),
                    forall|p: Point| table.spec_contains(p) <==> group@.contains(p),
                    cells@.len() == prefix_len(gv, g as int) + k,
                    forall|j: int|
                        0 <= j < cells@.len() ==> cell_described(gv, #[trigger] cells@[j]),
                    forall|g0: int, k0: int|
                        #![trigger gv[g0][k0]]
                        0 <= g0 < g && 0 <= k0 < gv[g0].len() ==> cells_have(cells@, gv[g0][k0]),
                    forall|k0: int|
                        #![trigger gv[g as int][k0]]
                        0 <= k0 < k ==> cells_have(cells@, gv[g as int][k0]),
            {
                let p = group[k];
                let nb = table.neighborhood(p);
                let ghost cells_before = cells@;
                cells.push((p, nb));
                proof {
                    assert(gv[g as int][k as int] == p);
                    assert(cells@[cells@.len() - 1] == (p, nb));
                    assert(cells_have(cells@, p));
                    assert forall|g0: int, k0: int|
                        #![trigger gv[g0][k0]]
                        0 <= g0 < g && 0 <= k0 < gv[g0].len() implies cells_have(
                        cells@,
                        gv[g0][k0],
                    ) by {
                        lemma_cells_have_push(cells_before, (p, nb), gv[g0][k0]);
                    }
                    assert forall|k0: int|
                        #![trigger gv[g as int][k0]]
                        0 <= k0 < k + 1 implies cells_have(cells@, gv[g as int][k0]) by {
                        if k0 < k {
                            lemma_cells_have_push(cells_before, (p, nb), gv[g as int][k0]);
                        }
                    }
                    assert(cell_described(gv, (p, nb))) by {
                        assert(0 <= g < gv.len() && 0 <= k < gv[g as int].len()
                            && gv[g as int][k as int] == p);
                    }
                    assert forall|j: int|
                        0 <= j < cells@.len() implies cell_described(
                        gv,
                        #[trigger] cells@[j],
                    ) by {
                        if j < cells_before.len() {
                            assert(cells@[j] == cells_before[j]);
                        }
                    }
                }
            }
            proof {
                assert(prefix_len(gv, g + 1 as int) == prefix_len(gv, g as int) + gv[
                    g as int].len());
            }
        }
        let mut impassable = Bitmap::new(width, height);
        let cn = cells.len();
        for j in 0..cn
            invariant
                cn == cells@.len(),
                impassable.wf(),
                impassable.spec_width() == width,
                impassable.spec_height() == height,
                forall|q: Point|
                    #[trigger] impassable.spec_hit(q)
                        <==> (0 <= q.x < width && 0 <= q.y < height && cells_have(
                            cells@.subrange(0, j as int),
                            q,
                        )),
        {
            impassable.put(cells[j].0);
            proof {
                assert forall|q: Point|
                    #[trigger] impassable.spec_hit(q)
                        <==> (0 <= q.x < width && 0 <= q.y < height && cells_have(
                            cells@.subrange(0, j + 1 as int),
                            q,
                        )) by {
                    assert(cells@.subrange(0, j + 1 as int).drop_last() =~= cells@.subrange(
                        0,
                        j as int,
                    ));
                    if impassable.spec_hit(q) {
                        if cells_have(cells@.subrange(0, j as int), q) {
                            let jj = choose|jj: int|
                                0 <= jj < j && (#[trigger] cells@.subrange(0, j as int)[jj]).0
                                    == q;
                            assert(cells@.subrange(0, j + 1 as int)[jj].0 == q);
                        } else {
                            assert(cells@.subrange(0, j + 1 as int)[j as int].0 == q);
                        }
                    } else {
                        if cells_have(cells@.subrange(0, j + 1 as int), q) {
                            let jj = choose|jj: int|
                                0 <= jj < j + 1 && (#[trigger] cells@.subrange(0, j + 1 as int)[
                                    jj]).0 == q;
                            if jj < j {
                                assert(cells@.subrange(0, j as int)[jj].0 == q);
                            } else {
                                assert(cells@[j as int].0 == q);
                            }
                        }
                    }
                }
            }
        }
        let r = Area { cells, impassable };
        proof {
            assert(cells@.subrange(0, cells@.len() as int) =~= cells@);
            assert forall|g: int, k: int|
                #![trigger groups@[g]@[k]]
                0 <= g < groups@.len() && 0 <= k < groups@[g]@.len() implies cells_have(
                r.spec_cells(),
                groups@[g]@[k],
            ) by {
                assert(gv[g] == groups@[g]@);
            }
            assert forall|p: Point|
                #[trigger] r.spec_blocked(p)
                    <==> (0 <= p.x < width && 0 <= p.y < height && groups_contain(gv, p)) by {
                if 0 <= p.x < width && 0 <= p.y < height && groups_contain(gv, p) {
                    let (g, k): (int, int) = choose|g: int, k: int|
                        0 <= g < gv.len() && 0 <= k < gv[g].len() && #[trigger] gv[g][k] == p;
                    assert(cells_have(cells@, p));
                }
                if r.spec_blocked(p) {
                    assert(cells_have(cells@, p));
                    let jj = choose|jj: int|
                        0 <= jj < cells@.len() && (#[trigger] cells@[jj]).0 == p;
                    assert(cell_described(gv, cells@[jj]));
                    let (g, k): (int, int) = choose|g: int, k: int|
                        0 <= g < gv.len() && 0 <= k < gv[g].len() && #[trigger] gv[g][k]
                            == cells@[jj].0;
                    assert(groups_contain(gv, p));
                }
            }
        }
        r
    }

    /// Whether the static layout occupies `p`. Out-of-bounds points are
    /// never blocked.
    pub fn blocked(&self, point: Point) -> (r: bool)
        requires
            self.wf(),
        ensures
            r == self.spec_blocked(point),
    {
        self.impassable.hit(point)
    }

    /// Walk the obstacle cells as world items, with handles starting at
    /// `offset`.
    pub fn iter(&self, offset: usize) -> (r: AreaIter)
        ensures
            r.cells@ == self.spec_cells(),
            r.offset == offset,
            r.cursor == 0,
    {
        let mut copied: Vec<(Point, Neighborhood)> = Vec::new();
        let n = self.cells.len();
        for k in 0..n
            invariant
                n == self.cells@.len(),
                copied@ == self.cells@.subrange(0, k as int),
        {
            copied.push(self.cells[k]);
            proof {
                assert(copied@ =~= self.cells@.subrange(0, k + 1 as int));
            }
        }
        proof {
            assert(self.cells@.subrange(0, n as int) =~= self.cells@);
        }
        AreaIter { cells: copied, offset, cursor: 0 }
    }
}

/// Walks an area's obstacle cells, yielding one `Item` per cell with
/// consecutive handles.
pub struct AreaIter {
    pub cells: Vec<(Point, Neighborhood)>,
    pub offset: usize,
    pub cursor: usize,
}

impl AreaIter {
    /// The next obstacle cell as a white, immobile item, or `None` when
    /// every cell has been yielded.
    pub fn next(&mut self) -> (r: Option<Item>)
        requires
            old(self).cursor + old(self).offset <= usize::MAX,
        ensures
            final(self).cells == old(self).cells,
            final(self).offset == old(self).offset,
            old(self).cursor < old(self).cells@.len() ==> {
                &&& final(self).cursor == old(self).cursor + 1
                &&& r == Some(
                    Item {
                        id: HeadID((old(self).cursor + old(self).offset) as usize),
                        kind: Kind::White,
                        position: old(self).cells@[old(self).cursor as int].0,
                        movement: None::<Movement>,
                        constraint: Constraint::Free,
                        neighborhood: old(self).cells@[old(self).cursor as int].1,
                    },
                )
            },
            old(self).cursor >= old(self).cells@.len() ==> {
                &&& final(self).cursor == old(self).cursor
                &&& r is None
            },
    {
        if self.cursor < self.cells.len() {
            let (position, neighborhood) = self.cells[self.cursor];
            let id = HeadID(self.cursor + self.offset);
            self.cursor = self.cursor + 1;
            Some(
                Item {
                    id,
                    kind: Kind::White,
                    position,
                    movement: None,
                    constraint: Constraint::Free,
                    neighborhood,
                },
            )
        } else {
            None
        }
    }
}

} // verus!
