//! Spatial index builder: for each grid cell, a bounded buffer of candidate
//! regions ordered by centroid distance, and the assignment decision over
//! the exact geometry tests.
//!
//! The caller walks the region table once per cell, offering each region
//! with its squared centroid distance; the buffer keeps the nearest
//! `cap` of them.  The exact geometry tests on the survivors are evaluated
//! outside the library (they are floating-point polygon predicates) and
//! handed back as plain truth values; the selection of assignments from
//! those results is verified here.

use vstd::prelude::*;

use crate::geom::CENTER_LIMIT;
use crate::geom::sq_dist_spec;
use crate::geom::sq_dist;

verus! {

/// Configuration of an index-builder run, as parsed from the command line.
pub struct Index {
    pub buffer_size: usize,
    pub grid_file: String,
    pub shape_file: String,
    pub thread_count: u8,
}

/// One region of the polygon dataset as the index builder reads it: the
/// identifier bytes and the centroid in doubled micro-degrees.  The boundary
/// polygon stays with the caller, which evaluates the exact geometry tests.
pub struct Region {
    pub id: Vec<u8>,
    pub cx2: i64,
    pub cy2: i64,
}

/// Every region centroid coordinate is a plausible doubled angle.
pub open spec fn regions_ok(rs: Seq<Region>) -> bool {
    forall|i: int|
        0 <= i < rs.len() ==> -CENTER_LIMIT <= (#[trigger] rs[i]).cx2 <= CENTER_LIMIT
            && -CENTER_LIMIT <= rs[i].cy2 <= CENTER_LIMIT
}

/// Squared centroid distance of region `j` to the cell center `(cx2, cy2)`.
pub open spec fn region_dist(rs: Seq<Region>, j: int, cx2: int, cy2: int) -> int {
    sq_dist_spec(rs[j].cx2 as int, rs[j].cy2 as int, cx2, cy2)
}

/// A candidate pairing of a region (by its position in the region table)
/// with its squared centroid distance to the current cell center.
#[derive(Clone, Copy)]
pub struct Candidate {
    pub dist: u128,
    pub region: usize,
}

/// The size-bounded candidate buffer, kept sorted ascending by distance.
pub struct CandidateBuffer {
    pub cap: usize,
    pub entries: Vec<Candidate>,
}

impl CandidateBuffer {
    /// Entries are sorted ascending by distance.
    pub open spec fn sorted(self) -> bool {
        forall|i: int, j: int|
            #![trigger self.entries@[i].dist, self.entries@[j].dist]
            0 <= i < j < self.entries@.len() ==> self.entries@[i].dist <= self.entries@[j].dist
    }

    /// Sorted, and never larger than the configured capacity.
    pub open spec fn wf(self) -> bool {
        self.sorted() && self.entries@.len() <= self.cap
    }

    /// No region occurs twice.
    pub open spec fn regions_distinct(self) -> bool {
        forall|i: int, j: int|
            #![trigger self.entries@[i].region, self.entries@[j].region]
            0 <= i < j < self.entries@.len() ==> self.entries@[i].region != self.entries@[j].region
    }

    pub open spec fn contains_entry(self, c: Candidate) -> bool {
        exists|i: int| 0 <= i < self.entries@.len() && self.entries@[i] == c
    }

    pub open spec fn has_region(self, r: int) -> bool {
        exists|i: int| 0 <= i < self.entries@.len() && (#[trigger] self.entries@[i]).region as int == r
    }

    /// Every kept entry is at least as close as distance `d`.
    pub open spec fn dominates(self, d: int) -> bool {
        forall|i: int| 0 <= i < self.entries@.len() ==> (#[trigger] self.entries@[i]).dist as int <= d
    }

    pub fn new(cap: usize) -> (b: Self)
        ensures
            b.cap == cap,
            b.entries@.len() == 0,
            b.wf(),
            b.regions_distinct(),
    {
        CandidateBuffer { cap, entries: Vec::new() }
    }

    /// Ordered insertion with truncation: scan backward for the insertion
    /// position, insert when that position lies inside the capacity, and
    /// drop the now-farthest tail entry when the buffer overflows.
    pub fn offer(&mut self, c: Candidate)
        requires
            old(self).wf(),
            old(self).regions_distinct(),
            !old(self).has_region(c.region as int),
        ensures
            final(self).cap == old(self).cap,
            final(self).wf(),
            final(self).regions_distinct(),
            final(self).entries@.len() == if old(self).entries@.len() < old(self).cap {
                old(self).entries@.len() + 1 as int
            } else {
                old(self).cap as int
            },
            forall|e: Candidate|
                final(self).contains_entry(e) ==> old(self).contains_entry(e) || e == c,
            forall|e: Candidate|
                old(self).contains_entry(e) && !final(self).contains_entry(e)
                    ==> final(self).dominates(e.dist as int),
            !final(self).has_region(c.region as int) ==> final(self).dominates(c.dist as int),
            old(self).entries@.len() == old(self).cap && final(self).has_region(c.region as int)
                ==> exists|e: Candidate|
                    #[trigger] old(self).contains_entry(e) && !final(self).contains_entry(e),
            old(self).entries@.len() < old(self).cap ==> final(self).has_region(c.region as int),
            old(self).entries@.len() < old(self).cap ==> forall|e: Candidate|
                old(self).contains_entry(e) ==> final(self).contains_entry(e),
    {
        let ghost pre = *self;
        let mut index: usize = self.entries.len();
        while index != 0 && c.dist < self.entries[index - 1].dist
            invariant
                *self == pre,
                index <= self.entries@.len(),
                forall|k: int|
                    index <= k < self.entries@.len() ==> c.dist < (#[trigger] self.entries@[k]).dist,
            decreases index,
        {
            index = index - 1;
        }
        proof {
            assert forall|k: int| 0 <= k < index implies (#[trigger] pre.entries@[k]).dist <= c.dist by {
                assert(pre.entries@[k].dist <= pre.entries@[index - 1].dist);
            }
        }
        if index < self.cap {
            self.entries.insert(index, c);
            if self.entries.len() > self.cap {
                self.entries.pop();
                proof {
                    lemma_insert_evict(pre, *self, c, index as int);
                }
            } else {
                proof {
                    lemma_insert_room(pre, *self, c, index as int);
                }
            }
        } else {
            proof {
                assert(index == pre.entries@.len());
                assert(!self.has_region(c.region as int));
                assert(self.dominates(c.dist as int));
            }
        }
    }
}

/// Facts about the ordered insertion of a candidate while the buffer still
/// has room: nothing is dropped and the new candidate is present.
proof fn lemma_insert_room(pre: CandidateBuffer, post: CandidateBuffer, c: Candidate, index: int)
    requires
        pre.wf(),
        pre.regions_distinct(),
        !pre.has_region(c.region as int),
        0 <= index <= pre.entries@.len(),
        pre.entries@.len() < pre.cap,
        forall|k: int| 0 <= k < index ==> (#[trigger] pre.entries@[k]).dist <= c.dist,
        forall|k: int| index <= k < pre.entries@.len() ==> c.dist < (#[trigger] pre.entries@[k]).dist,
        post.cap == pre.cap,
        post.entries@ == pre.entries@.insert(index, c),
    ensures
        post.wf(),
        post.regions_distinct(),
        post.entries@.len() == pre.entries@.len() + 1,
        forall|e: Candidate| post.contains_entry(e) ==> pre.contains_entry(e) || e == c,
        forall|e: Candidate| pre.contains_entry(e) ==> post.contains_entry(e),
        post.has_region(c.region as int),
{
    pre.entries@.insert_ensures(index, c);
    assert(post.entries@[index] == c);
    assert(post.has_region(c.region as int));
    assert forall|e: Candidate| post.contains_entry(e) implies pre.contains_entry(e) || e == c by {
        let k = choose|k: int| 0 <= k < post.entries@.len() && post.entries@[k] == e;
        if k < index {
            assert(pre.entries@[k] == e);
        } else if k > index {
            assert(pre.entries@[k - 1] == e);
        }
    }
    assert forall|e: Candidate| pre.contains_entry(e) implies post.contains_entry(e) by {
        let k = choose|k: int| 0 <= k < pre.entries@.len() && pre.entries@[k] == e;
        if k < index {
            assert(post.entries@[k] == e);
        } else {
            assert(post.entries@[k + 1] == e);
        }
    }
    assert forall|i: int, j: int|
        0 <= i < j < post.entries@.len()
            implies #[trigger] post.entries@[i].dist <= #[trigger] post.entries@[j].dist by {
        if i < index {
            assert(post.entries@[i] == pre.entries@[i]);
        } else if i > index {
            assert(post.entries@[i] == pre.entries@[i - 1]);
        }
        if j < index {
            assert(post.entries@[j] == pre.entries@[j]);
        } else if j > index {
            assert(post.entries@[j] == pre.entries@[j - 1]);
        }
    }
    assert forall|i: int, j: int|
        0 <= i < j < post.entries@.len()
            implies #[trigger] post.entries@[i].region != #[trigger] post.entries@[j].region by {
        if i != index && j != index {
            let pi = if i < index { i } else { i - 1 };
            let pj = if j < index { j } else { j - 1 };
            assert(post.entries@[i] == pre.entries@[pi]);
            assert(post.entries@[j] == pre.entries@[pj]);
        } else if i == index {
            assert(post.entries@[i] == c);
            assert(post.entries@[j] == pre.entries@[j - 1]);
        } else {
            assert(post.entries@[j] == c);
            assert(post.entries@[i] == pre.entries@[i]);
        }
    }
}

/// Facts about the ordered insertion of a candidate into a full buffer: the
/// farthest entry leaves and is dominated by everything kept.
proof fn lemma_insert_evict(pre: CandidateBuffer, post: CandidateBuffer, c: Candidate, index: int)
    requires
        pre.wf(),
        pre.regions_distinct(),
        !pre.has_region(c.region as int),
        0 <= index < pre.cap,
        pre.entries@.len() == pre.cap,
        forall|k: int| 0 <= k < index ==> (#[trigger] pre.entries@[k]).dist <= c.dist,
        forall|k: int| index <= k < pre.entries@.len() ==> c.dist < (#[trigger] pre.entries@[k]).dist,
        post.cap == pre.cap,
        post.entries@ == pre.entries@.insert(index, c).drop_last(),
    ensures
        post.wf(),
        post.regions_distinct(),
        post.entries@.len() == pre.cap,
        forall|e: Candidate| post.contains_entry(e) ==> pre.contains_entry(e) || e == c,
        forall|e: Candidate|
            pre.contains_entry(e) && !post.contains_entry(e) ==> post.dominates(e.dist as int),
        post.has_region(c.region as int),
        exists|e: Candidate| #[trigger] pre.contains_entry(e) && !post.contains_entry(e),
{
    pre.entries@.insert_ensures(index, c);
    let mid = pre.entries@.insert(index, c);
    let n = pre.entries@.len() as int;
    assert(post.entries@.len() == n);
    assert forall|i: int| 0 <= i < n implies post.entries@[i] == mid[i] by {}
    assert(post.entries@[index] == c);
    assert(post.has_region(c.region as int));
    let dropped = pre.entries@[n - 1];
    assert(mid[n] == dropped);
    // kept entries are, positionally, the old ones below the dropped tail plus c
    assert forall|i: int| 0 <= i < n implies
        (if i < index { post.entries@[i] == pre.entries@[i] }
         else if i == index { post.entries@[i] == c }
         else { post.entries@[i] == pre.entries@[i - 1] }) by {}
    assert(post.dominates(dropped.dist as int)) by {
        assert forall|i: int| 0 <= i < n
            implies (#[trigger] post.entries@[i]).dist as int <= dropped.dist as int by {
            if i < index {
                assert(post.entries@[i] == pre.entries@[i]);
            } else if i == index {
                assert(c.dist < pre.entries@[n - 1].dist);
            } else {
                assert(post.entries@[i] == pre.entries@[i - 1]);
            }
        }
    }
    assert(!post.contains_entry(dropped)) by {
        if post.contains_entry(dropped) {
            let k = choose|k: int| 0 <= k < post.entries@.len() && post.entries@[k] == dropped;
            if k < index {
                assert(pre.entries@[k] == dropped);
            } else if k == index {
                assert(c == dropped);
                assert(c.dist < pre.entries@[n - 1].dist);
            } else {
                assert(pre.entries@[k - 1] == dropped);
            }
        }
    }
    assert(pre.contains_entry(dropped));
    assert forall|e: Candidate| post.contains_entry(e) implies pre.contains_entry(e) || e == c by {
        let k = choose|k: int| 0 <= k < post.entries@.len() && post.entries@[k] == e;
        if k < index {
            assert(pre.entries@[k] == e);
        } else if k > index {
            assert(pre.entries@[k - 1] == e);
        }
    }
    assert forall|e: Candidate|
        pre.contains_entry(e) && !post.contains_entry(e)
            implies post.dominates(e.dist as int) by {
        let k = choose|k: int| 0 <= k < pre.entries@.len() && pre.entries@[k] == e;
        if k < index {
            assert(post.entries@[k] == e);
        } else if k < n - 1 {
            assert(post.entries@[k + 1] == e);
        } else {
            assert(e == dropped);
        }
    }
    assert forall|i: int, j: int|
        0 <= i < j < post.entries@.len()
            implies #[trigger] post.entries@[i].dist <= #[trigger] post.entries@[j].dist by {
        if i < index {
            assert(post.entries@[i] == pre.entries@[i]);
        } else if i > index {
            assert(post.entries@[i] == pre.entries@[i - 1]);
        }
        if j < index {
            assert(post.entries@[j] == pre.entries@[j]);
        } else if j > index {
            assert(post.entries@[j] == pre.entries@[j - 1]);
        }
    }
    assert forall|i: int, j: int|
        0 <= i < j < post.entries@.len()
            implies #[trigger] post.entries@[i].region != #[trigger] post.entries@[j].region by {
        if i != index && j != index {
            let pi = if i < index { i } else { i - 1 };
            let pj = if j < index { j } else { j - 1 };
            assert(post.entries@[i] == pre.entries@[pi]);
            assert(post.entries@[j] == pre.entries@[pj]);
        } else if i == index {
            assert(post.entries@[i] == c);
            assert(post.entries@[j] == pre.entries@[j - 1]);
        } else {
            assert(post.entries@[j] == c);
            assert(post.entries@[i] == pre.entries@[i]);
        }
    }
}


/// One full scan of the region table for one cell: the up-to-`cap` nearest
/// regions by squared centroid distance to the cell center, sorted ascending;
/// every region left out is at least as far as every region kept.
pub fn nearest_candidates(regions: &Vec<Region>, cx2: i64, cy2: i64, cap: usize) -> (b:
    CandidateBuffer)
    requires
        regions_ok(regions@),
        -CENTER_LIMIT <= cx2 <= CENTER_LIMIT,
        -CENTER_LIMIT <= cy2 <= CENTER_LIMIT,
    ensures
        b.cap == cap,
        b.wf(),
        b.regions_distinct(),
        b.entries@.len() == if regions@.len() < cap { regions@.len() as int } else { cap as int },
        forall|i: int|
            0 <= i < b.entries@.len() ==> (#[trigger] b.entries@[i]).region < regions@.len()
                && b.entries@[i].dist as int == region_dist(
                regions@,
                b.entries@[i].region as int,
                cx2 as int,
                cy2 as int,
            ),
        forall|j: int|
            0 <= j < regions@.len() && !b.has_region(j) ==> b.dominates(
                region_dist(regions@, j, cx2 as int, cy2 as int),
            ),
{
    let mut b = CandidateBuffer::new(cap);
    let mut n: usize = 0;
    while n < regions.len()
        invariant
            regions_ok(regions@),
            -CENTER_LIMIT <= cx2 <= CENTER_LIMIT,
            -CENTER_LIMIT <= cy2 <= CENTER_LIMIT,
            n <= regions@.len(),
            b.cap == cap,
            b.wf(),
            b.regions_distinct(),
            b.entries@.len() == if n < cap { n as int } else { cap as int },
            forall|i: int|
                0 <= i < b.entries@.len() ==> (#[trigger] b.entries@[i]).region < n
                    && b.entries@[i].dist as int == region_dist(
                    regions@,
                    b.entries@[i].region as int,
                    cx2 as int,
                    cy2 as int,
                ),
            b.entries@.len() < cap ==> forall|j: int| 0 <= j < n ==> b.has_region(j),
            forall|j: int|
                0 <= j < n && !b.has_region(j) ==> b.dominates(
                    region_dist(regions@, j, cx2 as int, cy2 as int),
                ),
        decreases regions@.len() - n,
    {
        let d = sq_dist(regions[n].cx2, regions[n].cy2, cx2, cy2);
        let c = Candidate { dist: d, region: n };
        proof {
            assert(!b.has_region(n as int));
        }
        let ghost bpre = b;
        b.offer(c);
        proof {
            assert forall|i: int| 0 <= i < b.entries@.len() implies (
                #[trigger] b.entries@[i]).region < n + 1 && b.entries@[i].dist as int
                == region_dist(regions@, b.entries@[i].region as int, cx2 as int, cy2 as int) by {
                let e = b.entries@[i];
                assert(b.contains_entry(e));
                if !(bpre.contains_entry(e)) {
                    assert(e == c);
                }
            }
            assert forall|j: int| 0 <= j < n + 1 && b.entries@.len() < cap
                implies b.has_region(j) by {
                assert(bpre.entries@.len() < cap);
                if j == n {
                } else {
                    assert(bpre.has_region(j));
                    let k = choose|k: int|
                        0 <= k < bpre.entries@.len() && (#[trigger] bpre.entries@[k]).region as int
                            == j;
                    let e = bpre.entries@[k];
                    assert(bpre.contains_entry(e));
                    assert(b.contains_entry(e));
                    let k2 = choose|k2: int|
                        0 <= k2 < b.entries@.len() && b.entries@[k2] == e;
                    assert((#[trigger] b.entries@[k2]).region as int == j);
                }
            }
            let gx = cx2 as int;
            let gy = cy2 as int;
            assert forall|j: int| 0 <= j < n + 1 && !b.has_region(j)
                implies b.dominates(region_dist(regions@, j, gx, gy)) by {
                let dj = region_dist(regions@, j, gx, gy);
                if j == n {
                    assert(b.dominates(c.dist as int));
                } else if bpre.has_region(j) {
                    let k = choose|k: int|
                        0 <= k < bpre.entries@.len() && (#[trigger] bpre.entries@[k]).region as int
                            == j;
                    let e = bpre.entries@[k];
                    assert(e.dist as int == dj);
                    assert(bpre.contains_entry(e));
                    assert(!b.contains_entry(e)) by {
                        if b.contains_entry(e) {
                            let k2 = choose|k2: int|
                                0 <= k2 < b.entries@.len() && b.entries@[k2] == e;
                            assert((#[trigger] b.entries@[k2]).region as int == j);
                        }
                    }
                    assert(b.dominates(e.dist as int));
                } else {
                    assert(bpre.entries@.len() == cap);
                    assert(bpre.dominates(dj));
                    if b.has_region(c.region as int) {
                        let e0 = choose|e0: Candidate|
                            #[trigger] bpre.contains_entry(e0) && !b.contains_entry(e0);
                        let k0 = choose|k0: int|
                            0 <= k0 < bpre.entries@.len() && bpre.entries@[k0] == e0;
                        assert(e0.dist as int <= dj);
                        assert(b.dominates(e0.dist as int));
                        assert forall|i: int| 0 <= i < b.entries@.len()
                            implies (#[trigger] b.entries@[i]).dist as int <= dj by {
                            assert(b.entries@[i].dist as int <= e0.dist as int);
                        }
                    } else {
                        assert forall|i: int| 0 <= i < b.entries@.len()
                            implies (#[trigger] b.entries@[i]).dist as int <= dj by {
                            let e = b.entries@[i];
                            assert(b.contains_entry(e));
                            if bpre.contains_entry(e) {
                                let k = choose|k: int|
                                    0 <= k < bpre.entries@.len() && bpre.entries@[k] == e;
                                assert(bpre.entries@[k].dist as int <= dj);
                            } else {
                                assert(e == c);
                                assert(b.has_region(c.region as int));
                            }
                        }
                    }
                }
            }
        }
        n = n + 1;
    }
    b
}


/// Results of the three exact geometry tests for one candidate region
/// against one cell rectangle, as the polygon library reports them.
#[derive(Clone, Copy)]
pub struct CellTest {
    pub boundary_intersects: bool,
    pub cell_contains_region: bool,
    pub region_contains_cell: bool,
}

/// A candidate is assigned when its region's boundary intersects the cell
/// rectangle, or either one contains the other.
pub open spec fn assign_test(t: CellTest) -> bool {
    t.boundary_intersects || t.cell_contains_region || t.region_contains_cell
}

/// The regions assigned from a candidate list and the matching geometry
/// test results, in candidate (distance) order.
pub open spec fn assigned_of(entries: Seq<Candidate>, tests: Seq<CellTest>) -> Seq<usize>
    decreases entries.len(),
{
    if entries.len() == 0 {
        Seq::empty()
    } else {
        let prefix = assigned_of(entries.drop_last(), tests.drop_last());
        if assign_test(tests[entries.len() - 1]) {
            prefix.push(entries[entries.len() - 1].region)
        } else {
            prefix
        }
    }
}

/// Picks the assigned regions out of the candidate buffer, given the exact
/// geometry test result for each candidate in buffer order.
pub fn select_assignments(b: &CandidateBuffer, tests: &Vec<CellTest>) -> (r: Vec<usize>)
    requires
        tests@.len() == b.entries@.len(),
    ensures
        r@ == assigned_of(b.entries@, tests@),
{
    let mut r: Vec<usize> = Vec::new();
    let mut i: usize = 0;
    while i < b.entries.len()
        invariant
            tests@.len() == b.entries@.len(),
            i <= b.entries@.len(),
            r@ == assigned_of(b.entries@.subrange(0, i as int), tests@.subrange(0, i as int)),
        decreases b.entries@.len() - i,
    {
        proof {
            let ep = b.entries@.subrange(0, i + 1);
            let tp = tests@.subrange(0, i + 1);
            assert(ep.drop_last() =~= b.entries@.subrange(0, i as int));
            assert(tp.drop_last() =~= tests@.subrange(0, i as int));
            assert(ep[ep.len() - 1] == b.entries@[i as int]);
            assert(tp[tp.len() - 1] == tests@[i as int]);
        }
        let t = tests[i];
        if t.boundary_intersects || t.cell_contains_region || t.region_contains_cell {
            r.push(b.entries[i].region);
        }
        i = i + 1;
    }
    proof {
        assert(b.entries@.subrange(0, b.entries@.len() as int) =~= b.entries@);
        assert(tests@.subrange(0, tests@.len() as int) =~= tests@);
    }
    r
}

/// A cell never gets more assignments than it had candidates, so never more
/// than the candidate-buffer capacity.
pub proof fn lemma_assignment_count_bounded(entries: Seq<Candidate>, tests: Seq<CellTest>)
    requires
        entries.len() == tests.len(),
    ensures
        assigned_of(entries, tests).len() <= entries.len(),
    decreases entries.len(),
{
    if entries.len() > 0 {
        lemma_assignment_count_bounded(entries.drop_last(), tests.drop_last());
    }
}

/// A candidate region whose boundary contains the cell rectangle is always
/// among the produced assignments.
pub proof fn lemma_containing_candidate_assigned(
    entries: Seq<Candidate>,
    tests: Seq<CellTest>,
    i: int,
)
    requires
        entries.len() == tests.len(),
        0 <= i < entries.len(),
        tests[i].region_contains_cell,
    ensures
        assigned_of(entries, tests).contains(entries[i].region),
    decreases entries.len(),
{
    let r = assigned_of(entries, tests);
    if i == entries.len() - 1 {
        assert(r[r.len() - 1] == entries[i].region);
    } else {
        lemma_containing_candidate_assigned(entries.drop_last(), tests.drop_last(), i);
        let prefix = assigned_of(entries.drop_last(), tests.drop_last());
        let k = choose|k: int| 0 <= k < prefix.len() && prefix[k] == entries.drop_last()[i].region;
        assert(r[k] == prefix[k]);
        assert(entries.drop_last()[i] == entries[i]);
    }
}

} // verus!
