//! A puzzle as a drawing: vertices, the edges between them and the cells that
//! the edges enclose; and the regions into which a line along edges splits
//! the cells.

use crate::grid_vec::EdgeEnds;
use crate::grid_vec::PuzzleCells;
use crate::grid_vec::VertPlaces;
use crate::index::CellIdx;
use crate::index::EdgeIdx;
use crate::index::VertIdx;
use crate::lattice::are_lattice_edges;
use crate::lattice::cell_index;
use crate::lattice::corners;
use crate::lattice::fits;
use crate::lattice::GridVec;
use crate::lattice::lattice_cell;
use crate::lattice::lattice_edges;
use crate::lattice::lattice_neighbours;
use crate::lattice::lemma_lattice_bounds;
use crate::lattice::lemma_lattice_coordinates;
use crate::layout::layout_fault;
use crate::layout::layout_height;
use crate::layout::layout_pips;
use crate::layout::layout_width;
use crate::layout::parse_layout;
use crate::layout::MalformedLayoutError;
use core::ops::Add;
use core::ops::AddAssign;
use std::collections::HashSet;
use vstd::prelude::*;

verus! {

/// Number of 'dice' pips in some region (usually a cell)
#[derive(Debug, Clone, Copy, PartialOrd, Ord, PartialEq, Eq, Hash, Structural)]
pub struct Pips(pub usize);

/// The pips of the first `n` of `pips` together.
pub open spec fn pips_sum(pips: Seq<Pips>, n: int) -> int
    decreases n,
{
    if n <= 0 {
        0
    } else {
        pips_sum(pips, n - 1) + pips[n - 1].0
    }
}

impl Pips {
    /// No pips.
    pub fn zero() -> (r: Pips)
        ensures
            r.0 == 0,
    {
        Pips(0)
    }

    /// All of `pips` together.
    pub fn sum(pips: &[Pips]) -> (total: Pips)
        requires
            pips_sum(pips@, pips.len() as int) <= usize::MAX,
        ensures
            total.0 == pips_sum(pips@, pips.len() as int),
    {
        let mut total = Pips::zero();
        let mut i: usize = 0;
        while i < pips.len()
            invariant
                i <= pips.len(),
                total.0 == pips_sum(pips@, i as int),
                pips_sum(pips@, pips.len() as int) <= usize::MAX,
            decreases pips.len() - i,
        {
            proof {
                lemma_pips_sum_grows(pips@, i as int + 1, pips.len() as int);
            }
            total = total.add(pips[i]);
            i += 1;
        }
        total
    }
}

/// A longer list has no fewer pips.
pub proof fn lemma_pips_sum_grows(pips: Seq<Pips>, n: int, m: int)
    requires
        n <= m,
    ensures
        0 <= pips_sum(pips, n) <= pips_sum(pips, m),
    decreases m - n, n,
{
    if n < m {
        lemma_pips_sum_grows(pips, n, m - 1);
    } else if n > 0 {
        lemma_pips_sum_grows(pips, n - 1, n - 1);
    }
}

impl core::ops::Add for Pips {
    type Output = Self;

    fn add(self, rhs: Self) -> (total: Self) {
        Self(self.0 + rhs.0)
    }
}

impl vstd::std_specs::ops::AddSpecImpl for Pips {
    open spec fn obeys_add_spec() -> bool {
        true
    }

    open spec fn add_req(self, rhs: Self) -> bool {
        self.0 + rhs.0 <= usize::MAX
    }

    open spec fn add_spec(self, rhs: Self) -> Self {
        Pips((self.0 + rhs.0) as usize)
    }
}

impl core::ops::AddAssign for Pips {
    fn add_assign(&mut self, rhs: Self)
        requires
            old(self).0 + rhs.0 <= usize::MAX,
        ensures
            final(self).0 == old(self).0 + rhs.0,
    {
        self.0 += rhs.0;
    }
}

/// A `Cell` into which pips can be added
#[derive(Debug, Clone)]
pub struct Cell {
    pub verts: Vec<VertIdx>,  // Going clockwise
    pub neighbours: Vec<(EdgeIdx, CellIdx)>,
    pub pips: Pips,
}

/// A (possibly incorrect) attempt to solve a [`Puzzle`]
#[derive(Debug)]
pub struct Solution {
    /// The numbers of the edges that the line runs along.
    pub line: HashSet<usize>,
    pub regions: Vec<(Vec<CellIdx>, Pips)>,
    pub pip_count: Option<Pips>,
}

/// A `Puzzle` grid, with no associated solution
#[derive(Debug)]
pub struct Puzzle {
    pub verts: VertPlaces,
    pub edges: EdgeEnds,
    pub cells: PuzzleCells,
    /// The numbers of columns (`x`) and of rows (`y`).
    pub square_size: GridVec,
}

/// The cell at place `i` of region `r`.
pub open spec fn cell_at(regions: Seq<(Vec<CellIdx>, Pips)>, r: int, i: int) -> int {
    regions[r].0[i].raw as int
}

/// Whether region `r` has a place `i`.
pub open spec fn is_place(regions: Seq<(Vec<CellIdx>, Pips)>, r: int, i: int) -> bool {
    0 <= r < regions.len() && 0 <= i < regions[r].0.len()
}

/// Whether some region holds the cell `c`.
pub open spec fn placed(regions: Seq<(Vec<CellIdx>, Pips)>, c: int) -> bool {
    exists|r: int, i: int| is_place(regions, r, i) && #[trigger] cell_at(regions, r, i) == c
}

/// Whether two of the regions have pips, and not the same number of them.
pub open spec fn disagree(regions: Seq<(Vec<CellIdx>, Pips)>) -> bool {
    exists|i: int, j: int|
        0 <= i < regions.len() && 0 <= j < regions.len() && (#[trigger] regions[i]).1.0 > 0 && (
        #[trigger] regions[j]).1.0 > 0 && regions[i].1.0 != regions[j].1.0
}

/// Whether every region has no pips or `p` of them, and `p` is zero only
/// where no region has pips.
pub open spec fn is_common_count(regions: Seq<(Vec<CellIdx>, Pips)>, p: Pips) -> bool {
    &&& forall|i: int| 0 <= i < regions.len() ==> (#[trigger] regions[i]).1.0 == 0 || regions[i].1 == p
    &&& p.0 > 0 ==> exists|i: int| 0 <= i < regions.len() && (#[trigger] regions[i]).1 == p
}

/// The cells of a list, as a set.
pub open spec fn cell_set(cells: Seq<CellIdx>) -> Set<int> {
    Set::new(|c: int| exists|i: int| 0 <= i < cells.len() && (#[trigger] cells[i]).raw == c)
}

/// The number of cells below `n` that are not marked.
pub open spec fn unmarked_count(marks: Seq<bool>, n: int) -> nat
    decreases n,
{
    if n <= 0 {
        0
    } else {
        unmarked_count(marks, n - 1) + if marks[n - 1] {
            0nat
        } else {
            1nat
        }
    }
}

proof fn lemma_unmarked_agree(a: Seq<bool>, b: Seq<bool>, n: int)
    requires
        forall|c: int| 0 <= c < n ==> a[c] == b[c],
    ensures
        unmarked_count(a, n) == unmarked_count(b, n),
    decreases n,
{
    if n > 0 {
        lemma_unmarked_agree(a, b, n - 1);
    }
}

proof fn lemma_mark_decreases(marks: Seq<bool>, c: int, n: int)
    requires
        0 <= c < n <= marks.len(),
        !marks[c],
    ensures
        unmarked_count(marks.update(c, true), n) + 1 == unmarked_count(marks, n),
    decreases n,
{
    if n - 1 == c {
        lemma_unmarked_agree(marks.update(c, true), marks, n - 1);
    } else {
        lemma_mark_decreases(marks, c, n - 1);
    }
}

/// Whether the cell `d` is somewhere in the list.
pub open spec fn listed(cells: Seq<CellIdx>, d: int) -> bool {
    exists|f: int| 0 <= f < cells.len() && (#[trigger] cells[f]).raw == d
}

impl Puzzle {
    /// The pips of each cell.
    pub open spec fn pip_counts(&self) -> Seq<usize> {
        Seq::new(self.cells@.len(), |c: int| self.cells@[c].pips.0)
    }

    /// The pips of the cells of `region` together.
    pub open spec fn region_pips(&self, region: Set<int>) -> int {
        crate::grid::pips_within(self.pip_counts(), region, self.cells@.len() as int)
    }

    /// The neighbour at place `k` of cell `c`: the edge between the two, and
    /// the cell behind it.
    pub open spec fn neighbour(&self, c: int, k: int) -> (EdgeIdx, CellIdx) {
        self.cells@[c].neighbours[k]
    }

    /// Whether cell `c` has a neighbour at place `k`.
    pub open spec fn has_neighbour(&self, c: int, k: int) -> bool {
        0 <= c < self.cells@.len() && 0 <= k < self.cells@[c].neighbours.len()
    }

    /// Whether one can go from cell `c` to cell `d` over an edge that is not
    /// part of `line`.
    pub open spec fn step(&self, line: Set<usize>, c: int, d: int) -> bool {
        exists|k: int| #[trigger]
            self.has_neighbour(c, k) && self.neighbour(c, k).1.raw == d && !line.contains(
                self.neighbour(c, k).0.raw,
            )
    }

    /// Whether `path` leads from `from` to `to` by steps that never cross
    /// `line`.
    pub open spec fn is_walk(&self, line: Set<usize>, path: Seq<int>, from: int, to: int) -> bool {
        &&& path.len() > 0
        &&& path[0] == from
        &&& path.last() == to
        &&& forall|i: int|
            0 <= i < path.len() - 1 ==> self.step(line, path[i], #[trigger] path[i + 1])
    }

    /// Whether one can go from `from` to `to` without crossing `line`.
    pub open spec fn linked(&self, line: Set<usize>, from: int, to: int) -> bool {
        exists|path: Seq<int>| self.is_walk(line, path, from, to)
    }

    /// What holds of every puzzle: the neighbours of its cells are cells of
    /// it; a cell is a neighbour of each of its neighbours, over the same
    /// edge; and the number of all its pips is a machine number.
    pub open spec fn wf(&self) -> bool {
        &&& forall|c: int, k: int| #[trigger]
            self.has_neighbour(c, k) ==> self.neighbour(c, k).1.raw < self.cells@.len()
        &&& forall|c: int, k: int| #[trigger]
            self.has_neighbour(c, k) ==> exists|j: int| #[trigger]
                self.has_neighbour(self.neighbour(c, k).1.raw as int, j) && self.neighbour(
                    self.neighbour(c, k).1.raw as int,
                    j,
                ) == (self.neighbour(c, k).0, CellIdx { raw: c as usize })
        &&& self.region_pips(Set::<int>::full()) <= usize::MAX
        &&& self.cells@.len() <= usize::MAX
    }

    /// Whether each of `regions` is a region of the puzzle under `line`, and
    /// no two of them share a cell: a region is its first cell with all the
    /// cells that one can go to from there without crossing the line; it
    /// comes with the number of its pips; its first cell is its lowest, and
    /// the regions stand in the order of their first cells.
    pub open spec fn are_regions(&self, line: Set<usize>, regions: Seq<(Vec<CellIdx>, Pips)>) -> bool {
        &&& forall|r: int| 0 <= r < regions.len() ==> (#[trigger] regions[r]).0.len() > 0
        &&& forall|r: int, i: int|
            is_place(regions, r, i) ==> 0 <= #[trigger] cell_at(regions, r, i) < self.cells@.len()
        &&& forall|r: int, i: int, q: int, j: int|
            is_place(regions, r, i) && is_place(regions, q, j) && #[trigger] cell_at(regions, r, i)
                == #[trigger] cell_at(regions, q, j) ==> r == q && i == j
        &&& forall|r: int, i: int|
            is_place(regions, r, i) ==> self.linked(
                line,
                cell_at(regions, r, 0),
                #[trigger] cell_at(regions, r, i),
            )
        &&& forall|r: int, i: int, d: int|
            is_place(regions, r, i) && #[trigger] self.step(line, cell_at(regions, r, i), d)
                ==> listed(regions[r].0@, d)
        &&& forall|r: int|
            0 <= r < regions.len() ==> (#[trigger] regions[r]).1.0 == self.region_pips(
                cell_set(regions[r].0@),
            )
        &&& forall|r: int, i: int|
            is_place(regions, r, i) ==> cell_at(regions, r, 0) <= #[trigger] cell_at(regions, r, i)
        &&& forall|r: int, q: int|
            0 <= r < q < regions.len() ==> #[trigger] cell_at(regions, r, 0) < #[trigger] cell_at(
                regions,
                q,
                0,
            )
    }

    /// Whether `regions` is what `line` splits the puzzle into: they are
    /// regions of the puzzle, and every cell is in one of them.
    pub open spec fn is_split(&self, line: Set<usize>, regions: Seq<(Vec<CellIdx>, Pips)>) -> bool {
        &&& self.are_regions(line, regions)
        &&& forall|c: int| 0 <= c < self.cells@.len() ==> placed(regions, c)
    }

    /// If the puzzle is correctly solved, return `Some(p)` so that every region contains either
    /// 0 or `p` pips.  If the puzzle isn't correctly solved, return `None`.
    pub fn solution_number(&self, regions: &[(Vec<CellIdx>, Pips)]) -> (r: Option<Pips>)
        ensures
            r is None <==> disagree(regions@),
            r matches Some(p) ==> is_common_count(regions@, p),
    {
        let mut first_count = Pips::zero();
        let mut i: usize = 0;
        while i < regions.len()
            invariant
                i <= regions.len(),
                forall|k: int|
                    0 <= k < i ==> (#[trigger] regions@[k]).1.0 == 0 || regions@[k].1
                        == first_count,
                first_count.0 > 0 ==> exists|k: int|
                    0 <= k < i && (#[trigger] regions@[k]).1 == first_count,
            decreases regions.len() - i,
        {
            let pip_count = regions[i].1;
            if pip_count.0 > 0 {
                if first_count.0 == 0 {
                    first_count = pip_count;
                } else if pip_count.0 != first_count.0 {
                    proof {
                        let k = choose|k: int|
                            0 <= k < i && (#[trigger] regions@[k]).1 == first_count;
                        assert(regions@[k].1.0 > 0 && regions@[i as int].1.0 > 0 && regions@[k].1.0
                            != regions@[i as int].1.0);
                    }
                    return None;  // Some region had a different pip count to the others
                }
            }
            i += 1;
        }
        Some(first_count)  // If all non-zero regions have the same count, the puzzle is solved
    }

    /// A step can be taken back.
    pub proof fn lemma_step_back(&self, line: Set<usize>, c: int, d: int)
        requires
            self.wf(),
            self.step(line, c, d),
        ensures
            self.step(line, d, c),
            0 <= c < self.cells@.len(),
            0 <= d < self.cells@.len(),
    {
        let k = choose|k: int| #[trigger]
            self.has_neighbour(c, k) && self.neighbour(c, k).1.raw == d && !line.contains(
                self.neighbour(c, k).0.raw,
            );
        let j = choose|j: int| #[trigger]
            self.has_neighbour(self.neighbour(c, k).1.raw as int, j) && self.neighbour(
                self.neighbour(c, k).1.raw as int,
                j,
            ) == (self.neighbour(c, k).0, CellIdx { raw: c as usize });
        assert(self.has_neighbour(d, j) && self.neighbour(d, j).1.raw == c && !line.contains(
            self.neighbour(d, j).0.raw,
        ));
    }

    /// A walk can go one step further.
    pub proof fn lemma_walk_on(&self, line: Set<usize>, from: int, to: int, next: int)
        requires
            self.linked(line, from, to),
            self.step(line, to, next),
        ensures
            self.linked(line, from, next),
    {
        let path = choose|path: Seq<int>| self.is_walk(line, path, from, to);
        let longer = path.push(next);
        assert forall|i: int| 0 <= i < longer.len() - 1 implies self.step(
            line,
            longer[i],
            #[trigger] longer[i + 1],
        ) by {
            if i < path.len() - 1 {
                assert(longer[i] == path[i]);
                assert(longer[i + 1] == path[i + 1]);
            }
        }
        assert(self.is_walk(line, longer, from, next));
    }

    /// A walk can be gone back.
    pub proof fn lemma_walk_back(&self, line: Set<usize>, from: int, to: int)
        requires
            self.wf(),
            self.linked(line, from, to),
        ensures
            self.linked(line, to, from),
    {
        let path = choose|path: Seq<int>| self.is_walk(line, path, from, to);
        let back = path.reverse();
        assert forall|i: int| 0 <= i < back.len() - 1 implies self.step(
            line,
            back[i],
            #[trigger] back[i + 1],
        ) by {
            let k = path.len() - 2 - i;
            assert(back[i] == path[k + 1]);
            assert(back[i + 1] == path[k]);
            assert(self.step(line, path[k], path[k + 1]));
            self.lemma_step_back(line, path[k], path[k + 1]);
        }
        assert(back[0] == path[path.len() - 1]);
        assert(back[back.len() - 1] == path[0]);
        assert(self.is_walk(line, back, to, from));
    }

    /// Two walks, one after the other, are a walk.
    pub proof fn lemma_walk_join(&self, line: Set<usize>, from: int, over: int, to: int)
        requires
            self.linked(line, from, over),
            self.linked(line, over, to),
        ensures
            self.linked(line, from, to),
    {
        let first = choose|path: Seq<int>| self.is_walk(line, path, from, over);
        let second = choose|path: Seq<int>| self.is_walk(line, path, over, to);
        let whole = first + second.drop_first();
        assert forall|i: int| 0 <= i < whole.len() - 1 implies self.step(
            line,
            whole[i],
            #[trigger] whole[i + 1],
        ) by {
            if i + 1 < first.len() {
                assert(whole[i] == first[i]);
                assert(whole[i + 1] == first[i + 1]);
            } else {
                let k = i + 1 - first.len();
                assert(whole[i + 1] == second[k + 1]);
                if k == 0 {
                    assert(whole[i] == first[first.len() - 1]);
                    assert(second[0] == over);
                } else {
                    assert(whole[i] == second[k]);
                }
                assert(self.step(line, second[k], second[k + 1]));
            }
        }
        if second.len() == 1 {
            assert(whole =~= first);
        } else {
            assert(whole[whole.len() - 1] == second[second.len() - 1]);
        }
        assert(whole[0] == first[0]);
        assert(self.is_walk(line, whole, from, to));
    }

    /// A walk that starts in a region ends in it.
    proof fn lemma_walk_stays(
        &self,
        line: Set<usize>,
        regions: Seq<(Vec<CellIdx>, Pips)>,
        r: int,
        path: Seq<int>,
        upto: int,
    )
        requires
            self.wf(),
            self.are_regions(line, regions),
            0 <= r < regions.len(),
            path.len() > 0,
            listed(regions[r].0@, path[0]),
            forall|i: int|
                0 <= i < path.len() - 1 ==> self.step(line, path[i], #[trigger] path[i + 1]),
            0 <= upto < path.len(),
        ensures
            listed(regions[r].0@, path[upto]),
        decreases upto,
    {
        if upto > 0 {
            self.lemma_walk_stays(line, regions, r, path, upto - 1);
            let i = choose|i: int|
                0 <= i < regions[r].0@.len() && (#[trigger] regions[r].0@[i]).raw == path[upto - 1];
            assert(is_place(regions, r, i));
            assert(cell_at(regions, r, i) == path[upto - 1]);
            assert(self.step(line, path[upto - 1], path[upto - 1 + 1]));
        }
    }

    /// The regions are the parts into which the line cuts the puzzle: from
    /// a cell of a region one can go, without crossing the line, to the
    /// cells of that region and to no others.
    pub proof fn law_regions_are_parts(
        &self,
        line: Set<usize>,
        regions: Seq<(Vec<CellIdx>, Pips)>,
        r: int,
        i: int,
        other: int,
    )
        requires
            self.wf(),
            self.are_regions(line, regions),
            is_place(regions, r, i),
        ensures
            self.linked(line, cell_at(regions, r, i), other) <==> listed(regions[r].0@, other),
    {
        let cell = cell_at(regions, r, i);
        let first = cell_at(regions, r, 0);
        assert(regions[r].0@[i].raw == cell);
        assert(listed(regions[r].0@, cell));
        if self.linked(line, cell, other) {
            let path = choose|path: Seq<int>| self.is_walk(line, path, cell, other);
            self.lemma_walk_stays(line, regions, r, path, path.len() - 1);
        }
        if listed(regions[r].0@, other) {
            let j = choose|j: int|
                0 <= j < regions[r].0@.len() && (#[trigger] regions[r].0@[j]).raw == other;
            assert(is_place(regions, r, j));
            assert(cell_at(regions, r, j) == other);
            assert(self.linked(line, first, cell));
            assert(self.linked(line, first, other));
            self.lemma_walk_back(line, first, cell);
            self.lemma_walk_join(line, cell, first, other);
        }
    }

    /// Collects the cells that one can go to from `start` without crossing
    /// `line`, marks them, and counts their pips.
    fn grow_region(&self, line: &HashSet<usize>, start: CellIdx, assigned: &mut Vec<bool>) -> (region:
        (Vec<CellIdx>, Pips))
        requires
            self.wf(),
            old(assigned).len() == self.cells@.len(),
            start.raw < self.cells@.len(),
            !old(assigned)[start.raw as int],
            forall|c: int, d: int|
                0 <= c < self.cells@.len() && old(assigned)[c] && #[trigger] self.step(line@, c, d)
                    ==> old(assigned)[d],
        ensures
            final(assigned).len() == self.cells@.len(),
            region.0.len() > 0,
            region.0[0] == start,
            forall|i: int|
                0 <= i < region.0.len() ==> (#[trigger] region.0[i]).raw < self.cells@.len() && !old(
                    assigned,
                )[region.0[i].raw as int] && self.linked(line@, start.raw as int, region.0[i].raw as int),
            forall|i: int, j: int|
                0 <= i < j < region.0.len() ==> (#[trigger] region.0[i]) != (#[trigger] region.0[j]),
            forall|c: int|
                0 <= c < self.cells@.len() ==> (#[trigger] final(assigned)[c] <==> old(assigned)[c]
                    || listed(region.0@, c)),
            forall|i: int, d: int|
                0 <= i < region.0.len() && #[trigger] self.step(line@, region.0[i].raw as int, d)
                    ==> listed(region.0@, d),
            region.1.0 == self.region_pips(cell_set(region.0@)),
    {
        broadcast use vstd::std_specs::hash::group_hash_axioms;

        let ghost before = assigned@;
        let ghost counts = self.pip_counts();
        let n = self.cells.len();
        let mut cells_in_region: Vec<CellIdx> = Vec::new();
        let mut total_pips = Pips::zero();
        let mut frontier: Vec<CellIdx> = Vec::new();
        frontier.push(start);
        proof {
            assert(self.is_walk(line@, seq![start.raw as int], start.raw as int, start.raw as int));
            assert(cell_set(cells_in_region@) =~= Set::<int>::empty());
            crate::grid::lemma_pips_agree(
                counts,
                cell_set(cells_in_region@),
                Set::<int>::empty(),
                n as int,
            );
            lemma_no_pips(counts, n as int);
        }
        while frontier.len() > 0
            invariant
                self.wf(),
                n == self.cells@.len(),
                counts == self.pip_counts(),
                before == old(assigned)@,
                assigned.len() == n,
                start.raw < n,
                !before[start.raw as int],
                forall|c: int, d: int|
                    0 <= c < n && before[c] && #[trigger] self.step(line@, c, d) ==> before[d],
                forall|f: int|
                    0 <= f < frontier.len() ==> (#[trigger] frontier[f]).raw < n && self.linked(
                        line@,
                        start.raw as int,
                        frontier[f].raw as int,
                    ),
                forall|i: int|
                    0 <= i < cells_in_region.len() ==> (#[trigger] cells_in_region[i]).raw < n
                        && !before[cells_in_region[i].raw as int] && self.linked(
                        line@,
                        start.raw as int,
                        cells_in_region[i].raw as int,
                    ),
                forall|i: int, j: int|
                    0 <= i < j < cells_in_region.len() ==> (#[trigger] cells_in_region[i]) != (
                    #[trigger] cells_in_region[j]),
                forall|c: int|
                    0 <= c < n ==> (#[trigger] assigned[c] <==> before[c] || listed(
                        cells_in_region@,
                        c,
                    )),
                forall|i: int, d: int|
                    0 <= i < cells_in_region.len() && #[trigger] self.step(
                        line@,
                        cells_in_region[i].raw as int,
                        d,
                    ) ==> assigned[d] || listed(frontier@, d),
                cells_in_region.len() == 0 ==> frontier.len() == 1 && frontier[0] == start,
                cells_in_region.len() > 0 ==> cells_in_region[0] == start,
                total_pips.0 == self.region_pips(cell_set(cells_in_region@)),
            decreases unmarked_count(assigned@, n as int), frontier.len(),
        {
            let ghost stack = frontier@;
            let cell_idx = frontier.pop().unwrap();
            proof {
                assert(stack[stack.len() - 1] == cell_idx);
                assert forall|d: int| listed(stack, d) implies d == cell_idx.raw || listed(
                    frontier@,
                    d,
                ) by {
                    let f = choose|f: int| 0 <= f < stack.len() && (#[trigger] stack[f]).raw == d;
                    if f < stack.len() - 1 {
                        assert(frontier@[f].raw == d);
                    }
                }
            }
            if !assigned[cell_idx.index()] {
                let ghost marks = assigned@;
                let ghost members = cells_in_region@;
                assigned.set(cell_idx.index(), true);
                cells_in_region.push(cell_idx);
                proof {
                    lemma_mark_decreases(marks, cell_idx.raw as int, n as int);
                    assert(!listed(members, cell_idx.raw as int));
                    assert(cell_set(cells_in_region@) =~= cell_set(members).insert(cell_idx.raw as int))
                        by {
                        assert forall|c: int|
                            cell_set(cells_in_region@).contains(c) <==> cell_set(members).insert(
                                cell_idx.raw as int,
                            ).contains(c) by {
                            if cell_set(members).contains(c) {
                                let i = choose|i: int| 0 <= i < members.len() && (#[trigger] members[i]).raw == c;
                                assert(cells_in_region@[i].raw == c);
                            }
                            if c == cell_idx.raw {
                                assert(cells_in_region@[members.len() as int].raw == c);
                            }
                            if cell_set(cells_in_region@).contains(c) {
                                let i = choose|i: int|
                                    0 <= i < cells_in_region@.len() && (#[trigger] cells_in_region@[i]).raw == c;
                                if i < members.len() {
                                    assert(members[i].raw == c);
                                }
                            }
                        }
                    }
                    assert(!cell_set(members).contains(cell_idx.raw as int)) by {
                        if cell_set(members).contains(cell_idx.raw as int) {
                            let i = choose|i: int|
                                0 <= i < members.len() && (#[trigger] members[i]).raw == cell_idx.raw as int;
                            assert(listed(members, cell_idx.raw as int));
                        }
                    }
                    crate::grid::lemma_pips_insert(
                        counts,
                        cell_set(members),
                        cell_idx.raw as int,
                        n as int,
                    );
                    crate::grid::lemma_pips_monotone(
                        counts,
                        cell_set(cells_in_region@),
                        Set::<int>::full(),
                        n as int,
                    );
                    assert forall|c: int| 0 <= c < n implies (#[trigger] assigned[c] <==> before[c]
                        || listed(cells_in_region@, c)) by {
                        if listed(members, c) {
                            let i = choose|i: int| 0 <= i < members.len() && (#[trigger] members[i]).raw == c;
                            assert(cells_in_region@[i].raw == c);
                        }
                        if c == cell_idx.raw {
                            assert(cells_in_region@[members.len() as int].raw == c);
                        }
                        if listed(cells_in_region@, c) {
                            let i = choose|i: int|
                                0 <= i < cells_in_region@.len() && (#[trigger] cells_in_region@[i]).raw == c;
                            if i < members.len() {
                                assert(members[i].raw == c);
                            }
                        }
                    }
                }
                total_pips = total_pips.add(self.cells.get(cell_idx).pips);
                let mut k: usize = 0;
                while k < self.cells.get(cell_idx).neighbours.len()
                    invariant
                        self.wf(),
                        n == self.cells@.len(),
                        cell_idx.raw < n,
                        k <= self.cells@[cell_idx.raw as int].neighbours.len(),
                        self.linked(line@, start.raw as int, cell_idx.raw as int),
                        assigned.len() == n,
                        forall|f: int|
                            0 <= f < frontier.len() ==> (#[trigger] frontier[f]).raw < n
                                && self.linked(line@, start.raw as int, frontier[f].raw as int),
                        forall|d: int| listed(stack, d) ==> d == cell_idx.raw || listed(frontier@, d),
                        forall|j: int|
                            0 <= j < k && !line@.contains(self.neighbour(cell_idx.raw as int, j).0.raw)
                                ==> listed(
                                frontier@,
                                (#[trigger] self.neighbour(cell_idx.raw as int, j)).1.raw as int,
                            ),
                    decreases self.cells@[cell_idx.raw as int].neighbours.len() - k,
                {
                    let ghost pile = frontier@;
                    let pair = self.cells.get(cell_idx).neighbours[k];
                    let edge = pair.0;
                    let neighbour = pair.1;
                    proof {
                        assert(self.has_neighbour(cell_idx.raw as int, k as int));
                        assert(self.neighbour(cell_idx.raw as int, k as int) == pair);
                    }
                    if !line.contains(&edge.index()) {
                        proof {
                            assert(self.step(line@, cell_idx.raw as int, neighbour.raw as int));
                            self.lemma_walk_on(
                                line@,
                                start.raw as int,
                                cell_idx.raw as int,
                                neighbour.raw as int,
                            );
                        }
                        frontier.push(neighbour);
                        proof {
                            assert(frontier@[pile.len() as int] == neighbour);
                            assert(listed(frontier@, neighbour.raw as int));
                        }
                    }
                    proof {
                        assert forall|d: int| listed(pile, d) implies listed(frontier@, d) by {
                            let f = choose|f: int| 0 <= f < pile.len() && (#[trigger] pile[f]).raw == d;
                            assert(frontier@[f].raw == d);
                        }
                    }
                    k += 1;
                }
                proof {
                    assert forall|i: int, d: int|
                        0 <= i < cells_in_region.len() && #[trigger] self.step(
                            line@,
                            cells_in_region[i].raw as int,
                            d,
                        ) implies assigned[d] || listed(frontier@, d) by {
                        if i < members.len() {
                            assert(cells_in_region[i] == members[i]);
                            assert(self.step(line@, members[i].raw as int, d));
                            if !marks[d] {
                                assert(listed(stack, d));
                            }
                        } else {
                            let j = choose|j: int| #[trigger]
                                self.has_neighbour(cell_idx.raw as int, j) && self.neighbour(
                                    cell_idx.raw as int,
                                    j,
                                ).1.raw == d && !line@.contains(self.neighbour(cell_idx.raw as int, j).0.raw);
                            assert(listed(frontier@, self.neighbour(cell_idx.raw as int, j).1.raw as int));
                        }
                    }
                }
            } else {
                proof {
                    assert forall|i: int, d: int|
                        0 <= i < cells_in_region.len() && #[trigger] self.step(
                            line@,
                            cells_in_region[i].raw as int,
                            d,
                        ) implies assigned[d] || listed(frontier@, d) by {
                        if !assigned[d] {
                            assert(listed(stack, d));
                        }
                    }
                    assert(cells_in_region.len() > 0) by {
                        if cells_in_region.len() == 0 {
                            assert(cell_idx == start);
                        }
                    }
                }
            }
        }
        proof {
            assert forall|i: int, d: int|
                0 <= i < cells_in_region.len() && #[trigger] self.step(
                    line@,
                    cells_in_region[i].raw as int,
                    d,
                ) implies listed(cells_in_region@, d) by {
                self.lemma_step_back(line@, cells_in_region[i].raw as int, d);
                assert(assigned[d] || listed(frontier@, d));
                if listed(frontier@, d) {
                    let f = choose|f: int| 0 <= f < frontier@.len() && (#[trigger] frontier@[f]).raw == d;
                }
                if before[d] {
                    assert(self.step(line@, d, cells_in_region[i].raw as int));
                }
            }
        }
        (cells_in_region, total_pips)
    }

    /// Divide the cells into regions who's borders are the given `line`.
    pub fn regions(&self, line: &HashSet<usize>) -> (regions: Vec<(Vec<CellIdx>, Pips)>)
        requires
            self.wf(),
        ensures
            self.is_split(line@, regions@),
    {
        let n = self.cells.len();
        let mut assigned: Vec<bool> = Vec::new();
        while assigned.len() < n
            invariant
                assigned.len() <= n,
                forall|c: int| 0 <= c < assigned.len() ==> !(#[trigger] assigned[c]),
            decreases n - assigned.len(),
        {
            assigned.push(false);
        }
        let mut regions: Vec<(Vec<CellIdx>, Pips)> = Vec::new();
        // Repeatedly find cells that aren't already in a region ...
        let mut region_starting_cell: usize = 0;
        while region_starting_cell < n
            invariant
                self.wf(),
                n == self.cells@.len(),
                assigned.len() == n,
                region_starting_cell <= n,
                forall|c: int| 0 <= c < region_starting_cell ==> #[trigger] assigned[c],
                forall|c: int| 0 <= c < n ==> (#[trigger] assigned[c] <==> placed(regions@, c)),
                forall|c: int, d: int|
                    0 <= c < n && assigned[c] && #[trigger] self.step(line@, c, d) ==> assigned[d],
                forall|r: int|
                    0 <= r < regions.len() ==> #[trigger] cell_at(regions@, r, 0)
                        < region_starting_cell,
                self.are_regions(line@, regions@),
            decreases n - region_starting_cell,
        {
            if !assigned[region_starting_cell] {
                let ghost marks = assigned@;
                let ghost earlier = regions@;
                // ... and collect what can be reached from the `region_starting_cell`
                let region = self.grow_region(
                    line,
                    CellIdx::new(region_starting_cell),
                    &mut assigned,
                );
                let ghost members = region.0@;
                regions.push(region);
                proof {
                    let last = earlier.len() as int;
                    let all = regions@;
                    assert(all[last] == region);
                    assert forall|r: int, i: int| is_place(all, r, i) implies (if r < last {
                        is_place(earlier, r, i) && cell_at(all, r, i) == cell_at(earlier, r, i)
                    } else {
                        r == last && 0 <= i < members.len() && #[trigger] cell_at(all, r, i)
                            == members[i].raw
                    }) by {
                        if r < last {
                            assert(all[r] == earlier[r]);
                        }
                    }
                    assert forall|c: int| placed(earlier, c) implies placed(all, c) by {
                        let (r, i) = choose|r: int, i: int|
                            is_place(earlier, r, i) && #[trigger] cell_at(earlier, r, i) == c;
                        assert(all[r] == earlier[r]);
                        assert(is_place(all, r, i) && cell_at(all, r, i) == c);
                    }
                    assert forall|c: int| listed(members, c) implies placed(all, c) by {
                        let f = choose|f: int| 0 <= f < members.len() && (#[trigger] members[f]).raw == c;
                        assert(is_place(all, last, f) && cell_at(all, last, f) == c);
                    }
                    assert forall|c: int| placed(all, c) implies placed(earlier, c) || listed(
                        members,
                        c,
                    ) by {
                        let (r, i) = choose|r: int, i: int|
                            is_place(all, r, i) && #[trigger] cell_at(all, r, i) == c;
                        if r < last {
                            assert(is_place(earlier, r, i) && cell_at(earlier, r, i) == c);
                        } else {
                            assert(members[i].raw == c);
                        }
                    }
                    assert forall|r: int, i: int| is_place(all, r, i) implies 0
                        <= #[trigger] cell_at(all, r, i) < self.cells@.len() by {
                        if r < last {
                            assert(cell_at(all, r, i) == cell_at(earlier, r, i));
                        }
                    }
                    assert forall|r: int, i: int, q: int, j: int|
                        is_place(all, r, i) && is_place(all, q, j) && #[trigger] cell_at(all, r, i)
                            == #[trigger] cell_at(all, q, j) implies r == q && i == j by {
                        if r < last && q < last {
                            assert(cell_at(all, r, i) == cell_at(earlier, r, i));
                            assert(cell_at(all, q, j) == cell_at(earlier, q, j));
                        } else if r < last {
                            assert(cell_at(all, r, i) == cell_at(earlier, r, i));
                            assert(placed(earlier, cell_at(earlier, r, i)));
                            assert(marks[members[j].raw as int]);
                        } else if q < last {
                            assert(cell_at(all, q, j) == cell_at(earlier, q, j));
                            assert(placed(earlier, cell_at(earlier, q, j)));
                            assert(marks[members[i].raw as int]);
                        } else {
                            if i < j {
                                assert(members[i] != members[j]);
                            } else if j < i {
                                assert(members[j] != members[i]);
                            }
                        }
                    }
                    assert forall|r: int, i: int| is_place(all, r, i) implies self.linked(
                        line@,
                        cell_at(all, r, 0),
                        #[trigger] cell_at(all, r, i),
                    ) by {
                        if r < last {
                            assert(is_place(all, r, 0));
                            assert(cell_at(all, r, i) == cell_at(earlier, r, i));
                            assert(cell_at(all, r, 0) == cell_at(earlier, r, 0));
                        }
                    }
                    assert forall|r: int, i: int, d: int|
                        is_place(all, r, i) && #[trigger] self.step(
                            line@,
                            cell_at(all, r, i),
                            d,
                        ) implies listed(all[r].0@, d) by {
                        if r < last {
                            assert(cell_at(all, r, i) == cell_at(earlier, r, i));
                            assert(all[r] == earlier[r]);
                        } else {
                            assert(self.step(line@, members[i].raw as int, d));
                        }
                    }
                    assert forall|r: int| 0 <= r < all.len() implies (#[trigger] all[r]).1.0
                        == self.region_pips(cell_set(all[r].0@)) by {
                        if r < last {
                            assert(all[r] == earlier[r]);
                        }
                    }
                    assert forall|r: int, i: int| is_place(all, r, i) implies cell_at(all, r, 0)
                        <= #[trigger] cell_at(all, r, i) by {
                        if r < last {
                            assert(is_place(all, r, 0));
                            assert(cell_at(all, r, i) == cell_at(earlier, r, i));
                            assert(cell_at(all, r, 0) == cell_at(earlier, r, 0));
                        } else {
                            if members[i].raw < region_starting_cell {
                                assert(marks[members[i].raw as int]);
                            }
                        }
                    }
                    assert forall|r: int, q: int| 0 <= r < q < all.len() implies #[trigger] cell_at(
                        all,
                        r,
                        0,
                    ) < #[trigger] cell_at(all, q, 0) by {
                        assert(is_place(all, r, 0));
                        assert(cell_at(all, r, 0) == cell_at(earlier, r, 0));
                        if q < last {
                            assert(is_place(all, q, 0));
                            assert(cell_at(all, q, 0) == cell_at(earlier, q, 0));
                        } else {
                            assert(is_place(all, q, 0));
                        }
                    }
                    assert forall|r: int| 0 <= r < all.len() implies (#[trigger] all[r]).0.len()
                        > 0 by {
                        if r < last {
                            assert(all[r] == earlier[r]);
                        }
                    }
                    assert forall|r: int| 0 <= r < all.len() implies #[trigger] cell_at(all, r, 0)
                        < region_starting_cell + 1 by {
                        assert(is_place(all, r, 0));
                        if r < last {
                            assert(cell_at(all, r, 0) == cell_at(earlier, r, 0));
                        }
                    }
                    assert forall|c: int, d: int|
                        0 <= c < n && assigned[c] && #[trigger] self.step(
                            line@,
                            c,
                            d,
                        ) implies assigned[d] by {
                        self.lemma_step_back(line@, c, d);
                        if marks[c] {
                            assert(marks[d]);
                        } else {
                            let f = choose|f: int| 0 <= f < members.len() && (#[trigger] members[f]).raw == c;
                            assert(self.step(line@, members[f].raw as int, d));
                            assert(listed(members, d));
                        }
                    }
                    assert(listed(members, region_starting_cell as int)) by {
                        assert(members[0].raw == region_starting_cell);
                    }
                }
            }
            region_starting_cell += 1;
        }
        proof {
            assert forall|c: int| 0 <= c < self.cells@.len() implies placed(regions@, c) by {
                assert(assigned[c]);
            }
        }
        regions
    }

    /// Get the [`Solution`] defined by the given `line`.
    pub fn solution(&self, line: HashSet<usize>) -> (solution: Solution)
        requires
            self.wf(),
        ensures
            solution.line == line,
            self.is_split(line@, solution.regions@),
            solution.pip_count is None <==> disagree(solution.regions@),
            solution.pip_count matches Some(p) ==> is_common_count(solution.regions@, p),
    {
        let regions = self.regions(&line);
        let found = regions.as_slice();
        let pip_count = self.solution_number(found);
        proof {
            assert(found@ == regions@);
        }
        Solution { line, regions, pip_count }
    }

    /// The number of vertices.
    pub fn num_verts(&self) -> (n: usize)
        ensures
            n == self.verts@.len(),
    {
        self.verts.len()
    }

    /// The place of the vertex `vert`.
    pub fn vert(&self, vert: VertIdx) -> (place: GridVec)
        requires
            vert.raw < self.verts@.len(),
        ensures
            place == self.verts@[vert.raw as int],
    {
        self.verts.get(vert)
    }

    /// The number of edges.
    pub fn num_edges(&self) -> (n: usize)
        ensures
            n == self.edges@.len(),
    {
        self.edges.len()
    }

    /// The two vertices that the edge `edge` joins.
    pub fn edge(&self, edge: EdgeIdx) -> (ends: (VertIdx, VertIdx))
        requires
            edge.raw < self.edges@.len(),
        ensures
            ends == self.edges@[edge.raw as int],
    {
        self.edges.get(edge)
    }

    /// The number of cells.
    pub fn num_cells(&self) -> (n: usize)
        ensures
            n == self.cells@.len(),
    {
        self.cells.len()
    }

    /// The cell `cell`.
    pub fn cell(&self, cell: CellIdx) -> (r: &Cell)
        requires
            cell.raw < self.cells@.len(),
        ensures
            *r == self.cells@[cell.raw as int],
    {
        self.cells.get(cell)
    }

    /// Whether the puzzle has a cell for each place of a grid as large as
    /// `square_size` says, and the grid can be numbered with machine numbers.
    pub open spec fn is_grid(&self) -> bool {
        &&& fits(self.square_size.x as int, self.square_size.y as int)
        &&& self.cells@.len() == self.square_size.x * self.square_size.y
    }

    /// Whether the puzzle is the rectangular grid of `width` by `height`
    /// cells with the given pips, cell by cell in reading order: its vertices
    /// are numbered row by row, the top row of the drawing first and with
    /// the largest `y`; its edges are those of the lattice; each cell has
    /// its four corners and its neighbours, with the edge to each.
    pub open spec fn is_rectangular(&self, width: int, height: int, pips: Seq<Pips>) -> bool {
        &&& self.square_size == (GridVec { x: width as usize, y: height as usize })
        &&& self.verts@.len() == (width + 1) * (height + 1)
        &&& forall|v: int|
            0 <= v < self.verts@.len() ==> #[trigger] self.verts@[v] == (GridVec {
                x: (v % (width + 1)) as usize,
                y: (height - v / (width + 1)) as usize,
            })
        &&& are_lattice_edges(self.edges@, width, height)
        &&& self.cells@.len() == width * height
        &&& forall|c: int|
            0 <= c < self.cells@.len() ==> {
                &&& (#[trigger] self.cells@[c]).verts@ == corners(width, c % width, c / width)
                &&& self.cells@[c].neighbours@ == lattice_neighbours(
                    width,
                    height,
                    c % width,
                    c / width,
                )
                &&& self.cells@[c].pips == pips[c]
            }
    }

    /// In a rectangular grid each neighbour of a cell is a cell of the grid,
    /// and has the cell as its neighbour over the same edge.
    proof fn lemma_rectangular_neighbour(&self, width: int, height: int, pips: Seq<Pips>, c: int, k: int)
        requires
            self.is_rectangular(width, height, pips),
            fits(width, height),
            0 <= width,
            0 <= height,
            self.has_neighbour(c, k),
        ensures
            self.neighbour(c, k).1.raw < self.cells@.len(),
            exists|j: int| #[trigger]
                self.has_neighbour(self.neighbour(c, k).1.raw as int, j) && self.neighbour(
                    self.neighbour(c, k).1.raw as int,
                    j,
                ) == (self.neighbour(c, k).0, CellIdx { raw: c as usize }),
    {
        let x = c % width;
        let y = c / width;
        crate::lattice::lemma_cell_place(width, height, c);
        let around = lattice_neighbours(width, height, x, y);
        assert(self.cells@[c].neighbours@ == around);
        assert(self.neighbour(c, k) == around[k]);
        let (nx, ny) = crate::lattice::lemma_neighbour_back(width, height, x, y, k);
        let d = cell_index(width, nx, ny);
        lemma_lattice_coordinates(width, nx, ny);
        let back = (around[k].0, CellIdx { raw: c as usize });
        let behind = lattice_neighbours(width, height, nx, ny);
        assert(self.cells@[d].neighbours@ == behind);
        let j = choose|j: int| 0 <= j < behind.len() && #[trigger] behind[j] == back;
        assert(self.has_neighbour(d, j) && self.neighbour(d, j) == back);
    }

    /// A rectangular grid whose pips are a machine number is a puzzle.
    pub proof fn lemma_rectangular_wf(&self, width: int, height: int, pips: Seq<Pips>)
        requires
            self.is_rectangular(width, height, pips),
            fits(width, height),
            0 <= width,
            0 <= height,
            pips_sum(pips, width * height) <= usize::MAX,
        ensures
            self.wf(),
    {
        assert forall|c: int, k: int| #[trigger] self.has_neighbour(c, k) implies self.neighbour(
            c,
            k,
        ).1.raw < self.cells@.len() by {
            self.lemma_rectangular_neighbour(width, height, pips, c, k);
        }
        assert forall|c: int, k: int| #[trigger] self.has_neighbour(c, k) implies exists|j: int| #[trigger]
            self.has_neighbour(self.neighbour(c, k).1.raw as int, j) && self.neighbour(
                self.neighbour(c, k).1.raw as int,
                j,
            ) == (self.neighbour(c, k).0, CellIdx { raw: c as usize }) by {
            self.lemma_rectangular_neighbour(width, height, pips, c, k);
        }
        lemma_counts_are_pips(self.pip_counts(), pips, self.cells@.len() as int);
        lemma_lattice_bounds(width, height, 0, 0);
    }

    /// Make a new `Puzzle` of a rectangular grid of the given size
    pub fn rectangular(width: usize, height: usize, pips: Vec<Pips>) -> (puzzle: Puzzle)
        requires
            fits(width as int, height as int),
            pips.len() >= width * height,
            pips_sum(pips@, width * height) <= usize::MAX,
        ensures
            puzzle.is_rectangular(width as int, height as int, pips@),
            puzzle.wf(),
            puzzle.is_grid(),
    {
        proof {
            lemma_lattice_bounds(width as int, height as int, 0, 0);
        }
        // Create vertices
        let mut verts = VertPlaces::new();
        let mut y: usize = 0;
        while y < height + 1
            invariant
                fits(width as int, height as int),
                width + 1 <= usize::MAX,
                height + 1 <= usize::MAX,
                y <= height + 1,
                verts@.len() == y * (width + 1),
                forall|v: int|
                    0 <= v < verts@.len() ==> #[trigger] verts@[v] == (GridVec {
                        x: (v % (width + 1)) as usize,
                        y: (height - v / (width + 1)) as usize,
                    }),
            decreases height + 1 - y,
        {
            let mut x: usize = 0;
            while x < width + 1
                invariant
                    fits(width as int, height as int),
                    width + 1 <= usize::MAX,
                    height + 1 <= usize::MAX,
                    y < height + 1,
                    x <= width + 1,
                    verts@.len() == y * (width + 1) + x,
                    forall|v: int|
                        0 <= v < verts@.len() ==> #[trigger] verts@[v] == (GridVec {
                            x: (v % (width + 1)) as usize,
                            y: (height - v / (width + 1)) as usize,
                        }),
                decreases width + 1 - x,
            {
                proof {
                    lemma_lattice_coordinates(width as int, x as int, y as int);
                    lemma_lattice_bounds(width as int, height as int, x as int, y as int);
                }
                verts.push(GridVec { x, y: height - y });
                x += 1;
            }
            proof {
                assert((y + 1) * (width + 1) == y * (width + 1) + (width + 1)) by (nonlinear_arith);
            }
            y += 1;
        }
        proof {
            assert((height + 1) * (width + 1) == (width + 1) * (height + 1)) by (nonlinear_arith);
        }
        // Create edges
        let edges = lattice_edges(width, height);
        // Create cells
        let mut cells = PuzzleCells::new();
        let mut y: usize = 0;
        while y < height
            invariant
                fits(width as int, height as int),
                are_lattice_edges(edges@, width as int, height as int),
                pips.len() >= width * height,
                y <= height,
                cells@.len() == y * width,
                forall|c: int|
                    0 <= c < cells@.len() ==> {
                        &&& (#[trigger] cells@[c]).verts@ == corners(
                            width as int,
                            c % (width as int),
                            c / (width as int),
                        )
                        &&& cells@[c].neighbours@ == lattice_neighbours(
                            width as int,
                            height as int,
                            c % (width as int),
                            c / (width as int),
                        )
                        &&& cells@[c].pips == pips[c]
                    },
            decreases height - y,
        {
            let mut x: usize = 0;
            while x < width
                invariant
                    fits(width as int, height as int),
                    are_lattice_edges(edges@, width as int, height as int),
                    pips.len() >= width * height,
                    y < height,
                    x <= width,
                    cells@.len() == y * width + x,
                    forall|c: int|
                        0 <= c < cells@.len() ==> {
                            &&& (#[trigger] cells@[c]).verts@ == corners(
                                width as int,
                                c % (width as int),
                                c / (width as int),
                            )
                            &&& cells@[c].neighbours@ == lattice_neighbours(
                                width as int,
                                height as int,
                                c % (width as int),
                                c / (width as int),
                            )
                            &&& cells@[c].pips == pips[c]
                        },
                decreases width - x,
            {
                proof {
                    lemma_lattice_coordinates(width as int, x as int, y as int);
                    lemma_lattice_bounds(width as int, height as int, x as int, y as int);
                }
                let parts = lattice_cell(width, height, x, y, &edges);
                let cell_pips = pips[cells.len()];
                // Build cell
                cells.push(Cell { verts: parts.0, neighbours: parts.1, pips: cell_pips });
                x += 1;
            }
            proof {
                assert((y + 1) * width == y * width + width) by (nonlinear_arith);
            }
            y += 1;
        }
        proof {
            assert(height * width == width * height) by (nonlinear_arith);
        }
        let puzzle = Puzzle { verts, edges, cells, square_size: GridVec { x: width, y: height } };
        proof {
            puzzle.lemma_rectangular_wf(width as int, height as int, pips@);
        }
        puzzle
    }

    /// Load a puzzle from a string.  The index of the first '|' indicates the width, and every
    /// other character represents a cell.  All lines are expected to be delimited by '|'s.
    ///
    /// For example, `" 2 |1 1|212"` generates a grid like:
    /// ```text
    /// +   +   +   +
    ///       2
    /// +   +   +   +
    ///   1       1
    /// +   +   +   +
    ///   2   1   2
    /// +   +   +   +
    /// ```
    pub fn from_single_line(line: &str) -> (r: Result<Puzzle, MalformedLayoutError>)
        ensures
            match r {
                Ok(puzzle) => {
                    &&& single_line_error(line@) is None
                    &&& layout_pips(line@, ' ').len() == layout_width(line@) * layout_height(line@)
                    &&& puzzle.square_size.x == layout_width(line@)
                    &&& puzzle.square_size.y == layout_height(line@)
                    &&& puzzle.is_grid()
                    &&& puzzle.is_rectangular(
                        layout_width(line@),
                        layout_height(line@),
                        as_pips(layout_pips(line@, ' ')),
                    )
                    &&& puzzle.wf()
                },
                Err(e) => single_line_error(line@) == Some(e),
            },
    {
        let layout = match parse_layout(line, CELL_WITHOUT_PIPS) {
            Ok(layout) => layout,
            Err(e) => {
                return Err(e);
            },
        };
        if !has_room(layout.width, layout.height) {
            return Err(MalformedLayoutError::TooLarge);
        }
        // Read pip counts
        let mut pips_in_each_cell: Vec<Pips> = Vec::new();
        let mut i: usize = 0;
        while i < layout.pips.len()
            invariant
                i <= layout.pips.len(),
                pips_in_each_cell.len() == i,
                forall|c: int|
                    0 <= c < layout.pips.len() ==> #[trigger] layout.pips[c]
                        <= crate::layout::MAX_PIPS_PER_CELL,
                forall|c: int| 0 <= c < i ==> #[trigger] pips_in_each_cell[c] == Pips(layout.pips[c]),
                pips_sum(pips_in_each_cell@, i as int) <= 9 * i,
            decreases layout.pips.len() - i,
        {
            let ghost before = pips_in_each_cell@;
            pips_in_each_cell.push(Pips(layout.pips[i]));
            proof {
                lemma_pips_sum_agrees(before, pips_in_each_cell@, i as int);
            }
            i += 1;
        }
        proof {
            assert(pips_in_each_cell@ =~= as_pips(layout.pips@));
        }
        Ok(Self::rectangular(layout.width, layout.height, pips_in_each_cell))
    }
}

/// The character of a cell without pips in a puzzle's layout.
pub const CELL_WITHOUT_PIPS: char = ' ';

/// The numbers as pips.
pub open spec fn as_pips(counts: Seq<usize>) -> Seq<Pips> {
    Seq::new(counts.len(), |c: int| Pips(counts[c]))
}

/// Whether a grid of this size and all its pips can be counted with machine
/// numbers.
pub open spec fn has_room_for(width: int, height: int) -> bool {
    fits(width, height) && crate::layout::MAX_PIPS_PER_CELL * (width * height) <= usize::MAX
}

/// What is wrong with the layout of a puzzle, if anything: a fault of the
/// layout as such, or a grid too large to be numbered.
pub open spec fn single_line_error(s: Seq<char>) -> Option<MalformedLayoutError> {
    if layout_fault(s, ' ') is Some {
        layout_fault(s, ' ')
    } else if !has_room_for(layout_width(s), layout_height(s)) {
        Some(MalformedLayoutError::TooLarge)
    } else {
        None
    }
}

/// Whether a grid of this size and all its pips can be counted with machine
/// numbers.
pub fn has_room(width: usize, height: usize) -> (b: bool)
    ensures
        b == has_room_for(width as int, height as int),
{
    let columns = match width.checked_add(1) {
        Some(n) => n,
        None => {
            proof {
                assert(width + 1 <= (width + 1) * (height + 1)) by (nonlinear_arith);
            }
            return false;
        },
    };
    let rows = match height.checked_add(1) {
        Some(n) => n,
        None => {
            proof {
                assert(height + 1 <= (width + 1) * (height + 1)) by (nonlinear_arith);
            }
            return false;
        },
    };
    let verts = match columns.checked_mul(rows) {
        Some(n) => n,
        None => {
            return false;
        },
    };
    if verts.checked_mul(2).is_none() {
        return false;
    }
    proof {
        assert(width * height <= (width + 1) * (height + 1)) by (nonlinear_arith);
    }
    let cells = width * height;
    cells.checked_mul(crate::layout::MAX_PIPS_PER_CELL).is_some()
}

proof fn lemma_pips_sum_agrees(a: Seq<Pips>, b: Seq<Pips>, n: int)
    requires
        forall|c: int| 0 <= c < n ==> a[c] == b[c],
    ensures
        pips_sum(a, n) == pips_sum(b, n),
    decreases n,
{
    if n > 0 {
        lemma_pips_sum_agrees(a, b, n - 1);
    }
}

/// The pips of all cells are the pips that the cells were given.
proof fn lemma_counts_are_pips(counts: Seq<usize>, pips: Seq<Pips>, n: int)
    requires
        0 <= n <= counts.len(),
        forall|c: int| 0 <= c < n ==> counts[c] == pips[c].0,
    ensures
        crate::grid::pips_within(counts, Set::<int>::full(), n) == pips_sum(pips, n),
    decreases n,
{
    if n > 0 {
        lemma_counts_are_pips(counts, pips, n - 1);
    }
}

proof fn lemma_no_pips(pips: Seq<usize>, n: int)
    ensures
        crate::grid::pips_within(pips, Set::<int>::empty(), n) == 0,
    decreases n,
{
    if n > 0 {
        lemma_no_pips(pips, n - 1);
    }
}

} // verus!