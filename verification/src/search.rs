//! The search itself: it grows one region cell by cell from a seed cell, and
//! reports every region that it completes and whose pips divide the puzzle's.

use crate::cell_set::cells_below;
use crate::cell_set::CellBitmap;
use crate::context::biggest_possible;
use crate::context::SolvingContext;
use crate::grid::Puzzle;
use crate::index::CellIdx;
use crate::report::capped;
use crate::report::Candidate;
use crate::report::Found;
use core::ops::{BitAnd, BitOr, BitOrAssign, Not};
use vstd::prelude::*;

verus! {

/// The side of the line on which a cell is put.
#[derive(Debug, Clone, Copy, PartialEq, Eq, Structural)]
pub enum Assignment {
    Outside,
    Inside,
}

/// A node of the search tree as sets of cells: the cells put inside the
/// region, those put outside, those that may be decided next, and the pips
/// inside.
pub struct Node {
    pub inside: Set<int>,
    pub outside: Set<int>,
    pub frontier: Set<int>,
    pub pips: int,
}

/// A node of the search tree.
#[derive(Debug, Clone, Copy, PartialEq, Eq, Structural)]
pub struct PartialSolution {
    pub inside: CellBitmap,
    pub outside: CellBitmap,
    pub expandable_cells: CellBitmap,
    pub pips_in_curr_in_region: usize,
}

impl View for PartialSolution {
    type V = Node;

    open spec fn view(&self) -> Node {
        Node {
            inside: self.inside@,
            outside: self.outside@,
            frontier: self.expandable_cells@,
            pips: self.pips_in_curr_in_region as int,
        }
    }
}

/// The cells that share an edge with `c`.
pub open spec fn neighbours(puzzle: &Puzzle, c: int) -> Set<int> {
    Set::new(|d: int| puzzle.adjacent(c, d))
}

/// Whether `c` shares an edge with a cell of `region`.
pub open spec fn touches(puzzle: &Puzzle, region: Set<int>, c: int) -> bool {
    exists|a: int| region.contains(a) && #[trigger] puzzle.adjacent(a, c)
}

/// The lowest cell of `s` from `from` up to, and without, `n`; `n` where
/// there is none.
pub open spec fn first_member(s: Set<int>, from: int, n: int) -> int
    decreases n - from,
{
    if from >= n {
        n
    } else if s.contains(from) {
        from
    } else {
        first_member(s, from + 1, n)
    }
}

/// The lowest cell of `s` below `n`, or `n` where `s` has no cell below `n`.
pub open spec fn lowest_member(s: Set<int>, n: int) -> int {
    first_member(s, 0, n)
}

/// `first_member` finds a member, and passes over none.
pub proof fn lemma_first_member(s: Set<int>, from: int, n: int)
    requires
        from <= n,
    ensures
        from <= first_member(s, from, n) <= n,
        first_member(s, from, n) < n ==> s.contains(first_member(s, from, n)),
        forall|c: int| from <= c < first_member(s, from, n) ==> !s.contains(c),
    decreases n - from,
{
    if from < n && !s.contains(from) {
        lemma_first_member(s, from + 1, n);
    }
}

/// The number of cells below `n` that `committed` does not hold.
pub open spec fn free_count(committed: Set<int>, n: int) -> nat
    decreases n,
{
    if n <= 0 {
        0
    } else {
        free_count(committed, n - 1) + if committed.contains(n - 1) {
            0nat
        } else {
            1nat
        }
    }
}

proof fn lemma_free_count_agree(a: Set<int>, b: Set<int>, n: int)
    requires
        forall|c: int| 0 <= c < n ==> a.contains(c) == b.contains(c),
    ensures
        free_count(a, n) == free_count(b, n),
    decreases n,
{
    if n > 0 {
        lemma_free_count_agree(a, b, n - 1);
    }
}

/// Committing a free cell leaves one free cell fewer.
pub proof fn lemma_free_count_insert(committed: Set<int>, c: int, n: int)
    requires
        0 <= c < n,
        !committed.contains(c),
    ensures
        free_count(committed, n) == free_count(committed.insert(c), n) + 1,
    decreases n,
{
    if n - 1 == c {
        lemma_free_count_agree(committed, committed.insert(c), n - 1);
    } else {
        lemma_free_count_insert(committed, c, n - 1);
    }
}

/// The node at which the search for the regions with lowest cell `seed`
/// starts: the seed is inside, every cell below it is outside, and the seed's
/// other neighbours may be decided.
pub open spec fn root(puzzle: &Puzzle, seed: int) -> Node {
    Node {
        inside: set![seed],
        outside: cells_below(seed),
        frontier: neighbours(puzzle, seed).difference(cells_below(seed)),
        pips: puzzle.pip_count_per_cell@[seed] as int,
    }
}

/// The node after cell `c` has joined the region: the neighbours of `c` that
/// are on neither side yet may now be decided too.
pub open spec fn commit_inside(puzzle: &Puzzle, node: Node, c: int) -> Node {
    Node {
        inside: node.inside.insert(c),
        outside: node.outside,
        frontier: node.frontier.remove(c).union(
            neighbours(puzzle, c).difference(node.inside.insert(c).union(node.outside)),
        ),
        pips: node.pips + puzzle.pip_count_per_cell@[c],
    }
}

/// The node after cell `c` has been kept out of the region.
pub open spec fn commit_outside(node: Node, c: int) -> Node {
    Node {
        inside: node.inside,
        outside: node.outside.insert(c),
        frontier: node.frontier.remove(c),
        pips: node.pips,
    }
}

/// Whether no cell of the node is left to decide.
pub open spec fn is_closed(puzzle: &Puzzle, node: Node) -> bool {
    lowest_member(node.frontier, puzzle.cells()) == puzzle.cells()
}

/// The cell that the search decides next at an open node: the lowest that
/// may be decided.
pub open spec fn next_cell(puzzle: &Puzzle, node: Node) -> int {
    lowest_member(node.frontier, puzzle.cells())
}

/// Whether a completed region with `pips` pips is reported: it has pips, and
/// their number divides that of the whole puzzle.
pub open spec fn emits(total: int, pips: int) -> bool {
    pips != 0 && total % pips == 0
}

/// Whether every cell that may be decided is a cell of the grid and on
/// neither side yet.
pub open spec fn frontier_is_free(puzzle: &Puzzle, node: Node) -> bool {
    forall|c: int| #[trigger]
        node.frontier.contains(c) ==> 0 <= c < puzzle.cells() && !node.inside.contains(c)
            && !node.outside.contains(c)
}

/// The candidates that the search below `node` reports, in their order, where
/// no region may carry more than `bound` pips: none where the node's region
/// carries more already, the region itself at a closed node if its pips
/// divide the puzzle's, and at an open node first those with the next cell
/// inside, then those with it outside.
pub open spec fn results(puzzle: &Puzzle, bound: int, node: Node) -> Seq<Found>
    decreases free_count(node.inside.union(node.outside), puzzle.cells()),
    when frontier_is_free(puzzle, node)
    via results_decreases
{
    if node.pips > bound {
        Seq::<Found>::empty()
    } else if is_closed(puzzle, node) {
        if emits(puzzle.total(), node.pips) {
            seq![Found { region: node.inside, pips: node.pips }]
        } else {
            Seq::<Found>::empty()
        }
    } else {
        let c = next_cell(puzzle, node);
        results(puzzle, bound, commit_inside(puzzle, node, c)) + results(
            puzzle,
            bound,
            commit_outside(node, c),
        )
    }
}

#[via_fn]
proof fn results_decreases(puzzle: &Puzzle, bound: int, node: Node) {
    if node.pips <= bound && !is_closed(puzzle, node) {
        lemma_commit_decreases(puzzle, node);
    }
}

/// Either way of deciding the next cell leaves one free cell fewer.
pub proof fn lemma_commit_decreases(puzzle: &Puzzle, node: Node)
    requires
        frontier_is_free(puzzle, node),
        !is_closed(puzzle, node),
    ensures
        node.frontier.contains(next_cell(puzzle, node)),
        0 <= next_cell(puzzle, node) < puzzle.cells(),
        free_count(node.inside.union(node.outside), puzzle.cells()) == free_count(
            commit_inside(puzzle, node, next_cell(puzzle, node)).inside.union(
                commit_inside(puzzle, node, next_cell(puzzle, node)).outside,
            ),
            puzzle.cells(),
        ) + 1,
        free_count(node.inside.union(node.outside), puzzle.cells()) == free_count(
            commit_outside(node, next_cell(puzzle, node)).inside.union(
                commit_outside(node, next_cell(puzzle, node)).outside,
            ),
            puzzle.cells(),
        ) + 1,
{
    let n = puzzle.cells();
    let c = next_cell(puzzle, node);
    if n <= 0 {
        assert(first_member(node.frontier, 0, n) == n);
    }
    lemma_first_member(node.frontier, 0, n);
    let committed = node.inside.union(node.outside);
    lemma_free_count_insert(committed, c, n);
    assert(node.inside.insert(c).union(node.outside) =~= committed.insert(c));
    assert(node.inside.union(node.outside.insert(c)) =~= committed.insert(c));
}

/// Whether `path` leads from `from` to `to`, each step to a cell that shares
/// an edge with the one before, and never leaves `region`.
pub open spec fn is_path(puzzle: &Puzzle, region: Set<int>, path: Seq<int>, from: int, to: int) -> bool {
    &&& path.len() > 0
    &&& path[0] == from
    &&& path.last() == to
    &&& forall|i: int| 0 <= i < path.len() ==> region.contains(#[trigger] path[i])
    &&& forall|i: int|
        0 <= i < path.len() - 1 ==> puzzle.adjacent(path[i], #[trigger] path[i + 1])
}

/// Whether some path inside `region` leads from `from` to `to`.
pub open spec fn reachable(puzzle: &Puzzle, region: Set<int>, from: int, to: int) -> bool {
    exists|path: Seq<int>| is_path(puzzle, region, path, from, to)
}

/// Whether every cell of `region` can be reached from `seed` inside it.
pub open spec fn connected(puzzle: &Puzzle, region: Set<int>, seed: int) -> bool {
    forall|c: int| region.contains(c) ==> reachable(puzzle, region, seed, c)
}

/// What holds of every node of the search for the regions with lowest cell
/// `seed`: no cell is on both sides; the seed is inside and no cell below it
/// is, for all of them are outside; the cells that may be decided are those
/// on neither side that share an edge with the region; the region is
/// connected, and the node counts its pips.
pub open spec fn node_wf(puzzle: &Puzzle, seed: int, node: Node) -> bool {
    &&& 0 <= seed < puzzle.cells()
    &&& node.inside.contains(seed)
    &&& forall|c: int| node.inside.contains(c) ==> seed <= c < puzzle.cells()
    &&& forall|c: int| node.outside.contains(c) ==> 0 <= c < puzzle.cells()
    &&& forall|c: int| 0 <= c < seed ==> node.outside.contains(c)
    &&& forall|c: int| !(node.inside.contains(c) && node.outside.contains(c))
    &&& forall|c: int|
        node.frontier.contains(c) <==> (!node.inside.contains(c) && !node.outside.contains(c)
            && touches(puzzle, node.inside, c))
    &&& node.pips == puzzle.region_pips(node.inside)
    &&& connected(puzzle, node.inside, seed)
}

/// A well-formed node's frontier is free.
pub proof fn lemma_wf_frontier_is_free(puzzle: &Puzzle, seed: int, node: Node)
    requires
        node_wf(puzzle, seed, node),
    ensures
        frontier_is_free(puzzle, node),
{
    assert forall|c: int| #[trigger] node.frontier.contains(c) implies 0 <= c < puzzle.cells()
        && !node.inside.contains(c) && !node.outside.contains(c) by {
        assert(touches(puzzle, node.inside, c));
    }
}

/// The root of a seed's search is a well-formed node.
pub proof fn lemma_root_wf(puzzle: &Puzzle, seed: int)
    requires
        puzzle.wf(),
        0 <= seed < puzzle.cells(),
    ensures
        node_wf(puzzle, seed, root(puzzle, seed)),
{
    let node = root(puzzle, seed);
    let pips = puzzle.pip_count_per_cell@;
    assert forall|c: int|
        node.frontier.contains(c) <==> (!node.inside.contains(c) && !node.outside.contains(c)
            && touches(puzzle, node.inside, c)) by {
        if node.frontier.contains(c) {
            assert(puzzle.adjacent(seed, c));
        }
        if touches(puzzle, node.inside, c) {
            let a = choose|a: int| node.inside.contains(a) && #[trigger] puzzle.adjacent(a, c);
            assert(a == seed);
        }
    }
    crate::grid::lemma_pips_monotone(
        pips,
        Set::<int>::empty(),
        Set::<int>::empty(),
        pips.len() as int,
    );
    lemma_pips_of_nothing(pips, pips.len() as int);
    crate::grid::lemma_pips_insert(pips, Set::<int>::empty(), seed, pips.len() as int);
    assert(Set::<int>::empty().insert(seed) =~= set![seed]);
    assert forall|c: int| node.inside.contains(c) implies reachable(
        puzzle,
        node.inside,
        seed,
        c,
    ) by {
        assert(is_path(puzzle, node.inside, seq![seed], seed, c));
    }
}

proof fn lemma_pips_of_nothing(pips: Seq<usize>, n: int)
    ensures
        crate::grid::pips_within(pips, Set::<int>::empty(), n) == 0,
    decreases n,
{
    if n > 0 {
        lemma_pips_of_nothing(pips, n - 1);
    }
}

/// A path stays a path in a larger region.
pub proof fn lemma_path_in_larger_region(
    puzzle: &Puzzle,
    small: Set<int>,
    large: Set<int>,
    path: Seq<int>,
    from: int,
    to: int,
)
    requires
        is_path(puzzle, small, path, from, to),
        small.subset_of(large),
    ensures
        is_path(puzzle, large, path, from, to),
{
}

/// A path can be continued by one step to a cell of the region.
pub proof fn lemma_path_extend(
    puzzle: &Puzzle,
    region: Set<int>,
    path: Seq<int>,
    from: int,
    to: int,
    next: int,
)
    requires
        is_path(puzzle, region, path, from, to),
        puzzle.adjacent(to, next),
        region.contains(next),
    ensures
        is_path(puzzle, region, path.push(next), from, next),
{
    let longer = path.push(next);
    assert forall|i: int| 0 <= i < longer.len() - 1 implies puzzle.adjacent(
        longer[i],
        #[trigger] longer[i + 1],
    ) by {
        if i < path.len() - 1 {
            assert(longer[i] == path[i]);
            assert(longer[i + 1] == path[i + 1]);
        }
    }
}

/// Putting a cell of the frontier inside leaves a well-formed node.
pub proof fn lemma_commit_inside_wf(puzzle: &Puzzle, seed: int, node: Node, c: int)
    requires
        puzzle.wf(),
        node_wf(puzzle, seed, node),
        node.frontier.contains(c),
    ensures
        node_wf(puzzle, seed, commit_inside(puzzle, node, c)),
{
    let child = commit_inside(puzzle, node, c);
    let pips = puzzle.pip_count_per_cell@;
    assert(touches(puzzle, node.inside, c));
    let a = choose|a: int| node.inside.contains(a) && #[trigger] puzzle.adjacent(a, c);
    assert(0 <= c < puzzle.cells());
    assert(c >= seed) by {
        if c < seed {
            assert(node.outside.contains(c));
        }
    }
    assert forall|d: int|
        child.frontier.contains(d) <==> (!child.inside.contains(d) && !child.outside.contains(d)
            && touches(puzzle, child.inside, d)) by {
        if child.frontier.contains(d) {
            if node.frontier.contains(d) && d != c {
                assert(touches(puzzle, node.inside, d));
                let b = choose|b: int| node.inside.contains(b) && #[trigger] puzzle.adjacent(b, d);
                assert(child.inside.contains(b) && puzzle.adjacent(b, d));
            } else {
                assert(child.inside.contains(c) && puzzle.adjacent(c, d));
            }
        }
        if !child.inside.contains(d) && !child.outside.contains(d) && touches(
            puzzle,
            child.inside,
            d,
        ) {
            let b = choose|b: int| child.inside.contains(b) && #[trigger] puzzle.adjacent(b, d);
            if b == c {
                assert(neighbours(puzzle, c).contains(d));
            } else {
                assert(node.inside.contains(b) && puzzle.adjacent(b, d));
                assert(touches(puzzle, node.inside, d));
            }
        }
    }
    crate::grid::lemma_pips_insert(pips, node.inside, c, pips.len() as int);
    assert forall|d: int| child.inside.contains(d) implies reachable(
        puzzle,
        child.inside,
        seed,
        d,
    ) by {
        if d == c {
            assert(reachable(puzzle, node.inside, seed, a));
            let path = choose|path: Seq<int>| is_path(puzzle, node.inside, path, seed, a);
            lemma_path_in_larger_region(puzzle, node.inside, child.inside, path, seed, a);
            lemma_path_extend(puzzle, child.inside, path, seed, a, c);
        } else {
            assert(reachable(puzzle, node.inside, seed, d));
            let path = choose|path: Seq<int>| is_path(puzzle, node.inside, path, seed, d);
            lemma_path_in_larger_region(puzzle, node.inside, child.inside, path, seed, d);
        }
    }
}

/// Putting a cell of the frontier outside leaves a well-formed node.
pub proof fn lemma_commit_outside_wf(puzzle: &Puzzle, seed: int, node: Node, c: int)
    requires
        puzzle.wf(),
        node_wf(puzzle, seed, node),
        node.frontier.contains(c),
    ensures
        node_wf(puzzle, seed, commit_outside(node, c)),
{
    let child = commit_outside(node, c);
    assert(touches(puzzle, node.inside, c));
}

/// What a search reports below `node` where the largest possible total is
/// `bound`: nothing at all where no total is possible.
pub open spec fn search_results(puzzle: &Puzzle, bound: Option<int>, node: Node) -> Seq<Found> {
    match bound {
        Some(b) => results(puzzle, b, node),
        None => Seq::<Found>::empty(),
    }
}

/// What the searches from the seeds below `seeds` report, seed after seed.
pub open spec fn all_results(puzzle: &Puzzle, bound: Option<int>, seeds: int) -> Seq<Found>
    decreases seeds,
{
    if seeds <= 0 {
        Seq::<Found>::empty()
    } else {
        all_results(puzzle, bound, seeds - 1) + search_results(
            puzzle,
            bound,
            root(puzzle, seeds - 1),
        )
    }
}

proof fn lemma_lowest_is_next(puzzle: &Puzzle, frontier: Set<int>, lowest: int)
    requires
        0 <= lowest <= 64,
        puzzle.cells() <= 64,
        lowest < 64 ==> frontier.contains(lowest),
        forall|c: int| frontier.contains(c) ==> lowest <= c,
    ensures
        lowest < puzzle.cells() ==> lowest_member(frontier, puzzle.cells()) == lowest,
        lowest >= puzzle.cells() ==> lowest_member(frontier, puzzle.cells()) == puzzle.cells(),
{
    let n = puzzle.cells();
    if n <= 0 {
        assert(first_member(frontier, 0, n) == n);
    } else {
        lemma_first_member(frontier, 0, n);
    }
}

impl PartialSolution {
    /// Whether the node is one of the search for the regions with some lowest
    /// cell.
    pub open spec fn wf(&self, puzzle: &Puzzle) -> bool {
        exists|seed: int| node_wf(puzzle, seed, self@)
    }

    /// The node with the single cell `cell_idx` inside and every cell below it
    /// outside.
    pub fn with_initial_inside(ctx: &SolvingContext, cell_idx: CellIdx) -> (r: Self)
        requires
            ctx.wf(),
            cell_idx.raw < ctx.puzzle.cells(),
        ensures
            r@ == root(ctx.puzzle, cell_idx.raw as int),
            node_wf(ctx.puzzle, cell_idx.raw as int, r@),
            r.wf(ctx.puzzle),
    {
        let inside = CellBitmap::singleton(cell_idx);
        let outside = CellBitmap::below(cell_idx);
        let expandable_cells = ctx.puzzle.adjacent_cell_bitmaps.get(cell_idx).bitand(
            outside.not(),
        );
        let r = PartialSolution {
            inside,
            outside,
            expandable_cells,
            pips_in_curr_in_region: ctx.puzzle.pip_count_per_cell.get(cell_idx),
        };
        proof {
            let node = root(ctx.puzzle, cell_idx.raw as int);
            assert(r@.frontier =~= node.frontier);
            lemma_root_wf(ctx.puzzle, cell_idx.raw as int);
        }
        r
    }

    /// The cell to decide next: the lowest of those that may be decided, or
    /// none where the node is closed.
    pub fn cell_to_expand(&self, ctx: &SolvingContext) -> (r: Option<CellIdx>)
        requires
            ctx.puzzle.wf(),
        ensures
            match r {
                Some(c) => {
                    &&& !is_closed(ctx.puzzle, self@)
                    &&& c.raw == next_cell(ctx.puzzle, self@)
                    &&& self@.frontier.contains(c.raw as int)
                    &&& c.raw < ctx.puzzle.cells()
                },
                None => is_closed(ctx.puzzle, self@),
            },
    {
        let lowest_unexpanded_cell = self.expandable_cells.lowest_true_bit().index();
        proof {
            lemma_lowest_is_next(ctx.puzzle, self@.frontier, lowest_unexpanded_cell as int);
        }
        if lowest_unexpanded_cell < ctx.puzzle.pip_count_per_cell.len() {
            Some(CellIdx::new(lowest_unexpanded_cell))
        } else {
            None
        }
    }

    /// Puts the cell `cell_idx` on one side. A cell that goes outside only
    /// leaves the frontier. A cell that goes inside brings its pips; if the
    /// region then has more than any possible total, the result is `false`
    /// and the frontier has only lost the cell; if not, the cell's free
    /// neighbours join the frontier.
    #[must_use]
    pub fn assign_cell(&mut self, ctx: &SolvingContext, cell_idx: CellIdx, assignment: Assignment) -> (kept:
        bool)
        requires
            ctx.wf(),
            old(self).wf(ctx.puzzle),
            old(self)@.frontier.contains(cell_idx.raw as int),
        ensures
            assignment == Assignment::Outside ==> kept && final(self)@ == commit_outside(
                old(self)@,
                cell_idx.raw as int,
            ),
            assignment == Assignment::Inside ==> {
                &&& kept <==> (biggest_possible(ctx.puzzle.pip_count_per_cell@) matches Some(b)
                    && commit_inside(ctx.puzzle, old(self)@, cell_idx.raw as int).pips <= b)
                &&& kept ==> final(self)@ == commit_inside(ctx.puzzle, old(self)@, cell_idx.raw as int)
                &&& !kept ==> final(self)@ == (Node {
                    frontier: old(self)@.frontier.remove(cell_idx.raw as int),
                    ..commit_inside(ctx.puzzle, old(self)@, cell_idx.raw as int)
                })
            },
            kept ==> final(self).wf(ctx.puzzle),
    {
        let ghost seed = choose|seed: int| node_wf(ctx.puzzle, seed, old(self)@);
        let ghost before = old(self)@;
        proof {
            assert(touches(ctx.puzzle, before.inside, cell_idx.raw as int));
        }
        match assignment {
            Assignment::Outside => {
                self.outside.set(cell_idx);
            },
            Assignment::Inside => {
                self.inside.set(cell_idx);
            },
        }
        self.expandable_cells.unset(cell_idx);
        if assignment == Assignment::Inside {
            proof {
                let pips = ctx.puzzle.pip_count_per_cell@;
                crate::grid::lemma_pips_bounded(pips, before.inside, pips.len() as int);
                lemma_commit_inside_wf(ctx.puzzle, seed, before, cell_idx.raw as int);
            }
            self.pips_in_curr_in_region += ctx.puzzle.pip_count_per_cell.get(cell_idx);
            let fits = match ctx.biggest_required_pip_count() {
                Some(biggest) => self.pips_in_curr_in_region <= biggest,
                None => false,
            };
            if !fits {
                return false;
            }
            let new_adjacent_cells = ctx.puzzle.adjacent_cell_bitmaps.get(cell_idx);
            let already_assigned_cells = self.inside.bitor(self.outside);
            self.expandable_cells.bitor_assign(new_adjacent_cells.bitand(already_assigned_cells.not()));
            proof {
                let child = commit_inside(ctx.puzzle, before, cell_idx.raw as int);
                assert(self@.frontier =~= child.frontier);
                assert(node_wf(ctx.puzzle, seed, self@));
            }
        } else {
            proof {
                lemma_commit_outside_wf(ctx.puzzle, seed, before, cell_idx.raw as int);
                assert(node_wf(ctx.puzzle, seed, self@));
            }
        }
        true
    }

    /// Searches below this node, and hands every candidate to the context's
    /// reporter: the candidates of [`results`] in their order, as long as the
    /// reporter takes any. The search ends at once where the reporter is
    /// full, and where no total is possible.
    pub fn recursive_solve(&self, ctx: &mut SolvingContext)
        requires
            old(ctx).wf(),
            self.wf(old(ctx).puzzle),
        ensures
            final(ctx).wf(),
            final(ctx).puzzle == old(ctx).puzzle,
            final(ctx).possible_solutions == old(ctx).possible_solutions,
            final(ctx).reporter.max_candidates == old(ctx).reporter.max_candidates,
            final(ctx).found() == capped(
                old(ctx).found() + search_results(
                    old(ctx).puzzle,
                    biggest_possible(old(ctx).puzzle.pip_count_per_cell@),
                    self@,
                ),
                old(ctx).reporter.max_candidates as int,
            ),
        decreases free_count(self@.inside.union(self@.outside), old(ctx).puzzle.cells()),
    {
        let ghost seed = choose|seed: int| node_wf(ctx.puzzle, seed, self@);
        let ghost found = ctx.found();
        let ghost max = ctx.reporter.max_candidates as int;
        let ghost expected = search_results(
            ctx.puzzle,
            biggest_possible(ctx.puzzle.pip_count_per_cell@),
            self@,
        );
        proof {
            lemma_wf_frontier_is_free(ctx.puzzle, seed, self@);
            assert((found + expected).take(found.len() as int) =~= found);
            assert(found + Seq::<Found>::empty() =~= found);
        }
        if ctx.reporter.should_stop() {
            return ;
        }
        let biggest = match ctx.biggest_required_pip_count() {
            Some(biggest) => biggest,
            None => {
                return ;
            },
        };
        if self.pips_in_curr_in_region > biggest {
            return ;
        }
        match self.cell_to_expand(ctx) {
            Some(next_cell) => {
                proof {
                    lemma_commit_decreases(ctx.puzzle, self@);
                }
                let ghost with_cell = results(
                    ctx.puzzle,
                    biggest as int,
                    commit_inside(ctx.puzzle, self@, next_cell.raw as int),
                );
                let ghost without_cell = results(
                    ctx.puzzle,
                    biggest as int,
                    commit_outside(self@, next_cell.raw as int),
                );
                // The larger regions come first.
                let mut new_partial = self.clone();
                if new_partial.assign_cell(ctx, next_cell, Assignment::Inside) {
                    new_partial.recursive_solve(ctx);
                }
                let mut new_partial = self.clone();
                if new_partial.assign_cell(ctx, next_cell, Assignment::Outside) {
                    new_partial.recursive_solve(ctx);
                }
                proof {
                    crate::report::lemma_capped_twice(found + with_cell, without_cell, max);
                    assert((found + with_cell) + without_cell =~= found + (with_cell
                        + without_cell));
                }
            },
            None => {
                if self.pips_in_curr_in_region == 0 || ctx.puzzle.total_num_pips()
                    % self.pips_in_curr_in_region != 0 {
                    return ;
                }
                let candidate = Candidate {
                    region: self.inside,
                    pip_sum: self.pips_in_curr_in_region,
                };
                ctx.reporter.report(candidate);
                proof {
                    assert(found.push(candidate@) =~= found + seq![candidate@]);
                }
            },
        };
    }
}

impl<'data> SolvingContext<'data> {
    /// Searches from every cell of the puzzle as the seed, one after the
    /// other, and collects the candidates in the reporter.
    pub fn solve(&mut self)
        requires
            old(self).wf(),
        ensures
            final(self).wf(),
            final(self).puzzle == old(self).puzzle,
            final(self).possible_solutions == old(self).possible_solutions,
            final(self).reporter.max_candidates == old(self).reporter.max_candidates,
            final(self).found() == capped(
                old(self).found() + all_results(
                    old(self).puzzle,
                    biggest_possible(old(self).puzzle.pip_count_per_cell@),
                    old(self).puzzle.cells(),
                ),
                old(self).reporter.max_candidates as int,
            ),
    {
        let ghost found = self.found();
        let ghost max = self.reporter.max_candidates as int;
        let ghost bound = biggest_possible(self.puzzle.pip_count_per_cell@);
        let num_cells = self.puzzle.num_cells();
        let mut cell_idx: usize = 0;
        proof {
            assert(found + Seq::<Found>::empty() =~= found);
        }
        while cell_idx < num_cells
            invariant
                self.wf(),
                self.puzzle == old(self).puzzle,
                self.possible_solutions == old(self).possible_solutions,
                self.reporter.max_candidates == max,
                num_cells == self.puzzle.cells(),
                cell_idx <= num_cells,
                found == old(self).found(),
                bound == biggest_possible(self.puzzle.pip_count_per_cell@),
                self.found() == capped(
                    found + all_results(self.puzzle, bound, cell_idx as int),
                    max,
                ),
            decreases num_cells - cell_idx,
        {
            let ghost so_far = all_results(self.puzzle, bound, cell_idx as int);
            let root = PartialSolution::with_initial_inside(self, CellIdx::new(cell_idx));
            root.recursive_solve(self);
            proof {
                crate::report::lemma_capped_twice(
                    found + so_far,
                    search_results(self.puzzle, bound, root@),
                    max,
                );
                assert((found + so_far) + search_results(self.puzzle, bound, root@) =~= found + (
                so_far + search_results(self.puzzle, bound, root@)));
            }
            cell_idx += 1;
        }
    }
}

} // verus!
