//! What holds of every search: of each node of its tree, and of what it
//! reports.

use crate::grid::Puzzle;
use crate::report::Found;
use crate::search::commit_inside;
use crate::search::commit_outside;
use crate::search::connected;
use crate::search::emits;
use crate::search::is_closed;
use crate::search::is_path;
use crate::search::lemma_commit_decreases;
use crate::search::lemma_commit_inside_wf;
use crate::search::lemma_commit_outside_wf;
use crate::search::lemma_root_wf;
use crate::search::lemma_wf_frontier_is_free;
use crate::search::next_cell;
use crate::search::node_wf;
use crate::search::results;
use crate::search::root;
use crate::search::all_results;
use crate::search::search_results;
use crate::search::Node;
use vstd::prelude::*;

verus! {

/// Whether the search that comes to `from` comes to `to` after `steps` more
/// decisions, where no region may carry more than `bound` pips: each decision
/// puts the next cell of an open node inside or outside.
pub open spec fn descends(puzzle: &Puzzle, bound: int, from: Node, to: Node, steps: nat) -> bool
    decreases steps,
{
    if steps == 0 {
        to == from
    } else {
        &&& from.pips <= bound
        &&& !is_closed(puzzle, from)
        &&& {
            ||| descends(
                puzzle,
                bound,
                commit_inside(puzzle, from, next_cell(puzzle, from)),
                to,
                (steps - 1) as nat,
            )
            ||| descends(
                puzzle,
                bound,
                commit_outside(from, next_cell(puzzle, from)),
                to,
                (steps - 1) as nat,
            )
        }
    }
}

/// Every node below a well-formed node is well-formed.
pub proof fn lemma_tree_nodes_wf(
    puzzle: &Puzzle,
    bound: int,
    seed: int,
    from: Node,
    to: Node,
    steps: nat,
)
    requires
        puzzle.wf(),
        node_wf(puzzle, seed, from),
        descends(puzzle, bound, from, to, steps),
    ensures
        node_wf(puzzle, seed, to),
    decreases steps,
{
    if steps > 0 {
        lemma_wf_frontier_is_free(puzzle, seed, from);
        lemma_commit_decreases(puzzle, from);
        let c = next_cell(puzzle, from);
        let with_cell = commit_inside(puzzle, from, c);
        let without_cell = commit_outside(from, c);
        lemma_commit_inside_wf(puzzle, seed, from, c);
        lemma_commit_outside_wf(puzzle, seed, from, c);
        if descends(puzzle, bound, with_cell, to, (steps - 1) as nat) {
            lemma_tree_nodes_wf(puzzle, bound, seed, with_cell, to, (steps - 1) as nat);
        } else {
            lemma_tree_nodes_wf(puzzle, bound, seed, without_cell, to, (steps - 1) as nat);
        }
    }
}

/// At every node of a seed's search tree no cell is both inside and outside,
/// so that every cell of the grid is inside, outside or undecided and only
/// one of the three; both sides hold cells of the grid only, and the cells
/// that may be decided next are undecided.
pub proof fn law_partition(puzzle: &Puzzle, bound: int, seed: int, node: Node, steps: nat)
    requires
        puzzle.wf(),
        0 <= seed < puzzle.cells(),
        descends(puzzle, bound, root(puzzle, seed), node, steps),
    ensures
        node.inside.disjoint(node.outside),
        forall|c: int|
            node.inside.contains(c) || node.outside.contains(c) ==> 0 <= c < puzzle.cells(),
        forall|c: int|
            node.frontier.contains(c) ==> 0 <= c < puzzle.cells() && !node.inside.contains(c)
                && !node.outside.contains(c),
{
    lemma_root_wf(puzzle, seed);
    lemma_tree_nodes_wf(puzzle, bound, seed, root(puzzle, seed), node, steps);
    lemma_wf_frontier_is_free(puzzle, seed, node);
}

/// At every node of a seed's search tree the seed is inside, and every cell
/// below the seed is outside and so never inside.
pub proof fn law_canonical_seed(puzzle: &Puzzle, bound: int, seed: int, node: Node, steps: nat)
    requires
        puzzle.wf(),
        0 <= seed < puzzle.cells(),
        descends(puzzle, bound, root(puzzle, seed), node, steps),
    ensures
        node.inside.contains(seed),
        forall|c: int| c < seed ==> !node.inside.contains(c),
        forall|c: int| 0 <= c < seed ==> node.outside.contains(c),
{
    lemma_root_wf(puzzle, seed);
    lemma_tree_nodes_wf(puzzle, bound, seed, root(puzzle, seed), node, steps);
}

/// The pips of the region never get fewer on the way down the search tree.
pub proof fn law_pips_never_decrease(puzzle: &Puzzle, bound: int, from: Node, to: Node, steps: nat)
    requires
        descends(puzzle, bound, from, to, steps),
    ensures
        from.pips <= to.pips,
    decreases steps,
{
    if steps > 0 {
        let c = next_cell(puzzle, from);
        let with_cell = commit_inside(puzzle, from, c);
        let without_cell = commit_outside(from, c);
        if descends(puzzle, bound, with_cell, to, (steps - 1) as nat) {
            law_pips_never_decrease(puzzle, bound, with_cell, to, (steps - 1) as nat);
        } else {
            law_pips_never_decrease(puzzle, bound, without_cell, to, (steps - 1) as nat);
        }
    }
}

/// A node whose region has more pips than the bound has no candidate below
/// it: neither does a node further down, for its region has no fewer.
pub proof fn law_nothing_over_bound(
    puzzle: &Puzzle,
    bound: int,
    seed: int,
    from: Node,
    to: Node,
    steps: nat,
)
    requires
        puzzle.wf(),
        node_wf(puzzle, seed, from),
        descends(puzzle, bound, from, to, steps),
        from.pips > bound,
    ensures
        to.pips > bound,
        results(puzzle, bound, from) == Seq::<Found>::empty(),
        results(puzzle, bound, to) == Seq::<Found>::empty(),
{
    lemma_tree_nodes_wf(puzzle, bound, seed, from, to, steps);
    law_pips_never_decrease(puzzle, bound, from, to, steps);
    lemma_wf_frontier_is_free(puzzle, seed, from);
    lemma_wf_frontier_is_free(puzzle, seed, to);
}

/// Whether `region` completes the region of `node`: it is connected from the
/// seed, holds every cell that the node has inside, and no cell that the node
/// has outside, nor one that is no cell of the grid.
pub open spec fn completes(puzzle: &Puzzle, seed: int, node: Node, region: Set<int>) -> bool {
    &&& node.inside.subset_of(region)
    &&& region.disjoint(node.outside)
    &&& forall|c: int| region.contains(c) ==> 0 <= c < puzzle.cells()
    &&& connected(puzzle, region, seed)
}

/// Every candidate that the search reports below a node completes the node's
/// region, comes with the number of its pips, and that number is at least the
/// node's, at most the bound, not zero, and divides the puzzle's.
pub proof fn law_soundness(puzzle: &Puzzle, bound: int, seed: int, node: Node, i: int)
    requires
        puzzle.wf(),
        node_wf(puzzle, seed, node),
        0 <= i < results(puzzle, bound, node).len(),
    ensures
        completes(puzzle, seed, node, results(puzzle, bound, node)[i].region),
        results(puzzle, bound, node)[i].pips == puzzle.region_pips(
            results(puzzle, bound, node)[i].region,
        ),
        node.pips <= results(puzzle, bound, node)[i].pips <= bound,
        emits(puzzle.total(), results(puzzle, bound, node)[i].pips),
    decreases crate::search::free_count(node.inside.union(node.outside), puzzle.cells()),
{
    lemma_wf_frontier_is_free(puzzle, seed, node);
    if node.pips > bound {
    } else if is_closed(puzzle, node) {
    } else {
        lemma_commit_decreases(puzzle, node);
        let c = next_cell(puzzle, node);
        let with_cell = commit_inside(puzzle, node, c);
        let without_cell = commit_outside(node, c);
        lemma_commit_inside_wf(puzzle, seed, node, c);
        lemma_commit_outside_wf(puzzle, seed, node, c);
        let first = results(puzzle, bound, with_cell);
        let second = results(puzzle, bound, without_cell);
        if i < first.len() {
            law_soundness(puzzle, bound, seed, with_cell, i);
            assert((first + second)[i] == first[i]);
        } else {
            law_soundness(puzzle, bound, seed, without_cell, i - first.len());
            assert((first + second)[i] == second[i - first.len()]);
        }
    }
}

/// A path that starts in a set and ends outside it leaves the set somewhere.
proof fn lemma_path_leaves(path: Seq<int>, inside: Set<int>, upto: int) -> (k: int)
    requires
        0 < upto < path.len(),
        inside.contains(path[0]),
        !inside.contains(path[upto]),
    ensures
        1 <= k <= upto,
        inside.contains(path[k - 1]),
        !inside.contains(path[k]),
    decreases upto,
{
    if inside.contains(path[upto - 1]) {
        upto
    } else {
        lemma_path_leaves(path, inside, upto - 1)
    }
}

/// At a closed node only the node's own region completes it.
proof fn lemma_closed_node_is_complete(puzzle: &Puzzle, seed: int, node: Node, region: Set<int>)
    requires
        puzzle.wf(),
        node_wf(puzzle, seed, node),
        is_closed(puzzle, node),
        completes(puzzle, seed, node, region),
    ensures
        region == node.inside,
{
    assert forall|d: int| region.contains(d) implies node.inside.contains(d) by {
        if !node.inside.contains(d) {
            assert(crate::search::reachable(puzzle, region, seed, d));
            let path = choose|path: Seq<int>| is_path(puzzle, region, path, seed, d);
            let k = lemma_path_leaves(path, node.inside, path.len() - 1);
            let a = path[k - 1];
            let b = path[k];
            assert(puzzle.adjacent(path[k - 1], path[k - 1 + 1]));
            assert(region.contains(b));
            assert(!node.outside.contains(b));
            assert(node.inside.contains(a) && puzzle.adjacent(a, b));
            assert(crate::search::touches(puzzle, node.inside, b));
            assert(node.frontier.contains(b));
            crate::search::lemma_first_member(node.frontier, 0, puzzle.cells());
        }
    }
    assert(region =~= node.inside);
}

/// The search below a node reports every region that completes the node's,
/// has no more pips than the bound, and whose pips divide the puzzle's:
/// `i` is where it stands among the candidates.
pub proof fn law_completeness(
    puzzle: &Puzzle,
    bound: int,
    seed: int,
    node: Node,
    region: Set<int>,
) -> (i: int)
    requires
        puzzle.wf(),
        node_wf(puzzle, seed, node),
        completes(puzzle, seed, node, region),
        puzzle.region_pips(region) <= bound,
        emits(puzzle.total(), puzzle.region_pips(region)),
    ensures
        0 <= i < results(puzzle, bound, node).len(),
        results(puzzle, bound, node)[i] == (Found {
            region,
            pips: puzzle.region_pips(region),
        }),
    decreases crate::search::free_count(node.inside.union(node.outside), puzzle.cells()),
{
    let pips = puzzle.pip_count_per_cell@;
    lemma_wf_frontier_is_free(puzzle, seed, node);
    crate::grid::lemma_pips_monotone(pips, node.inside, region, pips.len() as int);
    if is_closed(puzzle, node) {
        lemma_closed_node_is_complete(puzzle, seed, node, region);
        0
    } else {
        lemma_commit_decreases(puzzle, node);
        let c = next_cell(puzzle, node);
        let with_cell = commit_inside(puzzle, node, c);
        let without_cell = commit_outside(node, c);
        lemma_commit_inside_wf(puzzle, seed, node, c);
        lemma_commit_outside_wf(puzzle, seed, node, c);
        let first = results(puzzle, bound, with_cell);
        let second = results(puzzle, bound, without_cell);
        if region.contains(c) {
            let i = law_completeness(puzzle, bound, seed, with_cell, region);
            assert((first + second)[i] == first[i]);
            i
        } else {
            let j = law_completeness(puzzle, bound, seed, without_cell, region);
            assert((first + second)[first.len() + j] == second[j]);
            first.len() + j
        }
    }
}

/// The search below a node reports no region twice.
pub proof fn law_no_region_twice(puzzle: &Puzzle, bound: int, seed: int, node: Node, i: int, j: int)
    requires
        puzzle.wf(),
        node_wf(puzzle, seed, node),
        0 <= i < j < results(puzzle, bound, node).len(),
    ensures
        results(puzzle, bound, node)[i].region != results(puzzle, bound, node)[j].region,
    decreases crate::search::free_count(node.inside.union(node.outside), puzzle.cells()),
{
    lemma_wf_frontier_is_free(puzzle, seed, node);
    if node.pips > bound {
    } else if is_closed(puzzle, node) {
    } else {
        lemma_commit_decreases(puzzle, node);
        let c = next_cell(puzzle, node);
        let with_cell = commit_inside(puzzle, node, c);
        let without_cell = commit_outside(node, c);
        lemma_commit_inside_wf(puzzle, seed, node, c);
        lemma_commit_outside_wf(puzzle, seed, node, c);
        let first = results(puzzle, bound, with_cell);
        let second = results(puzzle, bound, without_cell);
        if j < first.len() {
            law_no_region_twice(puzzle, bound, seed, with_cell, i, j);
            assert((first + second)[i] == first[i]);
            assert((first + second)[j] == first[j]);
        } else if i >= first.len() {
            law_no_region_twice(
                puzzle,
                bound,
                seed,
                without_cell,
                i - first.len(),
                j - first.len(),
            );
            assert((first + second)[i] == second[i - first.len()]);
            assert((first + second)[j] == second[j - first.len()]);
        } else {
            law_soundness(puzzle, bound, seed, with_cell, i);
            law_soundness(puzzle, bound, seed, without_cell, j - first.len());
            assert((first + second)[i] == first[i]);
            assert((first + second)[j] == second[j - first.len()]);
            assert(first[i].region.contains(c));
            assert(without_cell.outside.contains(c));
            assert(!second[j - first.len()].region.contains(c));
        }
    }
}

/// Whether `region` is a connected set of cells of the grid whose lowest
/// cell is `seed`.
pub open spec fn is_region(puzzle: &Puzzle, seed: int, region: Set<int>) -> bool {
    &&& region.contains(seed)
    &&& forall|c: int| region.contains(c) ==> seed <= c < puzzle.cells()
    &&& connected(puzzle, region, seed)
}

/// Whether a search with the bound `bound` is to report `region`: no total is
/// possible without a bound; with one, the region has no more pips than it,
/// and their number is not zero and divides the puzzle's.
pub open spec fn is_candidate(puzzle: &Puzzle, bound: Option<int>, region: Set<int>) -> bool {
    bound matches Some(b) && puzzle.region_pips(region) <= b && emits(
        puzzle.total(),
        puzzle.region_pips(region),
    )
}

/// The regions that complete the root of a seed's search are the regions with
/// that seed as their lowest cell.
pub proof fn lemma_root_completions(puzzle: &Puzzle, seed: int, region: Set<int>)
    requires
        puzzle.wf(),
        0 <= seed < puzzle.cells(),
    ensures
        completes(puzzle, seed, root(puzzle, seed), region) <==> is_region(puzzle, seed, region),
{
    let node = root(puzzle, seed);
    if completes(puzzle, seed, node, region) {
        assert(node.inside.contains(seed));
        assert forall|c: int| region.contains(c) implies seed <= c by {
            if c < seed {
                assert(node.outside.contains(c));
            }
        }
    }
    if is_region(puzzle, seed, region) {
        assert(node.inside.subset_of(region));
        assert(region.disjoint(node.outside));
    }
}

/// The search from a seed reports exactly the regions with that seed as
/// their lowest cell that are candidates, each with the number of its pips.
pub proof fn law_seed_search_exact(puzzle: &Puzzle, bound: Option<int>, seed: int, region: Set<int>)
    requires
        puzzle.wf(),
        0 <= seed < puzzle.cells(),
    ensures
        (is_region(puzzle, seed, region) && is_candidate(puzzle, bound, region)) <==> exists|
            i: int,
        |
            0 <= i < search_results(puzzle, bound, root(puzzle, seed)).len() && #[trigger] search_results(
                puzzle,
                bound,
                root(puzzle, seed),
            )[i] == (Found { region, pips: puzzle.region_pips(region) }),
{
    let node = root(puzzle, seed);
    let found = search_results(puzzle, bound, node);
    let wanted = Found { region, pips: puzzle.region_pips(region) };
    lemma_root_wf(puzzle, seed);
    lemma_root_completions(puzzle, seed, region);
    if let Some(b) = bound {
        if is_region(puzzle, seed, region) && is_candidate(puzzle, bound, region) {
            let i = law_completeness(puzzle, b, seed, node, region);
            assert(0 <= i < found.len() && found[i] == wanted);
        }
        if exists|i: int| 0 <= i < found.len() && #[trigger] found[i] == wanted {
            let i = choose|i: int| 0 <= i < found.len() && #[trigger] found[i] == wanted;
            law_soundness(puzzle, b, seed, node, i);
        }
    }
}

/// Every candidate of a whole search was reported by the search from one
/// seed: `(seed, j)` is the seed and the place among that search's candidates.
pub proof fn lemma_origin(puzzle: &Puzzle, bound: Option<int>, seeds: int, i: int) -> (origin: (
    int,
    int,
))
    requires
        0 <= i < all_results(puzzle, bound, seeds).len(),
    ensures
        0 <= origin.0 < seeds,
        0 <= origin.1 < search_results(puzzle, bound, root(puzzle, origin.0)).len(),
        all_results(puzzle, bound, seeds)[i] == search_results(
            puzzle,
            bound,
            root(puzzle, origin.0),
        )[origin.1],
    decreases seeds,
{
    if seeds <= 0 {
        (0, 0)
    } else {
        let before = all_results(puzzle, bound, seeds - 1);
        let last = search_results(puzzle, bound, root(puzzle, seeds - 1));
        if i < before.len() {
            assert((before + last)[i] == before[i]);
            lemma_origin(puzzle, bound, seeds - 1, i)
        } else {
            assert((before + last)[i] == last[i - before.len()]);
            (seeds - 1, i - before.len())
        }
    }
}

/// What the search from one seed reports is part of what the whole search
/// reports: `i` is the place of its candidate `j`.
pub proof fn lemma_place(puzzle: &Puzzle, bound: Option<int>, seeds: int, seed: int, j: int) -> (i:
    int)
    requires
        0 <= seed < seeds,
        0 <= j < search_results(puzzle, bound, root(puzzle, seed)).len(),
    ensures
        0 <= i < all_results(puzzle, bound, seeds).len(),
        all_results(puzzle, bound, seeds)[i] == search_results(puzzle, bound, root(puzzle, seed))[j],
    decreases seeds,
{
    let before = all_results(puzzle, bound, seeds - 1);
    let last = search_results(puzzle, bound, root(puzzle, seeds - 1));
    if seed == seeds - 1 {
        assert((before + last)[before.len() + j] == last[j]);
        before.len() + j
    } else {
        let i = lemma_place(puzzle, bound, seeds - 1, seed, j);
        assert((before + last)[i] == before[i]);
        i
    }
}

/// Every candidate of a whole search is a connected region with the number
/// of its pips, and is a candidate: its pips are no more than the bound, not
/// zero, and divide the puzzle's.
pub proof fn law_solve_sound(puzzle: &Puzzle, bound: Option<int>, i: int) -> (seed: int)
    requires
        puzzle.wf(),
        0 <= i < all_results(puzzle, bound, puzzle.cells()).len(),
    ensures
        0 <= seed < puzzle.cells(),
        is_region(puzzle, seed, all_results(puzzle, bound, puzzle.cells())[i].region),
        is_candidate(puzzle, bound, all_results(puzzle, bound, puzzle.cells())[i].region),
        all_results(puzzle, bound, puzzle.cells())[i].pips == puzzle.region_pips(
            all_results(puzzle, bound, puzzle.cells())[i].region,
        ),
{
    let (seed, j) = lemma_origin(puzzle, bound, puzzle.cells(), i);
    let node = root(puzzle, seed);
    lemma_root_wf(puzzle, seed);
    law_soundness(puzzle, bound->Some_0, seed, node, j);
    lemma_root_completions(puzzle, seed, search_results(puzzle, bound, node)[j].region);
    seed
}

/// A whole search reports every connected region of the grid that is a
/// candidate: `i` is where it stands among the candidates.
pub proof fn law_solve_complete(puzzle: &Puzzle, bound: Option<int>, seed: int, region: Set<int>) -> (i:
    int)
    requires
        puzzle.wf(),
        0 <= seed < puzzle.cells(),
        is_region(puzzle, seed, region),
        is_candidate(puzzle, bound, region),
    ensures
        0 <= i < all_results(puzzle, bound, puzzle.cells()).len(),
        all_results(puzzle, bound, puzzle.cells())[i] == (Found {
            region,
            pips: puzzle.region_pips(region),
        }),
{
    let node = root(puzzle, seed);
    lemma_root_wf(puzzle, seed);
    lemma_root_completions(puzzle, seed, region);
    let j = law_completeness(puzzle, bound->Some_0, seed, node, region);
    lemma_place(puzzle, bound, puzzle.cells(), seed, j)
}

proof fn lemma_no_region_twice_upto(puzzle: &Puzzle, bound: Option<int>, seeds: int, i: int, j: int)
    requires
        puzzle.wf(),
        seeds <= puzzle.cells(),
        0 <= i < j < all_results(puzzle, bound, seeds).len(),
    ensures
        all_results(puzzle, bound, seeds)[i].region != all_results(puzzle, bound, seeds)[j].region,
    decreases seeds,
{
    if seeds > 0 {
        let before = all_results(puzzle, bound, seeds - 1);
        let node = root(puzzle, seeds - 1);
        let last = search_results(puzzle, bound, node);
        lemma_root_wf(puzzle, seeds - 1);
        if j < before.len() {
            assert((before + last)[i] == before[i]);
            assert((before + last)[j] == before[j]);
            lemma_no_region_twice_upto(puzzle, bound, seeds - 1, i, j);
        } else if i >= before.len() {
            assert((before + last)[i] == last[i - before.len()]);
            assert((before + last)[j] == last[j - before.len()]);
            law_no_region_twice(
                puzzle,
                bound->Some_0,
                seeds - 1,
                node,
                i - before.len(),
                j - before.len(),
            );
        } else {
            assert((before + last)[i] == before[i]);
            assert((before + last)[j] == last[j - before.len()]);
            let (seed, k) = lemma_origin(puzzle, bound, seeds - 1, i);
            lemma_root_wf(puzzle, seed);
            law_soundness(puzzle, bound->Some_0, seed, root(puzzle, seed), k);
            law_soundness(puzzle, bound->Some_0, seeds - 1, node, j - before.len());
            let early = before[i].region;
            let late = last[j - before.len()].region;
            assert(early.contains(seed));
            assert(root(puzzle, seeds - 1).outside.contains(seed));
            assert(!late.contains(seed));
        }
    }
}

/// A whole search reports no region twice, whichever seeds it came from.
pub proof fn law_solve_no_region_twice(puzzle: &Puzzle, bound: Option<int>, i: int, j: int)
    requires
        puzzle.wf(),
        0 <= i < j < all_results(puzzle, bound, puzzle.cells()).len(),
    ensures
        all_results(puzzle, bound, puzzle.cells())[i].region != all_results(
            puzzle,
            bound,
            puzzle.cells(),
        )[j].region,
{
    lemma_no_region_twice_upto(puzzle, bound, puzzle.cells(), i, j);
}

} // verus!
