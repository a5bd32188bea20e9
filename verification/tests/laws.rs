use std::collections::HashSet;

use split_puzzle::cell_set::CellBitmap;
use split_puzzle::context::SolvingContext;
use split_puzzle::grid::Puzzle;
use split_puzzle::index::CellIdx;
use split_puzzle::search::{Assignment, PartialSolution};

const LAYOUTS: [&str; 5] = ["21|1.", "1|1", "12.|.21|2.1", "1.41|4...|...4|14.1", "2.1|...|1.2|.33"];

fn pips_of(puzzle: &Puzzle, region: u64) -> usize {
    let pips = puzzle.pip_count_per_cell.to_vec();
    (0..pips.len()).filter(|c| region & (1u64 << c) != 0).map(|c| pips[c]).sum()
}

fn is_connected(puzzle: &Puzzle, region: u64) -> bool {
    if region == 0 {
        return false;
    }
    let adjacent = puzzle.adjacent_cell_bitmaps.to_vec();
    let mut reached = 1u64 << region.trailing_zeros();
    loop {
        let mut next = reached;
        for c in 0..adjacent.len() {
            if reached & (1u64 << c) != 0 {
                next |= adjacent[c].bits & region;
            }
        }
        if next == reached {
            return reached == region;
        }
        reached = next;
    }
}

fn all_cells(puzzle: &Puzzle) -> u64 {
    let n = puzzle.num_cells();
    if n == 64 {
        u64::MAX
    } else {
        (1u64 << n) - 1
    }
}

/// Walks the whole tree below `node` and checks every node on the way.
fn walk(ctx: &SolvingContext, seed: usize, node: PartialSolution, pips_above: usize, closed: &mut Vec<u64>) {
    let puzzle = ctx.puzzle;
    let everything = all_cells(puzzle);
    let inside = node.inside.bits;
    let outside = node.outside.bits;
    let frontier = node.expandable_cells.bits;
    // No cell on both sides, all of them cells of the grid.
    assert_eq!(inside & outside, 0);
    assert_eq!((inside | outside) & !everything, 0);
    // The frontier is undecided, and next to the region.
    assert_eq!(frontier & (inside | outside), 0);
    let adjacent = puzzle.adjacent_cell_bitmaps.to_vec();
    let mut next_to_region = 0u64;
    for c in 0..adjacent.len() {
        if inside & (1u64 << c) != 0 {
            next_to_region |= adjacent[c].bits;
        }
    }
    assert_eq!(frontier, next_to_region & !(inside | outside));
    // The seed is the lowest cell inside; all below it are outside.
    assert_eq!(inside.trailing_zeros() as usize, seed);
    assert_eq!(outside & ((1u64 << seed) - 1), (1u64 << seed) - 1);
    // The region is connected and the node counts its pips, which never get fewer.
    assert!(is_connected(puzzle, inside));
    assert_eq!(node.pips_in_curr_in_region, pips_of(puzzle, inside));
    assert!(node.pips_in_curr_in_region >= pips_above);
    let bound = ctx.biggest_required_pip_count().unwrap();
    assert!(node.pips_in_curr_in_region <= bound);
    match node.cell_to_expand(ctx) {
        None => {
            assert_eq!(frontier, 0);
            closed.push(inside);
        }
        Some(cell) => {
            assert_eq!(cell.index(), frontier.trailing_zeros() as usize);
            let mut with_cell = node;
            if with_cell.assign_cell(ctx, cell, Assignment::Inside) {
                assert_eq!(with_cell.inside.bits, inside | (1u64 << cell.index()));
                assert_eq!(with_cell.outside.bits, outside);
                walk(ctx, seed, with_cell, node.pips_in_curr_in_region, closed);
            } else {
                assert!(pips_of(puzzle, inside | (1u64 << cell.index())) > bound);
            }
            let mut without_cell = node;
            assert!(without_cell.assign_cell(ctx, cell, Assignment::Outside));
            assert_eq!(without_cell.inside.bits, inside);
            assert_eq!(without_cell.outside.bits, outside | (1u64 << cell.index()));
            assert_eq!(without_cell.expandable_cells.bits, frontier & !(1u64 << cell.index()));
            assert_eq!(without_cell.pips_in_curr_in_region, node.pips_in_curr_in_region);
            walk(ctx, seed, without_cell, node.pips_in_curr_in_region, closed);
        }
    }
}

#[test]
fn every_node_keeps_the_invariants() {
    for layout in LAYOUTS {
        let puzzle = Puzzle::new(layout).unwrap();
        let ctx = SolvingContext::new(&puzzle, usize::MAX).unwrap();
        for seed in 0..puzzle.num_cells() {
            if puzzle.pip_count_per_cell.to_vec()[seed] > ctx.biggest_required_pip_count().unwrap() {
                continue;
            }
            let root = PartialSolution::with_initial_inside(&ctx, CellIdx::new(seed));
            assert_eq!(root.inside, CellBitmap::from_bits(1u64 << seed));
            assert_eq!(root.outside, CellBitmap::from_bits((1u64 << seed) - 1));
            let mut closed = Vec::new();
            walk(&ctx, seed, root, 0, &mut closed);
            let distinct: HashSet<u64> = closed.iter().copied().collect();
            assert_eq!(distinct.len(), closed.len());
        }
    }
}

#[test]
fn every_candidate_is_sound() {
    for layout in LAYOUTS {
        let puzzle = Puzzle::new(layout).unwrap();
        let total = puzzle.total_num_pips();
        let mut ctx = SolvingContext::new(&puzzle, usize::MAX).unwrap();
        let bound = ctx.biggest_required_pip_count().unwrap();
        ctx.solve();
        assert!(ctx.reporter.num_solutions() > 0);
        for candidate in &ctx.reporter.candidates {
            assert!(is_connected(&puzzle, candidate.region.bits));
            assert_eq!(candidate.pip_sum, pips_of(&puzzle, candidate.region.bits));
            assert!(candidate.pip_sum > 0);
            assert!(candidate.pip_sum <= bound);
            assert_eq!(total % candidate.pip_sum, 0);
        }
    }
}

#[test]
fn every_region_is_found_once() {
    for layout in LAYOUTS {
        let puzzle = Puzzle::new(layout).unwrap();
        let total = puzzle.total_num_pips();
        let mut ctx = SolvingContext::new(&puzzle, usize::MAX).unwrap();
        let bound = ctx.biggest_required_pip_count().unwrap();
        ctx.solve();
        let found: Vec<u64> = ctx.reporter.candidates.iter().map(|c| c.region.bits).collect();
        let distinct: HashSet<u64> = found.iter().copied().collect();
        assert_eq!(distinct.len(), found.len());
        let mut expected = HashSet::new();
        for region in 1..=all_cells(&puzzle) {
            let pips = pips_of(&puzzle, region);
            if pips > 0 && pips <= bound && total % pips == 0 && is_connected(&puzzle, region) {
                expected.insert(region);
            }
        }
        assert_eq!(distinct, expected);
        // The candidates of a lower seed come first.
        let seeds: Vec<u32> = found.iter().map(|r| r.trailing_zeros()).collect();
        let mut sorted = seeds.clone();
        sorted.sort();
        assert_eq!(seeds, sorted);
    }
}

#[test]
fn search_from_one_seed_finds_its_regions() {
    let puzzle = Puzzle::new("12.|.21|2.1").unwrap();
    let total = puzzle.total_num_pips();
    assert_eq!(total, 9);
    for seed in 0..9 {
        let mut ctx = SolvingContext::new(&puzzle, usize::MAX).unwrap();
        assert_eq!(ctx.possible_solutions, 0b1000);
        let root = PartialSolution::with_initial_inside(&ctx, CellIdx::new(seed));
        root.recursive_solve(&mut ctx);
        let found: HashSet<u64> = ctx.reporter.candidates.iter().map(|c| c.region.bits).collect();
        assert_eq!(found.len(), ctx.reporter.num_solutions());
        let mut expected = HashSet::new();
        for region in 1u64..512 {
            let pips = pips_of(&puzzle, region);
            if region.trailing_zeros() as usize == seed
                && pips > 0
                && pips <= 3
                && total % pips == 0
                && is_connected(&puzzle, region)
            {
                expected.insert(region);
            }
        }
        assert_eq!(found, expected);
    }
}

#[test]
fn reporter_takes_no_more_than_it_may() {
    let puzzle = Puzzle::new("1.41|4...|...4|14.1").unwrap();
    let mut all = SolvingContext::new(&puzzle, usize::MAX).unwrap();
    all.solve();
    let everything = all.reporter.candidates.clone();
    assert!(everything.len() > 11);
    for max in [0usize, 1, 2, 10, 11] {
        let mut ctx = SolvingContext::new(&puzzle, max).unwrap();
        ctx.solve();
        assert_eq!(ctx.reporter.candidates, everything[..max].to_vec());
        assert!(ctx.reporter.should_stop());
    }
    let mut ctx = SolvingContext::new(&puzzle, everything.len() + 1).unwrap();
    ctx.solve();
    assert_eq!(ctx.reporter.candidates, everything);
    assert!(!ctx.reporter.should_stop());
}

#[test]
fn feasible_totals_of_the_examples() {
    let puzzle = Puzzle::new("1.41|4...|...4|14.1").unwrap();
    assert_eq!(puzzle.total_num_pips(), 20);
    let ctx = SolvingContext::new(&puzzle, 10).unwrap();
    assert_eq!(ctx.possible_solutions, (1 << 4) | (1 << 5) | (1 << 10));
    assert_eq!(ctx.biggest_required_pip_count(), Some(10));
    let puzzle = Puzzle::new("2.1.2|.....|1...1|.....|2.1.2").unwrap();
    assert_eq!(puzzle.total_num_pips(), 12);
    let ctx = SolvingContext::new(&puzzle, 10).unwrap();
    assert_eq!(ctx.possible_solutions, (1 << 2) | (1 << 3) | (1 << 4) | (1 << 6));
    assert_eq!(ctx.biggest_required_pip_count(), Some(6));
    let puzzle = Puzzle::new("7").unwrap();
    let ctx = SolvingContext::new(&puzzle, 10).unwrap();
    assert_eq!(ctx.possible_solutions, 0);
    assert_eq!(ctx.biggest_required_pip_count(), None);
}
