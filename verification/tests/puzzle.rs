use std::collections::HashSet;

use split_puzzle::index::{CellIdx, EdgeIdx, VertIdx};
use split_puzzle::lattice::{get_edge_idx_between, lattice_edges, GridVec};
use split_puzzle::layout::MalformedLayoutError;
use split_puzzle::puzzle::{has_room, Pips, Puzzle};
use split_puzzle::shape::Shape;

fn line_of(edges: &[usize]) -> HashSet<usize> {
    edges.iter().copied().collect()
}

fn verts(numbers: &[usize]) -> Vec<VertIdx> {
    numbers.iter().map(|v| VertIdx::new(*v)).collect()
}

fn neighbours(pairs: &[(usize, usize)]) -> Vec<(EdgeIdx, CellIdx)> {
    pairs.iter().map(|(e, c)| (EdgeIdx::new(*e), CellIdx::new(*c))).collect()
}

fn region(numbers: &[usize], pips: usize) -> (Vec<CellIdx>, Pips) {
    (numbers.iter().map(|c| CellIdx::new(*c)).collect(), Pips(pips))
}

fn ends(pairs: &[(usize, usize)]) -> Vec<(VertIdx, VertIdx)> {
    pairs.iter().map(|(a, b)| (VertIdx::new(*a), VertIdx::new(*b))).collect()
}

fn puzzle_edges(puzzle: &Puzzle) -> Vec<(VertIdx, VertIdx)> {
    (0..puzzle.num_edges()).map(|e| puzzle.edge(EdgeIdx::new(e))).collect()
}

fn puzzle_verts(puzzle: &Puzzle) -> Vec<GridVec> {
    (0..puzzle.num_verts()).map(|v| puzzle.vert(VertIdx::new(v))).collect()
}

fn shape_edges(shape: &Shape) -> Vec<(VertIdx, VertIdx)> {
    (0..shape.num_edges()).map(|e| shape.edge(EdgeIdx::new(e))).collect()
}

fn shape_verts(shape: &Shape) -> Vec<GridVec> {
    (0..shape.num_verts()).map(|v| shape.vert(VertIdx::new(v))).collect()
}

#[test]
fn from_single_line_builds_the_grid() {
    let puzzle = Puzzle::from_single_line("21|1 ").unwrap();
    assert_eq!(puzzle.square_size, GridVec { x: 2, y: 2 });
    assert_eq!(puzzle.num_verts(), 9);
    assert_eq!(puzzle.num_edges(), 12);
    assert_eq!(puzzle.num_cells(), 4);
    let pips: Vec<Pips> = (0..4).map(|c| puzzle.cell(CellIdx::new(c)).pips).collect();
    assert_eq!(pips, vec![Pips(2), Pips(1), Pips(1), Pips(0)]);
    assert_eq!(puzzle.cell(CellIdx::new(0)).verts, verts(&[0, 1, 4, 3]));
    assert_eq!(puzzle.cell(CellIdx::new(0)).neighbours, neighbours(&[(1, 1), (8, 2)]));
    assert_eq!(puzzle.cell(CellIdx::new(1)).verts, verts(&[1, 2, 5, 4]));
    assert_eq!(puzzle.cell(CellIdx::new(1)).neighbours, neighbours(&[(9, 3), (1, 0)]));
    assert_eq!(puzzle.cell(CellIdx::new(2)).verts, verts(&[3, 4, 7, 6]));
    assert_eq!(puzzle.cell(CellIdx::new(2)).neighbours, neighbours(&[(8, 0), (4, 3)]));
    assert_eq!(puzzle.cell(CellIdx::new(3)).verts, verts(&[4, 5, 8, 7]));
    assert_eq!(puzzle.cell(CellIdx::new(3)).neighbours, neighbours(&[(9, 1), (4, 2)]));
}

#[test]
fn puzzle_vertices_start_at_the_top() {
    let puzzle = Puzzle::from_single_line("1").unwrap();
    assert_eq!(
        puzzle_verts(&puzzle),
        vec![
            GridVec { x: 0, y: 1 },
            GridVec { x: 1, y: 1 },
            GridVec { x: 0, y: 0 },
            GridVec { x: 1, y: 0 }
        ]
    );
    assert_eq!(puzzle_edges(&puzzle), ends(&[(0, 2), (1, 3), (0, 1), (2, 3)]));
    assert_eq!(puzzle.cell(CellIdx::new(0)).neighbours, neighbours(&[]));
}

#[test]
fn from_single_line_rejects_malformed_layouts() {
    assert_eq!(Puzzle::from_single_line("2x|11").err(), Some(MalformedLayoutError::InvalidChar));
    assert_eq!(Puzzle::from_single_line("2.|11").err(), Some(MalformedLayoutError::InvalidChar));
    assert_eq!(Puzzle::from_single_line("21|1").err(), Some(MalformedLayoutError::UnequalRows));
    assert_eq!(Puzzle::from_single_line("21|123").err(), Some(MalformedLayoutError::UnequalRows));
    assert_eq!(Puzzle::from_single_line("21||12").err(), Some(MalformedLayoutError::UnequalRows));
    assert_eq!(Puzzle::from_single_line("2|x1").err(), Some(MalformedLayoutError::InvalidChar));
}

#[test]
fn layouts_without_cells_give_puzzles_without_cells() {
    let puzzle = Puzzle::from_single_line("").unwrap();
    assert_eq!(puzzle.square_size, GridVec { x: 0, y: 1 });
    assert_eq!(puzzle.num_cells(), 0);
    assert_eq!(puzzle.num_verts(), 2);
    assert_eq!(puzzle_edges(&puzzle), ends(&[(0, 1)]));
    let puzzle = Puzzle::from_single_line("|").unwrap();
    assert_eq!(puzzle.square_size, GridVec { x: 0, y: 2 });
    assert_eq!(puzzle.num_cells(), 0);
    assert_eq!(puzzle.num_verts(), 3);
}

#[test]
fn line_splits_two_by_two_into_two_regions() {
    let puzzle = Puzzle::from_single_line("21|1 ").unwrap();
    let line = line_of(&[1, 7, 2, 5, 11, 10, 3, 8]);
    let solution = puzzle.solution(line.clone());
    assert_eq!(solution.line, line);
    assert_eq!(solution.regions, vec![region(&[0], 2), region(&[1, 3, 2], 2)]);
    assert_eq!(solution.pip_count, Some(Pips(2)));
}

#[test]
fn empty_line_gives_one_region() {
    let puzzle = Puzzle::from_single_line("21|1 ").unwrap();
    let solution = puzzle.solution(HashSet::new());
    assert_eq!(solution.regions.len(), 1);
    assert_eq!(solution.regions[0].1, Pips(4));
    let mut cells: Vec<usize> = solution.regions[0].0.iter().map(|c| c.index()).collect();
    assert_eq!(cells[0], 0);
    cells.sort();
    assert_eq!(cells, vec![0, 1, 2, 3]);
    assert_eq!(solution.pip_count, Some(Pips(4)));
}

#[test]
fn unequal_regions_are_no_solution() {
    let puzzle = Puzzle::from_single_line("21|1 ").unwrap();
    // Every edge between two cells: each cell is a region of its own.
    let regions = puzzle.regions(&line_of(&[1, 4, 8, 9]));
    assert_eq!(
        regions,
        vec![region(&[0], 2), region(&[1], 1), region(&[2], 1), region(&[3], 0)]
    );
    assert_eq!(puzzle.solution_number(&regions), None);
    // Cells 1 and 2 apart from 0, cell 3 with cell 1.
    let regions = puzzle.regions(&line_of(&[1, 8, 4]));
    assert_eq!(regions, vec![region(&[0], 2), region(&[1, 3], 1), region(&[2], 1)]);
    assert_eq!(puzzle.solution_number(&regions), None);
}

#[test]
fn solution_number_ignores_regions_without_pips() {
    let puzzle = Puzzle::from_single_line("1").unwrap();
    let regions = vec![region(&[0], 0), region(&[1], 3), region(&[2], 0), region(&[3], 3)];
    assert_eq!(puzzle.solution_number(&regions), Some(Pips(3)));
    let regions = vec![region(&[0], 0), region(&[1], 0)];
    assert_eq!(puzzle.solution_number(&regions), Some(Pips(0)));
    assert_eq!(puzzle.solution_number(&[]), Some(Pips(0)));
    let regions = vec![region(&[0], 3), region(&[1], 0), region(&[2], 2)];
    assert_eq!(puzzle.solution_number(&regions), None);
}

#[test]
fn pips_add_up() {
    assert_eq!(Pips::zero(), Pips(0));
    assert_eq!(Pips(2) + Pips(5), Pips(7));
    let mut pips = Pips(1);
    pips += Pips(8);
    assert_eq!(pips, Pips(9));
    assert_eq!(Pips::sum(&[Pips(1), Pips(2), Pips(3)]), Pips(6));
    assert_eq!(Pips::sum(&[]), Pips(0));
    assert!(Pips(1) < Pips(2));
}

#[test]
fn rectangular_takes_the_pips_in_reading_order() {
    let puzzle = Puzzle::rectangular(3, 1, vec![Pips(4), Pips(5), Pips(6)]);
    assert_eq!(puzzle.num_cells(), 3);
    assert_eq!(puzzle.cell(CellIdx::new(1)).pips, Pips(5));
    assert_eq!(puzzle.cell(CellIdx::new(1)).verts, verts(&[1, 2, 6, 5]));
    assert_eq!(puzzle.cell(CellIdx::new(1)).neighbours, neighbours(&[(2, 2), (1, 0)]));
    assert_eq!(puzzle.num_edges(), 4 + 6);
}

#[test]
fn shape_of_two_cells() {
    let shape = Shape::rectangular(2, 1);
    assert_eq!(shape.square_size, GridVec { x: 2, y: 1 });
    assert_eq!(
        shape_verts(&shape),
        vec![
            GridVec { x: 0, y: 0 },
            GridVec { x: 1, y: 0 },
            GridVec { x: 2, y: 0 },
            GridVec { x: 0, y: 1 },
            GridVec { x: 1, y: 1 },
            GridVec { x: 2, y: 1 }
        ]
    );
    assert_eq!(shape_edges(&shape), ends(&[(0, 3), (1, 4), (2, 5), (0, 1), (1, 2), (3, 4), (4, 5)]));
    assert_eq!(shape.num_cells(), 2);
    assert_eq!(shape.cell(CellIdx::new(0)).verts, verts(&[0, 1, 4, 3]));
    assert_eq!(shape.cell(CellIdx::new(0)).neighbours, neighbours(&[(1, 1)]));
    assert_eq!(shape.cell(CellIdx::new(1)).verts, verts(&[1, 2, 5, 4]));
    assert_eq!(shape.cell(CellIdx::new(1)).neighbours, neighbours(&[(1, 0)]));
}

#[test]
fn shape_and_puzzle_share_edges_and_cells() {
    let shape = Shape::rectangular(3, 2);
    let puzzle = Puzzle::from_single_line("123|456").unwrap();
    assert_eq!(shape_edges(&shape), puzzle_edges(&puzzle));
    for c in 0..6 {
        assert_eq!(shape.cell(CellIdx::new(c)).verts, puzzle.cell(CellIdx::new(c)).verts);
        assert_eq!(shape.cell(CellIdx::new(c)).neighbours, puzzle.cell(CellIdx::new(c)).neighbours);
    }
    assert_eq!(shape.cell(CellIdx::new(4)).neighbours, neighbours(&[(12, 1), (6, 5), (5, 3)]));
}

#[test]
fn edge_lookup_finds_either_direction() {
    let edges = lattice_edges(2, 1);
    let between = |a: usize, b: usize| get_edge_idx_between(&edges, VertIdx::new(a), VertIdx::new(b));
    assert_eq!(between(1, 4), Some(EdgeIdx::new(1)));
    assert_eq!(between(4, 1), Some(EdgeIdx::new(1)));
    assert_eq!(between(4, 5), Some(EdgeIdx::new(6)));
    assert_eq!(between(5, 4), Some(EdgeIdx::new(6)));
    assert_eq!(between(0, 4), None);
    assert_eq!(between(2, 2), None);
}

#[test]
fn room_for_a_grid() {
    assert!(has_room(0, 0));
    assert!(has_room(64, 64));
    assert!(!has_room(usize::MAX, 1));
    assert!(!has_room(1, usize::MAX));
    assert!(!has_room(usize::MAX / 2, 2));
}

/// The cells that can be reached from `start` without crossing `line`.
fn reachable(puzzle: &Puzzle, line: &HashSet<usize>, start: usize) -> Vec<usize> {
    let mut seen = vec![start];
    let mut next = 0;
    while next < seen.len() {
        let cell = puzzle.cell(CellIdx::new(seen[next]));
        for (edge, neighbour) in &cell.neighbours {
            if !line.contains(&edge.index()) && !seen.contains(&neighbour.index()) {
                seen.push(neighbour.index());
            }
        }
        next += 1;
    }
    seen.sort();
    seen
}

#[test]
fn regions_are_the_parts_that_the_line_cuts() {
    let puzzle = Puzzle::from_single_line("123|456|789").unwrap();
    let inner_edges = [1usize, 2, 5, 6, 9, 10, 15, 16, 17, 18, 19, 20];
    for chosen in 0u32..(1 << inner_edges.len()) {
        let on_line: Vec<usize> =
            (0..inner_edges.len()).filter(|k| chosen & (1 << k) != 0).map(|k| inner_edges[k]).collect();
        let line = line_of(&on_line);
        let regions = puzzle.regions(&line);
        let mut seen = vec![false; 9];
        let mut last_first = None;
        for (cells, pips) in &regions {
            assert!(!cells.is_empty());
            let first = cells[0].index();
            assert!(last_first < Some(first));
            last_first = Some(first);
            let mut numbers: Vec<usize> = cells.iter().map(|c| c.index()).collect();
            assert_eq!(numbers.iter().min(), Some(&first));
            numbers.sort();
            assert_eq!(numbers, reachable(&puzzle, &line, first));
            let sum: usize = numbers.iter().map(|c| c + 1).sum();
            assert_eq!(*pips, Pips(sum));
            for c in numbers {
                assert!(!seen[c]);
                seen[c] = true;
            }
        }
        assert!(seen.iter().all(|s| *s));
    }
}
