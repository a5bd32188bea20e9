use split_puzzle::cell_set::CellBitmap;
use split_puzzle::context::{FeasibilityError, SolvingContext};
use split_puzzle::grid::Puzzle;
use split_puzzle::layout::MalformedLayoutError;
use split_puzzle::report::Candidate;

fn regions_of(ctx: &SolvingContext) -> Vec<(u64, usize)> {
    ctx.reporter.candidates.iter().map(|c| (c.region.bits, c.pip_sum)).collect()
}

#[test]
fn two_by_two_example() {
    let puzzle = Puzzle::new("21|1.").unwrap();
    assert_eq!(puzzle.width, 2);
    assert_eq!(puzzle.height, 2);
    assert_eq!(puzzle.pip_count_per_cell.to_vec(), vec![2, 1, 1, 0]);
    assert_eq!(puzzle.total_num_pips(), 4);
    let mut ctx = SolvingContext::new(&puzzle, 100).unwrap();
    assert_eq!(ctx.possible_solutions, 0b100);
    assert_eq!(ctx.biggest_required_pip_count(), Some(2));
    ctx.solve();
    let found = regions_of(&ctx);
    assert!(found.contains(&(0b0001, 2)));
    assert_eq!(
        found,
        vec![(0b0001, 2), (0b1110, 2), (0b1010, 1), (0b0010, 1), (0b1100, 1), (0b0100, 1)]
    );
    for candidate in &ctx.reporter.candidates {
        assert!(candidate.pip_sum <= 2);
        assert_eq!(4 % candidate.pip_sum, 0);
    }
}

#[test]
fn all_zero_grid_is_empty_puzzle() {
    let puzzle = Puzzle::new("..|..").unwrap();
    assert_eq!(puzzle.total_num_pips(), 0);
    assert_eq!(SolvingContext::new(&puzzle, 10).err(), Some(FeasibilityError::EmptyPuzzle));
}

#[test]
fn two_single_cell_rows() {
    let puzzle = Puzzle::new("1|1").unwrap();
    assert_eq!(puzzle.width, 1);
    assert_eq!(puzzle.height, 2);
    assert_eq!(puzzle.num_cells(), 2);
    assert_eq!(puzzle.total_num_pips(), 2);
    let mut ctx = SolvingContext::new(&puzzle, 100).unwrap();
    assert_eq!(ctx.possible_solutions, 0b10);
    assert_eq!(ctx.biggest_required_pip_count(), Some(1));
    ctx.solve();
    assert_eq!(regions_of(&ctx), vec![(0b01, 1), (0b10, 1)]);
}

#[test]
fn too_many_pips() {
    let puzzle = Puzzle::new("9999|9999").unwrap();
    assert_eq!(puzzle.total_num_pips(), 72);
    assert_eq!(SolvingContext::new(&puzzle, 10).err(), Some(FeasibilityError::TooManyPips));
    let puzzle = Puzzle::new("9999|999").err();
    assert_eq!(puzzle, Some(MalformedLayoutError::UnequalRows));
    let puzzle = Puzzle::new("9999|9990").unwrap();
    assert_eq!(puzzle.total_num_pips(), 63);
    assert!(SolvingContext::new(&puzzle, 10).is_ok());
    let puzzle = Puzzle::new("9999|9991").unwrap();
    assert_eq!(puzzle.total_num_pips(), 64);
    assert_eq!(SolvingContext::new(&puzzle, 10).err(), Some(FeasibilityError::TooManyPips));
}

#[test]
fn no_possible_total_gives_no_candidate() {
    let puzzle = Puzzle::new("31").unwrap();
    let mut ctx = SolvingContext::new(&puzzle, 10).unwrap();
    assert_eq!(ctx.possible_solutions, 0);
    assert_eq!(ctx.biggest_required_pip_count(), None);
    ctx.solve();
    assert_eq!(ctx.reporter.num_solutions(), 0);
    assert_eq!(ctx.reporter.candidates, Vec::<Candidate>::new());
}

#[test]
fn search_stops_at_the_maximum() {
    let puzzle = Puzzle::new("21|1.").unwrap();
    let mut ctx = SolvingContext::new(&puzzle, 3).unwrap();
    ctx.solve();
    assert_eq!(regions_of(&ctx), vec![(0b0001, 2), (0b1110, 2), (0b1010, 1)]);
    assert!(ctx.reporter.should_stop());
    let mut ctx = SolvingContext::new(&puzzle, 0).unwrap();
    ctx.solve();
    assert_eq!(ctx.reporter.num_solutions(), 0);
}

#[test]
fn adjacency_of_a_three_by_two_grid() {
    let puzzle = Puzzle::new("123|456").unwrap();
    let expected: [u64; 6] = [0b001010, 0b010101, 0b100010, 0b010001, 0b101010, 0b010100];
    let adjacent = puzzle.adjacent_cell_bitmaps.to_vec();
    assert_eq!(adjacent.len(), 6);
    for cell in 0..6 {
        assert_eq!(adjacent[cell], CellBitmap::from_bits(expected[cell]));
    }
}
