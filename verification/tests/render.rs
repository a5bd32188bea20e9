use split_puzzle::cell_set::CellBitmap;
use split_puzzle::context::SolvingContext;
use split_puzzle::grid::Puzzle;
use split_puzzle::index::CellIdx;
use split_puzzle::render::{mark_of, print_bitmaps};
use split_puzzle::search::PartialSolution;

#[test]
fn render_bitmaps_draws_rows() {
    let inside = CellBitmap::from_bits(0b000011);
    let outside = CellBitmap::from_bits(0b110010);
    let picture = print_bitmaps(3, 2, &[(inside, 'I'), (outside, 'O')]);
    assert_eq!(picture, "II-\n-OO");
    assert_eq!(print_bitmaps(3, 2, &[]), "---\n---");
    assert_eq!(print_bitmaps(0, 5, &[(inside, 'I')]), "");
    assert_eq!(print_bitmaps(1, 3, &[(inside, 'x')]), "x\nx\n-");
}

#[test]
fn first_bitmap_wins() {
    let a = CellBitmap::from_bits(0b01);
    let b = CellBitmap::from_bits(0b11);
    assert_eq!(mark_of(&[(a, 'a'), (b, 'b')], CellIdx::new(0)), 'a');
    assert_eq!(mark_of(&[(a, 'a'), (b, 'b')], CellIdx::new(1)), 'b');
    assert_eq!(mark_of(&[(a, 'a'), (b, 'b')], CellIdx::new(2)), '-');
}

#[test]
fn assignment_str_of_a_root() {
    let puzzle = Puzzle::new("21|1.").unwrap();
    let ctx = SolvingContext::new(&puzzle, 10).unwrap();
    let root = PartialSolution::with_initial_inside(&ctx, CellIdx::new(2));
    assert_eq!(root.print_assignment_str(&ctx), "OO\nI-");
    assert_eq!(puzzle.print_bitmap(&[(root.expandable_cells, '#')]), "--\n-#");
}
