use std::collections::HashSet;

use split_puzzle::drawing::push_decimal;
use split_puzzle::print_some_puzzles;
use split_puzzle::puzzle::Puzzle;

#[test]
fn print_some_puzzles_draws_the_example() {
    assert_eq!(
        print_some_puzzles(),
        "+   +---+\n  2 | 1 |\n+---+   +\n| 1     |\n+---+---+\n"
    );
}

#[test]
fn picture_without_a_line() {
    let puzzle = Puzzle::from_single_line(" 2 |1 1|212").unwrap();
    let picture = puzzle.print_line(&HashSet::new());
    assert_eq!(
        picture,
        "+   +   +   +\n      2      \n+   +   +   +\n  1       1  \n+   +   +   +\n  2   1   2  \n+   +   +   +\n"
    );
}

#[test]
fn picture_of_a_puzzle_without_cells() {
    let puzzle = Puzzle::from_single_line("").unwrap();
    assert_eq!(puzzle.print_line(&HashSet::new()), "+\n \n+\n");
}

#[test]
fn push_decimal_writes_digits() {
    let mut text = String::from("n=");
    push_decimal(&mut text, 0);
    assert_eq!(text, "n=0");
    push_decimal(&mut text, 10);
    assert_eq!(text, "n=010");
    let mut text = String::new();
    push_decimal(&mut text, 1234567890);
    assert_eq!(text, "1234567890");
    let mut text = String::new();
    push_decimal(&mut text, usize::MAX);
    assert_eq!(text, usize::MAX.to_string());
}
