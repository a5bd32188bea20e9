//! A search engine for region-partition puzzles: every cell of a rectangular
//! grid carries a number of pips, and a solution splits the grid into connected
//! regions whose pip totals agree.

use crate::drawing::rows;
use crate::layout::layout_pips;
use crate::puzzle::Puzzle;
use std::collections::HashSet;
use vstd::prelude::*;

pub mod cell_set;
pub mod cell_vec;
pub mod context;
pub mod drawing;
pub mod grid;
pub mod grid_vec;
pub mod index;
pub mod lattice;
pub mod layout;
pub mod laws;
pub mod puzzle;
pub mod render;
pub mod report;
pub mod search;
pub mod shape;

verus! {

/// The edges of the line that [`print_some_puzzles`] draws.
pub open spec fn example_line() -> Set<usize> {
    set![1usize, 7usize, 2usize, 5usize, 11usize, 10usize, 3usize, 8usize]
}

/// Draws one small puzzle with a line through it that solves it: the grid of
/// two by two cells with the layout `21|1 `, and the line around its first
/// cell and around the other three.
pub fn print_some_puzzles() -> (picture: String)
    ensures
        picture@ == rows(layout_pips("21|1 "@, ' '), 2, 2, example_line(), 3),
{
    broadcast use vstd::std_specs::hash::group_hash_axioms;

    proof {
        reveal_strlit("21|1 ");
        let s = "21|1 "@;
        assert(s =~= seq!['2', '1', '|', '1', ' ']);
        crate::layout::lemma_layout_width(s, 2);
        assert(!crate::layout::has_invalid_char(s, ' '));
        assert(crate::layout::has_equal_rows(s, 2));
        assert(crate::layout::layout_height(s) == 2);
        assert((2 + 1) * (2 + 1) == 9) by (nonlinear_arith);
        assert(2 * 2 == 4) by (nonlinear_arith);
        assert(crate::puzzle::single_line_error(s) is None);
    }
    let puzzle = match Puzzle::from_single_line("21|1 ") {
        Ok(puzzle) => puzzle,
        Err(_) => {
            return String::new();
        },
    };
    let mut line: HashSet<usize> = HashSet::new();
    line.insert(1);
    line.insert(7);
    line.insert(2);
    line.insert(5);
    line.insert(11);
    line.insert(10);
    line.insert(3);
    line.insert(8);
    proof {
        assert(line@ =~= example_line());
    }
    let soln = puzzle.solution(line);
    proof {
        assert(puzzle.pip_counts() =~= layout_pips("21|1 "@, ' '));
    }
    puzzle.print_line(&soln.line)
}

} // verus!
