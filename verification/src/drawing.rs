//! A picture of a line that runs through a puzzle, in characters.

use crate::lattice::fits;
use crate::lattice::horizontal_edge;
use crate::lattice::lemma_lattice_bounds;
use crate::lattice::vertical_edge;
use crate::index::CellIdx;
use crate::puzzle::Puzzle;
use std::collections::HashSet;
use vstd::prelude::*;

verus! {

/// The character of the digit `d`.
pub open spec fn digit_char(d: int) -> char {
    if d == 0 {
        '0'
    } else if d == 1 {
        '1'
    } else if d == 2 {
        '2'
    } else if d == 3 {
        '3'
    } else if d == 4 {
        '4'
    } else if d == 5 {
        '5'
    } else if d == 6 {
        '6'
    } else if d == 7 {
        '7'
    } else if d == 8 {
        '8'
    } else {
        '9'
    }
}

/// The number `n` written in decimal digits.
pub open spec fn decimal(n: nat) -> Seq<char>
    decreases n,
{
    if n < 10 {
        seq![digit_char(n as int)]
    } else {
        decimal(n / 10).push(digit_char((n % 10) as int))
    }
}

/// What is drawn inside a cell with `pips` pips: their number and a blank,
/// or two blanks where there are none.
pub open spec fn pips_text(pips: usize) -> Seq<char> {
    if pips == 0 {
        seq![' ', ' ']
    } else {
        decimal(pips as nat).push(' ')
    }
}

/// The first `n` cells of the row of edges above the cells of row `y`: for
/// each a `+`, and `---` where the edge above the cell is part of the line,
/// three blanks where it is not.
pub open spec fn border_cells(width: int, height: int, line: Set<usize>, y: int, n: int) -> Seq<char>
    decreases n,
{
    if n <= 0 {
        Seq::<char>::empty()
    } else {
        let dash = if line.contains(horizontal_edge(width, height, n - 1, y) as usize) {
            '-'
        } else {
            ' '
        };
        border_cells(width, height, line, y, n - 1) + seq!['+', dash, dash, dash]
    }
}

/// The mark of the edge that goes down from the vertex in column `x` and
/// row `y`: `|` where it is part of the line, a blank where it is not.
pub open spec fn bar(width: int, line: Set<usize>, x: int, y: int) -> char {
    if line.contains(vertical_edge(width, x, y) as usize) {
        '|'
    } else {
        ' '
    }
}

/// The first `n` cells of row `y`: for each the mark of the edge to its
/// left, a blank, and its pips.
pub open spec fn row_cells(
    pips: Seq<usize>,
    width: int,
    line: Set<usize>,
    y: int,
    n: int,
) -> Seq<char>
    decreases n,
{
    if n <= 0 {
        Seq::<char>::empty()
    } else {
        row_cells(pips, width, line, y, n - 1) + seq![bar(width, line, n - 1, y), ' '] + pips_text(
            pips[y * width + (n - 1)],
        )
    }
}

/// The first `n` rows of the picture: for each its row of edges, and its
/// row of cells if it has one; every row ends in a line break.
pub open spec fn rows(
    pips: Seq<usize>,
    width: int,
    height: int,
    line: Set<usize>,
    n: int,
) -> Seq<char>
    decreases n,
{
    if n <= 0 {
        Seq::<char>::empty()
    } else {
        let y = n - 1;
        let border = border_cells(width, height, line, y, width) + seq!['+', '\n'];
        let cells = if y < height {
            row_cells(pips, width, line, y, width) + seq![bar(width, line, width, y), '\n']
        } else {
            Seq::<char>::empty()
        };
        rows(pips, width, height, line, y) + border + cells
    }
}

/// The character of the digit `d`.
fn digit(d: usize) -> (c: char)
    requires
        d < 10,
    ensures
        c == digit_char(d as int),
{
    if d == 0 {
        '0'
    } else if d == 1 {
        '1'
    } else if d == 2 {
        '2'
    } else if d == 3 {
        '3'
    } else if d == 4 {
        '4'
    } else if d == 5 {
        '5'
    } else if d == 6 {
        '6'
    } else if d == 7 {
        '7'
    } else if d == 8 {
        '8'
    } else {
        '9'
    }
}

/// Writes `n` in decimal digits behind `string`.
pub fn push_decimal(string: &mut String, n: usize)
    ensures
        final(string)@ == old(string)@ + decimal(n as nat),
    decreases n,
{
    if n >= 10 {
        push_decimal(string, n / 10);
    }
    string.push(digit(n % 10));
    proof {
        if n >= 10 {
            assert(string@ =~= old(string)@ + decimal(n as nat));
        } else {
            assert(string@ =~= old(string)@ + decimal(n as nat));
        }
    }
}

impl Puzzle {
    /// Draws a picture of the given `line` running through this `Puzzle`:
    /// the rows of a grid as large as `square_size` says, with the pips of
    /// the cells in reading order.
    pub fn print_line(&self, line: &HashSet<usize>) -> (picture: String)
        requires
            self.is_grid(),
        ensures
            picture@ == rows(
                self.pip_counts(),
                self.square_size.x as int,
                self.square_size.y as int,
                line@,
                self.square_size.y + 1,
            ),
    {
        broadcast use vstd::std_specs::hash::group_hash_axioms;

        let width = self.square_size.x;
        let height = self.square_size.y;
        let ghost pips = self.pip_counts();
        proof {
            lemma_lattice_bounds(width as int, height as int, 0, 0);
        }
        let num_vertical_edges = (width + 1) * height;
        proof {
            assert((width + 1) * height == height * (width + 1)) by (nonlinear_arith);
        }
        let mut picture = String::new();
        let mut y: usize = 0;
        while y < height + 1
            invariant
                fits(width as int, height as int),
                self.cells@.len() >= width * height,
                pips == self.pip_counts(),
                height + 1 <= usize::MAX,
                width + 1 <= usize::MAX,
                num_vertical_edges == height * (width + 1),
                y <= height + 1,
                picture@ == rows(pips, width as int, height as int, line@, y as int),
            decreases height + 1 - y,
        {
            let ghost drawn = picture@;
            // Draw line of horizontal edges
            let mut x: usize = 0;
            while x < width
                invariant
                    fits(width as int, height as int),
                    num_vertical_edges == height * (width + 1),
                    y < height + 1,
                    x <= width,
                    picture@ == drawn + border_cells(
                        width as int,
                        height as int,
                        line@,
                        y as int,
                        x as int,
                    ),
                decreases width - x,
            {
                proof {
                    lemma_lattice_bounds(width as int, height as int, x as int, y as int);
                }
                let edge = num_vertical_edges + y * width + x;
                let dash = if line.contains(&edge) {
                    '-'
                } else {
                    ' '
                };
                let ghost so_far = picture@;
                picture.push('+');
                picture.push(dash);
                picture.push(dash);
                picture.push(dash);
                proof {
                    assert(picture@ =~= so_far + seq!['+', dash, dash, dash]);
                    assert(picture@ =~= drawn + border_cells(
                        width as int,
                        height as int,
                        line@,
                        y as int,
                        x + 1,
                    ));
                }
                x += 1;
            }
            let ghost bordered = picture@;
            picture.push('+');
            picture.push('\n');
            // Draw line of vertical edges and each cell's pip count
            if y < height {
                let ghost begun = picture@;
                let mut x: usize = 0;
                while x < width
                    invariant
                        fits(width as int, height as int),
                        self.cells@.len() >= width * height,
                        pips == self.pip_counts(),
                        y < height,
                        x <= width,
                        picture@ == begun + row_cells(
                            pips,
                            width as int,
                            line@,
                            y as int,
                            x as int,
                        ),
                    decreases width - x,
                {
                    proof {
                        lemma_lattice_bounds(width as int, height as int, x as int, y as int);
                    }
                    let edge = y * (width + 1) + x;
                    let mark = if line.contains(&edge) {
                        '|'
                    } else {
                        ' '
                    };
                    let ghost so_far = picture@;
                    picture.push(mark);
                    picture.push(' ');
                    let num_pips = self.cells.get(CellIdx::new(y * width + x)).pips.0;
                    if num_pips == 0 {
                        picture.push(' ');
                        picture.push(' ');
                    } else {
                        push_decimal(&mut picture, num_pips);
                        picture.push(' ');
                    }
                    proof {
                        assert(pips[y * width + x] == num_pips);
                        assert(picture@ =~= so_far + seq![mark, ' '] + pips_text(num_pips));
                        assert(picture@ =~= begun + row_cells(
                            pips,
                            width as int,
                            line@,
                            y as int,
                            x + 1,
                        ));
                    }
                    x += 1;
                }
                proof {
                    lemma_lattice_bounds(width as int, height as int, width as int, y as int);
                }
                let edge = y * (width + 1) + width;
                let mark = if line.contains(&edge) {
                    '|'
                } else {
                    ' '
                };
                picture.push(mark);
                picture.push('\n');
            }
            proof {
                let border = border_cells(width as int, height as int, line@, y as int, width as int)
                    + seq!['+', '\n'];
                let cells = if y < height {
                    row_cells(pips, width as int, line@, y as int, width as int) + seq![
                        bar(width as int, line@, width as int, y as int),
                        '\n',
                    ]
                } else {
                    Seq::<char>::empty()
                };
                assert(picture@ =~= drawn + border + cells);
            }
            y += 1;
        }
        picture
    }
}

} // verus!
