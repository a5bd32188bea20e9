//! Pictures of cell sets, one character for each cell.

use crate::cell_set::CellBitmap;
use crate::context::SolvingContext;
use crate::grid::Puzzle;
use crate::index::CellIdx;
use crate::search::PartialSolution;
use vstd::prelude::*;

verus! {

/// `String::push` appends the character to the end of the string.
pub assume_specification[ String::push ](s: &mut String, c: char)
    ensures
        final(s)@ == old(s)@.push(c),
;

/// The character of a cell that no set holds.
pub const NO_MARK: char = '-';

/// The mark of `cell`: the character of the first set from `from` on that
/// holds the cell, or `-` where none does.
pub open spec fn mark_from(bitmaps: Seq<(CellBitmap, char)>, cell: int, from: int) -> char
    decreases bitmaps.len() - from,
{
    if from < 0 || from >= bitmaps.len() {
        '-'
    } else if bitmaps[from].0@.contains(cell) {
        bitmaps[from].1
    } else {
        mark_from(bitmaps, cell, from + 1)
    }
}

/// The picture of the first `cells` cells of a grid `width` wide: the mark of
/// each cell, and a line break before each row but the first.
pub open spec fn picture(width: int, bitmaps: Seq<(CellBitmap, char)>, cells: int) -> Seq<char>
    decreases cells,
{
    if cells <= 0 {
        Seq::<char>::empty()
    } else {
        let cell = cells - 1;
        let before = picture(width, bitmaps, cell);
        let row_start = if cell > 0 && cell % width == 0 {
            before.push('\n')
        } else {
            before
        };
        row_start.push(mark_from(bitmaps, cell, 0))
    }
}

/// The mark of `cell` among `bitmaps`.
pub fn mark_of(bitmaps: &[(CellBitmap, char)], cell: CellIdx) -> (mark: char)
    requires
        cell.raw < 64,
    ensures
        mark == mark_from(bitmaps@, cell.raw as int, 0),
{
    let mut k: usize = 0;
    while k < bitmaps.len()
        invariant
            cell.raw < 64,
            k <= bitmaps.len(),
            mark_from(bitmaps@, cell.raw as int, 0) == mark_from(
                bitmaps@,
                cell.raw as int,
                k as int,
            ),
        decreases bitmaps.len() - k,
    {
        if bitmaps[k].0.get(cell) {
            return bitmaps[k].1;
        }
        k += 1;
    }
    NO_MARK
}

/// Draws a grid of `width` by `height` cells row by row: for each cell the
/// character of the first set that holds it, or `-`.
pub fn print_bitmaps(width: usize, height: usize, bitmaps: &[(CellBitmap, char)]) -> (string: String)
    requires
        width * height <= 64,
    ensures
        string@ == picture(width as int, bitmaps@, width * height),
{
    let mut string = String::new();
    let cells = width * height;
    let mut idx: usize = 0;
    while idx < cells
        invariant
            cells == width * height,
            cells <= 64,
            idx <= cells,
            string@ == picture(width as int, bitmaps@, idx as int),
        decreases cells - idx,
    {
        proof {
            if width == 0 {
                assert(width * height == 0) by (nonlinear_arith)
                    requires
                        width == 0,
                ;
            }
        }
        if idx > 0 && idx % width == 0 {
            string.push('\n');
        }
        string.push(mark_of(bitmaps, CellIdx::new(idx)));
        idx += 1;
    }
    string
}

impl Puzzle {
    /// Draws the grid with the marks of `bitmaps`.
    pub fn print_bitmap(&self, bitmaps: &[(CellBitmap, char)]) -> (string: String)
        requires
            self.wf(),
        ensures
            string@ == picture(self.width as int, bitmaps@, self.cells()),
    {
        print_bitmaps(self.width, self.height, bitmaps)
    }
}

impl PartialSolution {
    /// Draws the node: `I` for a cell inside, `O` for one outside, `-` for an
    /// undecided one.
    pub fn print_assignment_str(&self, ctx: &SolvingContext) -> (string: String)
        requires
            ctx.puzzle.wf(),
        ensures
            string@ == picture(
                ctx.puzzle.width as int,
                seq![(self.inside, 'I'), (self.outside, 'O')],
                ctx.puzzle.cells(),
            ),
    {
        let marks = [(self.inside, 'I'), (self.outside, 'O')];
        proof {
            assert(marks@ =~= seq![(self.inside, 'I'), (self.outside, 'O')]);
        }
        ctx.puzzle.print_bitmap(&marks)
    }
}

} // verus!
