//! The grid: its cells, their pip counts and which cells share an edge.

use crate::cell_set::CellBitmap;
use crate::cell_vec::CellBitmaps;
use crate::cell_vec::CellPips;
use crate::index::CellIdx;
use crate::layout::layout_fault;
use crate::layout::layout_height;
use crate::layout::layout_pips;
use crate::layout::layout_width;
use crate::layout::parse_layout;
use crate::layout::MalformedLayoutError;
use crate::layout::MAX_PIPS_PER_CELL;
use vstd::arithmetic::div_mod::lemma_fundamental_div_mod_converse;
use vstd::prelude::*;

verus! {

/// Whether cells `a` and `b` of a grid `width` wide and `height` high share an
/// edge: they are neighbours in one row, or one stands directly above the other.
/// Cells are numbered row by row.
pub open spec fn grid_adjacent(width: int, height: int, a: int, b: int) -> bool {
    &&& 0 <= a < width * height
    &&& 0 <= b < width * height
    &&& width > 0
    &&& {
        ||| (b == a + 1 && b % width != 0)
        ||| (a == b + 1 && a % width != 0)
        ||| b == a + width
        ||| a == b + width
    }
}

/// Sharing an edge is mutual, and no cell shares an edge with itself.
pub proof fn lemma_adjacency_symmetric_irreflexive(width: int, height: int, a: int, b: int)
    ensures
        grid_adjacent(width, height, a, b) == grid_adjacent(width, height, b, a),
        !grid_adjacent(width, height, a, a),
{
}

proof fn lemma_cell_coordinates(width: int, height: int, cx: int, cy: int)
    requires
        0 <= cx < width,
        0 <= cy < height,
    ensures
        0 <= cy * width + cx < width * height,
        (cy * width + cx) % width == cx,
        (cy * width + cx) / width == cy,
        (cy * width + cx + 1) % width != 0 <==> cx + 1 < width,
        cy * width + cx + width < width * height <==> cy + 1 < height,
        cy * width + cx >= width <==> cy > 0,
{
    let a = cy * width + cx;
    lemma_fundamental_div_mod_converse(a, width, cy, cx);
    assert(0 <= cy * width && (cy + 1) * width <= height * width && (cy + 1) * width == cy * width
        + width) by (nonlinear_arith)
        requires
            0 <= cy < height,
            0 < width,
    ;
    assert(width * height == height * width) by (nonlinear_arith);
    if cx + 1 < width {
        lemma_fundamental_div_mod_converse(a + 1, width, cy, cx + 1);
    } else {
        lemma_fundamental_div_mod_converse(a + 1, width, cy + 1, 0);
    }
    if cy + 1 < height {
        assert((cy + 2) * width <= height * width && (cy + 2) * width == cy * width + 2 * width)
            by (nonlinear_arith)
            requires
                0 <= cy + 1 < height,
                0 < width,
        ;
    }
    if cy > 0 {
        assert(cy * width >= width) by (nonlinear_arith)
            requires
                cy >= 1,
                0 < width,
        ;
    } else {
        assert(cy * width == 0);
    }
}

/// For each cell of the grid, the set of cells that share an edge with it.
pub fn adjacency_bitmaps(width: usize, height: usize) -> (r: CellBitmaps)
    requires
        width * height <= 64,
    ensures
        r@.len() == width * height,
        forall|a: int, b: int|
            0 <= a < r@.len() ==> (#[trigger] r@[a]@.contains(b) <==> grid_adjacent(
                width as int,
                height as int,
                a,
                b,
            )),
{
    let mut r = CellBitmaps::new();
    let mut cy: usize = 0;
    while cy < height
        invariant
            width * height <= 64,
            cy <= height,
            width == 0 ==> r@.len() == 0,
            r@.len() == cy * width,
            forall|a: int, b: int|
                0 <= a < r@.len() ==> (#[trigger] r@[a]@.contains(b) <==> grid_adjacent(
                    width as int,
                    height as int,
                    a,
                    b,
                )),
        decreases height - cy,
    {
        let mut cx: usize = 0;
        while cx < width
            invariant
                width * height <= 64,
                cy < height,
                cx <= width,
                r@.len() == cy * width + cx,
                forall|a: int, b: int|
                    0 <= a < r@.len() ==> (#[trigger] r@[a]@.contains(b) <==> grid_adjacent(
                        width as int,
                        height as int,
                        a,
                        b,
                    )),
            decreases width - cx,
        {
            proof {
                lemma_cell_coordinates(width as int, height as int, cx as int, cy as int);
                if cx + 1 < width {
                    lemma_cell_coordinates(width as int, height as int, cx + 1, cy as int);
                }
            }
            let index: usize = r.len();
            let mut bitmap = CellBitmap::empty();
            if cx > 0 {
                bitmap.set(CellIdx::new(index - 1));
            }
            if cx + 1 < width {
                bitmap.set(CellIdx::new(index + 1));
            }
            if cy > 0 {
                bitmap.set(CellIdx::new(index - width));
            }
            if cy + 1 < height {
                bitmap.set(CellIdx::new(index + width));
            }
            proof {
                assert forall|b: int| #[trigger]
                    bitmap@.contains(b) <==> grid_adjacent(
                        width as int,
                        height as int,
                        index as int,
                        b,
                    ) by {}
            }
            r.push(bitmap);
            cx += 1;
        }
        proof {
            assert((cy + 1) * width == cy * width + width) by (nonlinear_arith);
        }
        cy += 1;
    }
    proof {
        assert(r@.len() == width * height) by (nonlinear_arith)
            requires
                r@.len() == cy * width,
                cy == height,
        ;
    }
    r
}

/// The character of a cell without pips.
pub const BLANK: char = '.';

/// What is wrong with the layout of a grid, if anything: a fault of the
/// layout as such; if there is none, rows without cells; if there are cells,
/// more of them than a cell set can hold.
pub open spec fn layout_error(s: Seq<char>) -> Option<MalformedLayoutError> {
    if layout_fault(s, '.') is Some {
        layout_fault(s, '.')
    } else if layout_width(s) == 0 {
        Some(MalformedLayoutError::EmptyRow)
    } else if layout_pips(s, '.').len() > 64 {
        Some(MalformedLayoutError::TooLarge)
    } else {
        None
    }
}

/// The pips that the cells of `region` below `n` carry together.
pub open spec fn pips_within(pips: Seq<usize>, region: Set<int>, n: int) -> int
    decreases n,
{
    if n <= 0 {
        0
    } else {
        pips_within(pips, region, n - 1) + if region.contains(n - 1) && n - 1 < pips.len() {
            pips[n - 1] as int
        } else {
            0
        }
    }
}

/// The pips of all cells together.
pub open spec fn total_pips(pips: Seq<usize>) -> int {
    pips_within(pips, Set::<int>::full(), pips.len() as int)
}

/// A region that holds more cells carries at least as many pips.
pub proof fn lemma_pips_monotone(pips: Seq<usize>, small: Set<int>, large: Set<int>, n: int)
    requires
        small.subset_of(large),
    ensures
        0 <= pips_within(pips, small, n) <= pips_within(pips, large, n),
    decreases n,
{
    if n > 0 {
        lemma_pips_monotone(pips, small, large, n - 1);
    }
}

/// Only the cells below `n` count.
pub proof fn lemma_pips_agree(pips: Seq<usize>, a: Set<int>, b: Set<int>, n: int)
    requires
        forall|c: int| 0 <= c < n ==> a.contains(c) == b.contains(c),
    ensures
        pips_within(pips, a, n) == pips_within(pips, b, n),
    decreases n,
{
    if n > 0 {
        lemma_pips_agree(pips, a, b, n - 1);
    }
}

/// A cell that joins a region adds its own pips to the region's.
pub proof fn lemma_pips_insert(pips: Seq<usize>, region: Set<int>, c: int, n: int)
    requires
        0 <= c < n <= pips.len(),
        !region.contains(c),
    ensures
        pips_within(pips, region.insert(c), n) == pips_within(pips, region, n) + pips[c],
    decreases n,
{
    if n - 1 == c {
        lemma_pips_agree(pips, region.insert(c), region, n - 1);
    } else {
        lemma_pips_insert(pips, region, c, n - 1);
    }
}

/// No region carries more pips than its cells can hold.
pub proof fn lemma_pips_bounded(pips: Seq<usize>, region: Set<int>, n: int)
    requires
        0 <= n <= pips.len(),
        forall|c: int| 0 <= c < pips.len() ==> #[trigger] pips[c] <= MAX_PIPS_PER_CELL,
    ensures
        0 <= pips_within(pips, region, n) <= MAX_PIPS_PER_CELL * n,
    decreases n,
{
    if n > 0 {
        lemma_pips_bounded(pips, region, n - 1);
    }
}

/// A rectangular grid of cells, numbered row by row, each with its pip count
/// and the set of cells that share an edge with it.
#[derive(Debug)]
pub struct Puzzle {
    pub pip_count_per_cell: CellPips,
    pub width: usize,
    pub height: usize,
    pub adjacent_cell_bitmaps: CellBitmaps,
}

impl Puzzle {
    /// What holds of every grid: it has at least one and at most 64 cells, one
    /// pip count of at most nine and one adjacency set for each, and the
    /// adjacency sets say which cells share an edge.
    pub open spec fn wf(&self) -> bool {
        &&& self.width > 0
        &&& self.height > 0
        &&& self.width * self.height <= 64
        &&& self.pip_count_per_cell@.len() == self.width * self.height
        &&& self.adjacent_cell_bitmaps@.len() == self.width * self.height
        &&& forall|c: int|
            0 <= c < self.pip_count_per_cell@.len() ==> #[trigger] self.pip_count_per_cell@[c]
                <= MAX_PIPS_PER_CELL
        &&& forall|a: int, b: int|
            0 <= a < self.adjacent_cell_bitmaps@.len() ==> (
            #[trigger] self.adjacent_cell_bitmaps@[a]@.contains(b) <==> grid_adjacent(
                self.width as int,
                self.height as int,
                a,
                b,
            ))
    }

    /// Whether cells `a` and `b` share an edge.
    pub open spec fn adjacent(&self, a: int, b: int) -> bool {
        grid_adjacent(self.width as int, self.height as int, a, b)
    }

    /// The number of cells, as a mathematical integer.
    pub open spec fn cells(&self) -> int {
        self.width * self.height
    }

    /// Reads a grid from its layout: rows of equal length with a `|` between
    /// two of them, each character a digit, the cell's pip count, or `.` for a
    /// cell without pips.
    pub fn new(string: &str) -> (r: Result<Puzzle, MalformedLayoutError>)
        ensures
            match r {
                Ok(p) => {
                    &&& layout_error(string@) is None
                    &&& p.wf()
                    &&& p.width == layout_width(string@)
                    &&& p.height == layout_height(string@)
                    &&& p.pip_count_per_cell@ == layout_pips(string@, BLANK)
                },
                Err(e) => layout_error(string@) == Some(e),
            },
    {
        let layout = match parse_layout(string, BLANK) {
            Ok(layout) => layout,
            Err(e) => {
                return Err(e);
            },
        };
        if layout.width == 0 {
            return Err(MalformedLayoutError::EmptyRow);
        }
        if layout.pips.len() > 64 {
            return Err(MalformedLayoutError::TooLarge);
        }
        // Add pip counts
        let mut pip_count_per_cell = CellPips::new();
        let mut i: usize = 0;
        while i < layout.pips.len()
            invariant
                i <= layout.pips.len(),
                pip_count_per_cell@ == layout.pips@.take(i as int),
            decreases layout.pips.len() - i,
        {
            pip_count_per_cell.push(layout.pips[i]);
            proof {
                assert(pip_count_per_cell@ =~= layout.pips@.take(i + 1));
            }
            i += 1;
        }
        proof {
            assert(layout.pips@.take(layout.pips.len() as int) =~= layout.pips@);
        }
        // Compute adjacency bitmaps
        let adjacent_cell_bitmaps = adjacency_bitmaps(layout.width, layout.height);
        Ok(
            Puzzle {
                pip_count_per_cell,
                width: layout.width,
                height: layout.height,
                adjacent_cell_bitmaps,
            },
        )
    }

    /// The pips that the cells of `region` carry together.
    pub open spec fn region_pips(&self, region: Set<int>) -> int {
        pips_within(self.pip_count_per_cell@, region, self.pip_count_per_cell@.len() as int)
    }

    /// The pips of all cells together, as a mathematical integer.
    pub open spec fn total(&self) -> int {
        total_pips(self.pip_count_per_cell@)
    }

    /// The pips of all cells together.
    pub fn total_num_pips(&self) -> (total: usize)
        requires
            self.wf(),
        ensures
            total == self.total(),
            total <= MAX_PIPS_PER_CELL * 64,
    {
        let mut total: usize = 0;
        let mut i: usize = 0;
        while i < self.pip_count_per_cell.len()
            invariant
                self.wf(),
                i <= self.pip_count_per_cell@.len(),
                total == pips_within(self.pip_count_per_cell@, Set::<int>::full(), i as int),
                total <= MAX_PIPS_PER_CELL * i,
            decreases self.pip_count_per_cell@.len() - i,
        {
            assert(Set::<int>::full().contains(i as int));
            total += self.pip_count_per_cell.get(CellIdx::new(i));
            i += 1;
        }
        total
    }

    /// The number of cells.
    pub fn num_cells(&self) -> (n: usize)
        requires
            self.wf(),
        ensures
            n == self.cells(),
            n == self.pip_count_per_cell@.len(),
    {
        self.width * self.height
    }
}

} // verus!
