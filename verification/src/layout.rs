//! Layouts: a grid written as one line of text.

use vstd::arithmetic::div_mod::lemma_fundamental_div_mod_converse;
use vstd::prelude::*;

verus! {

/// Why a textual layout is not a grid.
#[derive(Debug, Clone, Copy, PartialEq, Eq, Structural)]
pub enum MalformedLayoutError {
    /// A character is neither a digit, nor the blank marker, nor the row delimiter.
    InvalidChar,
    /// Not all rows are as long as the first.
    UnequalRows,
    /// The rows hold no cell.
    EmptyRow,
    /// The grid has more cells than can be numbered or held.
    TooLarge,
}

/// The most pips that a single cell can carry.
pub const MAX_PIPS_PER_CELL: usize = 9;

/// The character between two rows of a layout.
pub const ROW_DELIMITER: char = '|';

/// The pip count that a layout character stands for: a digit for itself, the
/// blank marker for zero, and nothing else for anything.
pub open spec fn pip_value(c: char, blank: char) -> Option<usize> {
    if c == blank || c == '0' {
        Some(0usize)
    } else if c == '1' {
        Some(1usize)
    } else if c == '2' {
        Some(2usize)
    } else if c == '3' {
        Some(3usize)
    } else if c == '4' {
        Some(4usize)
    } else if c == '5' {
        Some(5usize)
    } else if c == '6' {
        Some(6usize)
    } else if c == '7' {
        Some(7usize)
    } else if c == '8' {
        Some(8usize)
    } else if c == '9' {
        Some(9usize)
    } else {
        None
    }
}

/// The pip count that a layout character stands for.
pub fn pip_of_char(c: char, blank: char) -> (r: Option<usize>)
    ensures
        r == pip_value(c, blank),
        r matches Some(p) ==> p <= MAX_PIPS_PER_CELL,
{
    if c == blank || c == '0' {
        Some(0)
    } else if c == '1' {
        Some(1)
    } else if c == '2' {
        Some(2)
    } else if c == '3' {
        Some(3)
    } else if c == '4' {
        Some(4)
    } else if c == '5' {
        Some(5)
    } else if c == '6' {
        Some(6)
    } else if c == '7' {
        Some(7)
    } else if c == '8' {
        Some(8)
    } else if c == '9' {
        Some(9)
    } else {
        None
    }
}

/// The length of a layout's first row: the position of its first row
/// delimiter, or its whole length where it has none.
pub open spec fn layout_width(s: Seq<char>) -> int
    decreases s.len(),
{
    if s.len() == 0 || s[0] == '|' {
        0
    } else {
        1 + layout_width(s.drop_first())
    }
}

/// The pip counts of a layout's cells in reading order: the value of each
/// character that is no row delimiter (zero for one that has no value).
pub open spec fn layout_pips(s: Seq<char>, blank: char) -> Seq<usize>
    decreases s.len(),
{
    if s.len() == 0 {
        Seq::<usize>::empty()
    } else if s.last() == '|' {
        layout_pips(s.drop_last(), blank)
    } else {
        layout_pips(s.drop_last(), blank).push(
            match pip_value(s.last(), blank) {
                Some(p) => p,
                None => 0,
            },
        )
    }
}

/// Whether some character of the layout is neither a row delimiter nor a cell.
pub open spec fn has_invalid_char(s: Seq<char>, blank: char) -> bool {
    exists|k: int| 0 <= k < s.len() && s[k] != '|' && pip_value(#[trigger] s[k], blank) is None
}

/// Whether the layout is rows of `width` cells each, with one delimiter
/// between two rows and none at either end.
pub open spec fn has_equal_rows(s: Seq<char>, width: int) -> bool {
    &&& (s.len() as int + 1) % (width + 1) == 0
    &&& forall|k: int| 0 <= k < s.len() ==> ((#[trigger] s[k] == '|') <==> k % (width + 1) == width)
}

/// The number of rows of a layout with rows of equal length.
pub open spec fn layout_height(s: Seq<char>) -> int {
    (s.len() as int + 1) / (layout_width(s) + 1)
}

pub proof fn lemma_layout_width(s: Seq<char>, w: int)
    requires
        0 <= w <= s.len(),
        forall|k: int| 0 <= k < w ==> s[k] != '|',
        w == s.len() || s[w] == '|',
    ensures
        layout_width(s) == w,
    decreases w,
{
    if w > 0 {
        let t = s.drop_first();
        assert forall|k: int| 0 <= k < w - 1 implies t[k] != '|' by {
            assert(t[k] == s[k + 1]);
        }
        lemma_layout_width(t, w - 1);
    }
}

proof fn lemma_layout_pips_step(s: Seq<char>, blank: char, i: int)
    requires
        0 <= i < s.len(),
    ensures
        s[i] == '|' ==> layout_pips(s.take(i + 1), blank) == layout_pips(s.take(i), blank),
        s[i] != '|' ==> layout_pips(s.take(i + 1), blank) == layout_pips(s.take(i), blank).push(
            match pip_value(s[i], blank) {
                Some(p) => p,
                None => 0,
            },
        ),
{
    assert(s.take(i + 1).drop_last() =~= s.take(i));
    assert(s.take(i + 1).last() == s[i]);
}

/// What is wrong with a layout, if anything: a character that is no cell
/// and no row delimiter; if there is none, rows of unequal length; if the
/// rows are equal, more of them than a machine number can count.
pub open spec fn layout_fault(s: Seq<char>, blank: char) -> Option<MalformedLayoutError> {
    if has_invalid_char(s, blank) {
        Some(MalformedLayoutError::InvalidChar)
    } else if !has_equal_rows(s, layout_width(s)) {
        Some(MalformedLayoutError::UnequalRows)
    } else if layout_height(s) > usize::MAX {
        Some(MalformedLayoutError::TooLarge)
    } else {
        None
    }
}

/// A layout that was read: the pip counts of its cells in reading order, the
/// length of its rows and their number.
#[derive(Debug)]
pub struct Layout {
    pub pips: Vec<usize>,
    pub width: usize,
    pub height: usize,
}

/// Reads a layout: rows of equal length with a `|` between two of them, each
/// character a digit, the cell's pip count, or `blank` for a cell without
/// pips. A character that is none of these is reported before rows of
/// unequal length.
pub fn parse_layout(string: &str, blank: char) -> (r: Result<Layout, MalformedLayoutError>)
    ensures
        match r {
            Ok(layout) => {
                &&& layout_fault(string@, blank) is None
                &&& layout.height >= 1
                &&& layout.width == layout_width(string@)
                &&& layout.height == layout_height(string@)
                &&& layout.pips@ == layout_pips(string@, blank)
                &&& layout.pips.len() == layout.width * layout.height
                &&& forall|c: int|
                    0 <= c < layout.pips.len() ==> #[trigger] layout.pips[c] <= MAX_PIPS_PER_CELL
            },
            Err(e) => layout_fault(string@, blank) == Some(e),
        },
{
    let ghost s = string@;
    let len = string.unicode_len();
    let mut pips: Vec<usize> = Vec::new();
    let mut width: Option<usize> = None;
    let mut col: usize = 0;
    let mut uneven = false;
    let mut row: usize = 0;
    let mut i: usize = 0;
    while i < len
        invariant
            s == string@,
            len == s.len(),
            i <= len,
            forall|k: int|
                0 <= k < i ==> s[k] == '|' || pip_value(#[trigger] s[k], blank) is Some,
            pips@ == layout_pips(s.take(i as int), blank),
            row <= i,
            forall|j: int| 0 <= j < pips.len() ==> #[trigger] pips[j] <= MAX_PIPS_PER_CELL,
            match width {
                None => !uneven && col == i && row == 0 && pips.len() == i && forall|k: int|
                    0 <= k < i ==> #[trigger] s[k] != '|',
                Some(w) => {
                    &&& w < i
                    &&& s[w as int] == '|'
                    &&& forall|k: int| 0 <= k < w ==> #[trigger] s[k] != '|'
                    &&& uneven ==> exists|k: int|
                        0 <= k < i && !((#[trigger] s[k] == '|') <==> k % (w + 1) == w as int)
                    &&& !uneven ==> {
                        &&& row >= 1
                        &&& i == row * (w + 1) + col
                        &&& col <= w
                        &&& pips.len() == row * w + col
                        &&& forall|k: int|
                            0 <= k < i ==> ((#[trigger] s[k] == '|') <==> k % (w + 1)
                                == w as int)
                    }
                },
            },
        decreases len - i,
    {
        let c = string.get_char(i);
        proof {
            lemma_layout_pips_step(s, blank, i as int);
            if let Some(w) = width {
                if !uneven {
                    lemma_fundamental_div_mod_converse(i as int, w + 1, row as int, col as int);
                    assert((row + 1) * (w + 1) == row * (w + 1) + (w + 1)) by (nonlinear_arith);
                    assert((row + 1) * w == row * w + w) by (nonlinear_arith);
                }
            } else {
                assert forall|k: int| 0 <= k <= i implies #[trigger] (k % (i + 1)) == k by {
                    lemma_fundamental_div_mod_converse(k, i + 1, 0, k);
                }
                assert(1 * (i + 1) + 0 == i + 1) by (nonlinear_arith);
                assert(1 * i + 0 == i) by (nonlinear_arith);
            }
        }
        if c == ROW_DELIMITER {
            match width {
                None => {
                    width = Some(col);
                    col = 0;
                    row = 1;
                },
                Some(w) => {
                    if !uneven {
                        if col == w {
                            col = 0;
                            row = row + 1;
                        } else {
                            uneven = true;
                        }
                    }
                },
            }
        } else {
            match pip_of_char(c, blank) {
                None => {
                    return Err(MalformedLayoutError::InvalidChar);
                },
                Some(p) => {
                    pips.push(p);
                },
            }
            match width {
                None => {
                    col += 1;
                },
                Some(w) => {
                    if !uneven {
                        if col == w {
                            uneven = true;
                        } else {
                            col += 1;
                        }
                    }
                },
            }
        }
        i += 1;
    }
    proof {
        assert(s.take(len as int) =~= s);
    }
    let w = match width {
        None => col,
        Some(w) => w,
    };
    proof {
        lemma_layout_width(s, w as int);
    }
    let ends_even = match width {
        None => true,
        Some(_) => !uneven && col == w,
    };
    proof {
        if width is None {
            assert forall|k: int| 0 <= k <= len implies #[trigger] (k % (len + 1)) == k by {
                lemma_fundamental_div_mod_converse(k, len + 1, 0, k);
            }
            lemma_fundamental_div_mod_converse(len + 1, len + 1, 1, 0);
            assert(has_equal_rows(s, w as int));
            assert(pips.len() == w * (row + 1)) by (nonlinear_arith)
                requires
                    pips.len() == w,
                    row == 0,
            ;
        } else if !uneven {
            assert((row + 1) * (w + 1) == row * (w + 1) + (w + 1)) by (nonlinear_arith);
            assert((row + 1) * w == row * w + w) by (nonlinear_arith);
            if col == w {
                lemma_fundamental_div_mod_converse(len + 1, w + 1, row + 1, 0);
                assert(w * (row + 1) == (row + 1) * w) by (nonlinear_arith);
                assert(has_equal_rows(s, w as int));
            } else {
                lemma_fundamental_div_mod_converse(len + 1, w + 1, row as int, col + 1);
            }
        }
    }
    if !ends_even {
        return Err(MalformedLayoutError::UnequalRows);
    }
    proof {
        if width is None {
            lemma_fundamental_div_mod_converse(len + 1, w + 1, 1, 0);
        }
    }
    if row == usize::MAX {
        return Err(MalformedLayoutError::TooLarge);
    }
    Ok(Layout { pips, width: w, height: row + 1 })
}

} // verus!
