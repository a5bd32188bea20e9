//! What a search needs to know of its puzzle: which region totals could belong
//! to a solution at all.

use crate::grid::Puzzle;
use crate::index::CellIdx;
use crate::report::Found;
use crate::report::Reporter;
use vstd::prelude::*;

verus! {

/// Why no search can start on a puzzle.
#[derive(Debug, Clone, Copy, PartialEq, Eq, Structural)]
pub enum FeasibilityError {
    /// No cell carries a pip.
    EmptyPuzzle,
    /// Half of the puzzle's pips is more than the set of totals can hold.
    TooManyPips,
}

/// One more than the largest region total that the set of totals can hold.
pub const TOTALS_CAPACITY: usize = 32;

/// Whether every region with pips could carry `p` of them in a solution: no
/// cell carries more than `p`, at least two such regions fit into the puzzle,
/// and `p` divides the number of all pips.
pub open spec fn possible_total(pips: Seq<usize>, p: int) -> bool {
    &&& 1 <= p <= total_pips_of(pips) / 2
    &&& total_pips_of(pips) % p == 0
    &&& forall|c: int| 0 <= c < pips.len() ==> #[trigger] pips[c] <= p
}

/// The pips of all cells together.
pub open spec fn total_pips_of(pips: Seq<usize>) -> int {
    crate::grid::total_pips(pips)
}

/// Whether `b` is the largest total that is possible.
pub open spec fn is_biggest_possible(pips: Seq<usize>, b: int) -> bool {
    &&& possible_total(pips, b)
    &&& forall|p: int| possible_total(pips, p) ==> p <= b
}

/// The largest possible total, if any total is possible.
pub open spec fn biggest_possible(pips: Seq<usize>) -> Option<int> {
    if exists|b: int| is_biggest_possible(pips, b) {
        Some(choose|b: int| is_biggest_possible(pips, b))
    } else {
        None
    }
}

/// Whether bit `i` of `bits` is set. No bit exists outside `0..32`.
pub open spec fn has_total(bits: u32, i: int) -> bool {
    0 <= i < 32 && (bits >> (i as u32)) & 1 == 1
}

proof fn lemma_total_after_set(bits: u32, i: u32, j: u32)
    by (bit_vector)
    requires
        i < 32,
        j < 32,
    ensures
        ((bits | (1u32 << i)) >> j) & 1 == 1 <==> (j == i || (bits >> j) & 1 == 1),
{
}

proof fn lemma_no_total_in_zero(j: u32)
    by (bit_vector)
    requires
        j < 32,
    ensures
        (0u32 >> j) & 1 != 1,
{
}

proof fn lemma_bit_is_one_or_zero(bits: u32, j: u32)
    by (bit_vector)
    requires
        j < 32,
    ensures
        (bits >> j) & 1 == 1 || (bits >> j) & 1 == 0,
{
}

/// The state of one search over one puzzle.
#[derive(Debug)]
pub struct SolvingContext<'data> {
    pub puzzle: &'data Puzzle,
    /// Bit `i` is set if and only if a solution could split the pips into
    /// regions of `i` pips each.
    pub possible_solutions: u32,
    pub reporter: Reporter,
}

impl<'data> SolvingContext<'data> {
    /// What holds of every context: its puzzle is a grid, its reporter is not
    /// overfull, and its set of totals holds exactly the possible totals.
    pub open spec fn wf(&self) -> bool {
        &&& self.puzzle.wf()
        &&& self.reporter.wf()
        &&& self.puzzle.total() / 2 < 32
        &&& forall|p: int|
            has_total(self.possible_solutions, p) <==> #[trigger] possible_total(
                self.puzzle.pip_count_per_cell@,
                p,
            )
    }

    /// The candidates reported so far.
    pub open spec fn found(&self) -> Seq<Found> {
        self.reporter@
    }

    /// The context of a search over `puzzle` that ends after `max_solutions`
    /// candidates. A puzzle without pips has no possible total, and one with
    /// 64 pips or more has totals that the set cannot hold.
    pub fn new(puzzle: &'data Puzzle, max_solutions: usize) -> (r: Result<Self, FeasibilityError>)
        requires
            puzzle.wf(),
        ensures
            match r {
                Ok(ctx) => {
                    &&& ctx.wf()
                    &&& ctx.puzzle == puzzle
                    &&& ctx.found() == Seq::<Found>::empty()
                    &&& ctx.reporter.max_candidates == max_solutions
                    &&& 0 < puzzle.total() < 64
                },
                Err(FeasibilityError::EmptyPuzzle) => puzzle.total() == 0,
                Err(FeasibilityError::TooManyPips) => puzzle.total() >= 64,
            },
    {
        let ghost pips = puzzle.pip_count_per_cell@;
        let mut most_pips_in_cell: usize = 0;
        let mut c: usize = 0;
        while c < puzzle.pip_count_per_cell.len()
            invariant
                puzzle.wf(),
                pips == puzzle.pip_count_per_cell@,
                c <= pips.len(),
                forall|k: int| 0 <= k < c ==> #[trigger] pips[k] <= most_pips_in_cell,
                most_pips_in_cell == 0 || exists|k: int|
                    0 <= k < c && #[trigger] pips[k] == most_pips_in_cell,
                most_pips_in_cell == 0 ==> crate::grid::pips_within(
                    pips,
                    Set::<int>::full(),
                    c as int,
                ) == 0,
            decreases pips.len() - c,
        {
            let pip_count = puzzle.pip_count_per_cell.get(CellIdx::new(c));
            if pip_count > most_pips_in_cell {
                most_pips_in_cell = pip_count;
            }
            c += 1;
        }
        let total = puzzle.total_num_pips();
        if most_pips_in_cell == 0 {
            return Err(FeasibilityError::EmptyPuzzle);
        }
        proof {
            let k = choose|k: int| 0 <= k < pips.len() && #[trigger] pips[k] == most_pips_in_cell;
            crate::grid::lemma_pips_monotone(pips, set![k], Set::<int>::full(), pips.len() as int);
            crate::grid::lemma_pips_monotone(
                pips,
                Set::<int>::empty(),
                Set::<int>::empty(),
                pips.len() as int,
            );
            crate::grid::lemma_pips_insert(pips, Set::<int>::empty(), k, pips.len() as int);
            assert(Set::<int>::empty().insert(k) =~= set![k]);
            crate::grid::lemma_pips_monotone(pips, Set::<int>::empty(), set![k], pips.len() as int);
            assert(total >= most_pips_in_cell);
        }
        let half = total / 2;
        if half >= TOTALS_CAPACITY {
            return Err(FeasibilityError::TooManyPips);
        }
        let mut possible_solutions: u32 = 0;
        let mut i: usize = most_pips_in_cell;
        proof {
            assert forall|p: int| !has_total(0u32, p) by {
                if 0 <= p < 32 {
                    lemma_no_total_in_zero(p as u32);
                }
            }
        }
        while i <= half
            invariant
                1 <= most_pips_in_cell <= i,
                half == total / 2,
                half < 32,
                i <= half + 1 || i == most_pips_in_cell,
                forall|p: int|
                    #[trigger] has_total(possible_solutions, p) <==> (most_pips_in_cell <= p < i
                        && total as int % p == 0),
            decreases half + 1 - i,
        {
            if total % i == 0 {
                let ghost before = possible_solutions;
                possible_solutions |= 1u32 << (i as u32);
                proof {
                    assert forall|p: int| #[trigger]
                        has_total(possible_solutions, p) <==> (p == i || has_total(before, p)) by {
                        if 0 <= p < 32 {
                            lemma_total_after_set(before, i as u32, p as u32);
                        }
                    }
                }
            }
            i += 1;
        }
        let ctx = SolvingContext { puzzle, possible_solutions, reporter: Reporter::new(max_solutions) };
        proof {
            assert forall|p: int|
                has_total(possible_solutions, p) <==> #[trigger] possible_total(pips, p) by {
                if possible_total(pips, p) {
                    let k = choose|k: int|
                        0 <= k < pips.len() && #[trigger] pips[k] == most_pips_in_cell;
                    assert(pips[k] <= p);
                }
            }
        }
        Ok(ctx)
    }

    /// The largest total that a region of a solution could carry, if there is
    /// any. A region with more pips belongs to no solution.
    pub fn biggest_required_pip_count(&self) -> (r: Option<usize>)
        requires
            self.wf(),
        ensures
            r matches Some(b) ==> is_biggest_possible(self.puzzle.pip_count_per_cell@, b as int),
            r is None ==> forall|p: int| !possible_total(self.puzzle.pip_count_per_cell@, p),
            match r {
                Some(b) => biggest_possible(self.puzzle.pip_count_per_cell@) == Some(b as int),
                None => biggest_possible(self.puzzle.pip_count_per_cell@) is None,
            },
    {
        let ghost pips = self.puzzle.pip_count_per_cell@;
        let bits = self.possible_solutions;
        proof {
            vstd::std_specs::bits::axiom_u32_leading_zeros(bits);
        }
        if bits == 0 {
            proof {
                assert forall|p: int| !possible_total(pips, p) by {
                    if 0 <= p < 32 {
                        lemma_no_total_in_zero(p as u32);
                    }
                    assert(!has_total(bits, p));
                }
            }
            None
        } else {
            let zeros = bits.leading_zeros();
            let b: usize = 31 - zeros as usize;
            proof {
                let top = (31 - zeros) as u32;
                lemma_bit_is_one_or_zero(bits, top);
                assert(has_total(bits, b as int));
                assert(possible_total(pips, b as int));
                assert forall|p: int| possible_total(pips, p) implies p <= b by {
                    assert(has_total(bits, p));
                    if p > b {
                        let j = p as u32;
                        assert((bits >> j) & 1u32 == 0u32);
                    }
                }
                assert(is_biggest_possible(pips, b as int));
                let chosen = choose|x: int| is_biggest_possible(pips, x);
                assert(is_biggest_possible(pips, chosen));
                assert(chosen == b);
            }
            Some(b)
        }
    }
}

} // verus!
