//! Where the search hands over what it finds.

use crate::cell_set::CellBitmap;
use vstd::prelude::*;

verus! {

/// A region as the search reports it: its cells and the pips they carry.
#[derive(Debug, Clone, Copy, PartialEq, Eq, Structural)]
pub struct Candidate {
    pub region: CellBitmap,
    pub pip_sum: usize,
}

/// A reported region as a set of cells with its number of pips.
pub struct Found {
    pub region: Set<int>,
    pub pips: int,
}

impl View for Candidate {
    type V = Found;

    open spec fn view(&self) -> Found {
        Found { region: self.region@, pips: self.pip_sum as int }
    }
}

/// The first `max` elements of `s`, or all of `s` where it has fewer.
pub open spec fn capped<T>(s: Seq<T>, max: int) -> Seq<T> {
    if s.len() <= max {
        s
    } else {
        s.take(max)
    }
}

/// Capping in two steps is capping once.
pub proof fn lemma_capped_twice<T>(a: Seq<T>, b: Seq<T>, max: int)
    requires
        0 <= max,
    ensures
        capped(capped(a, max) + b, max) == capped(a + b, max),
{
    if a.len() <= max {
    } else {
        assert((a.take(max) + b).take(max) =~= a.take(max));
        assert((a + b).take(max) =~= a.take(max));
    }
}

/// Collects the candidates that a search reports, up to a fixed number.
#[derive(Debug)]
pub struct Reporter {
    pub candidates: Vec<Candidate>,
    pub max_candidates: usize,
}

impl View for Reporter {
    type V = Seq<Found>;

    /// The candidates collected so far, in the order of their arrival.
    open spec fn view(&self) -> Seq<Found> {
        Seq::new(self.candidates.len() as nat, |i: int| self.candidates[i]@)
    }
}

impl Reporter {
    /// A reporter never holds more candidates than it may.
    pub open spec fn wf(&self) -> bool {
        self.candidates.len() <= self.max_candidates
    }

    /// A reporter without candidates that takes `max_candidates` of them.
    pub fn new(max_candidates: usize) -> (r: Self)
        ensures
            r.wf(),
            r.max_candidates == max_candidates,
            r@ == Seq::<Found>::empty(),
    {
        let r = Reporter { candidates: Vec::new(), max_candidates };
        proof {
            assert(r@ =~= Seq::<Found>::empty());
        }
        r
    }

    /// Whether the reporter has all the candidates that it may hold, so that
    /// the search is to end.
    pub fn should_stop(&self) -> (b: bool)
        ensures
            b == (self.candidates.len() >= self.max_candidates),
    {
        self.candidates.len() >= self.max_candidates
    }

    /// Takes one more candidate, unless the reporter is full.
    pub fn report(&mut self, candidate: Candidate)
        requires
            old(self).wf(),
        ensures
            final(self).wf(),
            final(self).max_candidates == old(self).max_candidates,
            final(self)@ == capped(old(self)@.push(candidate@), old(self).max_candidates as int),
    {
        if self.candidates.len() < self.max_candidates {
            self.candidates.push(candidate);
            proof {
                assert(self@ =~= old(self)@.push(candidate@));
            }
        } else {
            proof {
                assert(old(self)@.push(candidate@).take(self.max_candidates as int) =~= self@);
            }
        }
    }

    /// The number of candidates collected so far.
    pub fn num_solutions(&self) -> (n: usize)
        ensures
            n == self@.len(),
    {
        self.candidates.len()
    }
}

} // verus!
