//! The lists of the solver's grid, one entry for each cell and found by the
//! cell's index.

use crate::cell_set::CellBitmap;
use crate::index::CellIdx;
use index_vec::IndexVec;
use vstd::prelude::*;

verus! {

/// The pip counts of the cells of a grid: an `IndexVec` with a cell's index
/// as its key.
#[verifier::external_body]
#[derive(Debug)]
pub struct CellPips {
    inner: IndexVec<CellIdx, usize>,
}

/// The entries of the list, in their order.
pub uninterp spec fn pips_held(v: CellPips) -> Seq<usize>;

impl View for CellPips {
    type V = Seq<usize>;

    open spec fn view(&self) -> Seq<usize> {
        pips_held(*self)
    }
}

impl CellPips {
    /// `IndexVec::new` makes a list without entries.
    #[verifier::external_body]
    pub(crate) fn new() -> (v: Self)
        ensures
            pips_held(v) == Seq::<usize>::empty(),
    {
        CellPips { inner: IndexVec::new() }
    }

    /// `IndexVec::push` puts the entry behind the others and returns the
    /// index at which it stands: the number of entries there were.
    #[verifier::external_body]
    pub(crate) fn push(&mut self, d: usize) -> (idx: CellIdx)
        ensures
            pips_held(*final(self)) == pips_held(*old(self)).push(d),
            idx.raw == pips_held(*old(self)).len(),
    {
        self.inner.push(d)
    }

    /// `IndexSlice::len` is the number of entries.
    #[verifier::external_body]
    pub(crate) fn len(&self) -> (n: usize)
        ensures
            n == pips_held(*self).len(),
    {
        self.inner.len()
    }

    /// `IndexVec` indexed by a cell's index (`Index::index`) gives the entry at
    /// that place; there is none at or after the number of entries.
    #[verifier::external_body]
    pub(crate) fn get(&self, idx: CellIdx) -> (d: usize)
        requires
            idx.raw < pips_held(*self).len(),
        ensures
            d == pips_held(*self)[idx.raw as int],
    {
        self.inner[idx]
    }

    /// The entries as a plain list.
    pub fn to_vec(&self) -> (entries: Vec<usize>)
        ensures
            entries@ == self@,
    {
        let mut entries: Vec<usize> = Vec::new();
        let mut i: usize = 0;
        while i < self.len()
            invariant
                i <= self@.len(),
                entries@ == self@.take(i as int),
            decreases self@.len() - i,
        {
            entries.push(self.get(CellIdx::new(i)));
            proof {
                assert(entries@ =~= self@.take(i + 1));
            }
            i += 1;
        }
        proof {
            assert(self@.take(self@.len() as int) =~= self@);
        }
        entries
    }
}

/// For each cell of a grid the set of its neighbours: an `IndexVec` with a
/// cell's index as its key.
#[verifier::external_body]
#[derive(Debug)]
pub struct CellBitmaps {
    inner: IndexVec<CellIdx, CellBitmap>,
}

/// The entries of the list, in their order.
pub uninterp spec fn bitmaps_held(v: CellBitmaps) -> Seq<CellBitmap>;

impl View for CellBitmaps {
    type V = Seq<CellBitmap>;

    open spec fn view(&self) -> Seq<CellBitmap> {
        bitmaps_held(*self)
    }
}

impl CellBitmaps {
    /// `IndexVec::new` makes a list without entries.
    #[verifier::external_body]
    pub(crate) fn new() -> (v: Self)
        ensures
            bitmaps_held(v) == Seq::<CellBitmap>::empty(),
    {
        CellBitmaps { inner: IndexVec::new() }
    }

    /// `IndexVec::push` puts the entry behind the others and returns the
    /// index at which it stands: the number of entries there were.
    #[verifier::external_body]
    pub(crate) fn push(&mut self, d: CellBitmap) -> (idx: CellIdx)
        ensures
            bitmaps_held(*final(self)) == bitmaps_held(*old(self)).push(d),
            idx.raw == bitmaps_held(*old(self)).len(),
    {
        self.inner.push(d)
    }

    /// `IndexSlice::len` is the number of entries.
    #[verifier::external_body]
    pub(crate) fn len(&self) -> (n: usize)
        ensures
            n == bitmaps_held(*self).len(),
    {
        self.inner.len()
    }

    /// `IndexVec` indexed by a cell's index (`Index::index`) gives the entry at
    /// that place; there is none at or after the number of entries.
    #[verifier::external_body]
    pub(crate) fn get(&self, idx: CellIdx) -> (d: CellBitmap)
        requires
            idx.raw < bitmaps_held(*self).len(),
        ensures
            d == bitmaps_held(*self)[idx.raw as int],
    {
        self.inner[idx]
    }

    /// The entries as a plain list.
    pub fn to_vec(&self) -> (entries: Vec<CellBitmap>)
        ensures
            entries@ == self@,
    {
        let mut entries: Vec<CellBitmap> = Vec::new();
        let mut i: usize = 0;
        while i < self.len()
            invariant
                i <= self@.len(),
                entries@ == self@.take(i as int),
            decreases self@.len() - i,
        {
            entries.push(self.get(CellIdx::new(i)));
            proof {
                assert(entries@ =~= self@.take(i + 1));
            }
            i += 1;
        }
        proof {
            assert(self@.take(self@.len() as int) =~= self@);
        }
        entries
    }
}

} // verus!
