//! The lists of a puzzle's drawing: its vertices, its edges and its cells,
//! each found by an index of its own kind.

use crate::index::CellIdx;
use crate::index::EdgeIdx;
use crate::index::VertIdx;
use crate::lattice::GridVec;
use index_vec::IndexVec;
use vstd::prelude::*;

verus! {

/// The places of the vertices of a drawing: an `IndexVec` with a vertex's index as its key.
#[verifier::external_body]
#[derive(Debug)]
pub struct VertPlaces {
    inner: IndexVec<VertIdx, GridVec>,
}

/// The entries of the list, in their order.
pub uninterp spec fn places_held(v: VertPlaces) -> Seq<GridVec>;

impl View for VertPlaces {
    type V = Seq<GridVec>;

    open spec fn view(&self) -> Seq<GridVec> {
        places_held(*self)
    }
}

impl VertPlaces {
    /// `IndexVec::new` makes a list without entries.
    #[verifier::external_body]
    pub(crate) fn new() -> (v: Self)
        ensures
            places_held(v) == Seq::<GridVec>::empty(),
    {
        VertPlaces { inner: IndexVec::new() }
    }

    /// `IndexVec::push` puts the entry behind the others and returns the
    /// index at which it stands: the number of entries there were.
    #[verifier::external_body]
    pub(crate) fn push(&mut self, d: GridVec) -> (idx: VertIdx)
        ensures
            places_held(*final(self)) == places_held(*old(self)).push(d),
            idx.raw == places_held(*old(self)).len(),
    {
        self.inner.push(d)
    }

    /// `IndexSlice::len` is the number of entries.
    #[verifier::external_body]
    pub(crate) fn len(&self) -> (n: usize)
        ensures
            n == places_held(*self).len(),
    {
        self.inner.len()
    }

    /// `IndexVec` indexed by a vertex's index (`Index::index`) gives the entry at
    /// that place; there is none at or after the number of entries.
    #[verifier::external_body]
    pub(crate) fn get(&self, idx: VertIdx) -> (d: GridVec)
        requires
            idx.raw < places_held(*self).len(),
        ensures
            d == places_held(*self)[idx.raw as int],
    {
        self.inner[idx]
    }
}

/// The edges of a drawing, each as the two vertices that it joins: an `IndexVec` with an edge's index as its key.
#[verifier::external_body]
#[derive(Debug)]
pub struct EdgeEnds {
    inner: IndexVec<EdgeIdx, (VertIdx, VertIdx)>,
}

/// The entries of the list, in their order.
pub uninterp spec fn ends_held(v: EdgeEnds) -> Seq<(VertIdx, VertIdx)>;

impl View for EdgeEnds {
    type V = Seq<(VertIdx, VertIdx)>;

    open spec fn view(&self) -> Seq<(VertIdx, VertIdx)> {
        ends_held(*self)
    }
}

impl EdgeEnds {
    /// `IndexVec::new` makes a list without entries.
    #[verifier::external_body]
    pub(crate) fn new() -> (v: Self)
        ensures
            ends_held(v) == Seq::<(VertIdx, VertIdx)>::empty(),
    {
        EdgeEnds { inner: IndexVec::new() }
    }

    /// `IndexVec::push` puts the entry behind the others and returns the
    /// index at which it stands: the number of entries there were.
    #[verifier::external_body]
    pub(crate) fn push(&mut self, d: (VertIdx, VertIdx)) -> (idx: EdgeIdx)
        ensures
            ends_held(*final(self)) == ends_held(*old(self)).push(d),
            idx.raw == ends_held(*old(self)).len(),
    {
        self.inner.push(d)
    }

    /// `IndexSlice::len` is the number of entries.
    #[verifier::external_body]
    pub(crate) fn len(&self) -> (n: usize)
        ensures
            n == ends_held(*self).len(),
    {
        self.inner.len()
    }

    /// `IndexVec` indexed by an edge's index (`Index::index`) gives the entry at
    /// that place; there is none at or after the number of entries.
    #[verifier::external_body]
    pub(crate) fn get(&self, idx: EdgeIdx) -> (d: (VertIdx, VertIdx))
        requires
            idx.raw < ends_held(*self).len(),
        ensures
            d == ends_held(*self)[idx.raw as int],
    {
        self.inner[idx]
    }
}

/// The cells of a puzzle: an `IndexVec` with a cell's index as its key.
#[verifier::external_body]
#[derive(Debug)]
pub struct PuzzleCells {
    inner: IndexVec<CellIdx, crate::puzzle::Cell>,
}

/// The entries of the list, in their order.
pub uninterp spec fn puzzle_cells_held(v: PuzzleCells) -> Seq<crate::puzzle::Cell>;

impl View for PuzzleCells {
    type V = Seq<crate::puzzle::Cell>;

    open spec fn view(&self) -> Seq<crate::puzzle::Cell> {
        puzzle_cells_held(*self)
    }
}

impl PuzzleCells {
    /// `IndexVec::new` makes a list without entries.
    #[verifier::external_body]
    pub(crate) fn new() -> (v: Self)
        ensures
            puzzle_cells_held(v) == Seq::<crate::puzzle::Cell>::empty(),
    {
        PuzzleCells { inner: IndexVec::new() }
    }

    /// `IndexVec::push` puts the entry behind the others and returns the
    /// index at which it stands: the number of entries there were.
    #[verifier::external_body]
    pub(crate) fn push(&mut self, d: crate::puzzle::Cell) -> (idx: CellIdx)
        ensures
            puzzle_cells_held(*final(self)) == puzzle_cells_held(*old(self)).push(d),
            idx.raw == puzzle_cells_held(*old(self)).len(),
    {
        self.inner.push(d)
    }

    /// `IndexSlice::len` is the number of entries.
    #[verifier::external_body]
    pub(crate) fn len(&self) -> (n: usize)
        ensures
            n == puzzle_cells_held(*self).len(),
    {
        self.inner.len()
    }

    /// `IndexVec` indexed by a cell's index (`Index::index`) gives the entry at
    /// that place; there is none at or after the number of entries.
    #[verifier::external_body]
    pub(crate) fn get(&self, idx: CellIdx) -> (d: &crate::puzzle::Cell)
        requires
            idx.raw < puzzle_cells_held(*self).len(),
        ensures
            *d == puzzle_cells_held(*self)[idx.raw as int],
    {
        &self.inner[idx]
    }
}

/// The cells of a shape: an `IndexVec` with a cell's index as its key.
#[verifier::external_body]
#[derive(Debug)]
pub struct ShapeCells {
    inner: IndexVec<CellIdx, crate::shape::Cell>,
}

/// The entries of the list, in their order.
pub uninterp spec fn shape_cells_held(v: ShapeCells) -> Seq<crate::shape::Cell>;

impl View for ShapeCells {
    type V = Seq<crate::shape::Cell>;

    open spec fn view(&self) -> Seq<crate::shape::Cell> {
        shape_cells_held(*self)
    }
}

impl ShapeCells {
    /// `IndexVec::new` makes a list without entries.
    #[verifier::external_body]
    pub(crate) fn new() -> (v: Self)
        ensures
            shape_cells_held(v) == Seq::<crate::shape::Cell>::empty(),
    {
        ShapeCells { inner: IndexVec::new() }
    }

    /// `IndexVec::push` puts the entry behind the others and returns the
    /// index at which it stands: the number of entries there were.
    #[verifier::external_body]
    pub(crate) fn push(&mut self, d: crate::shape::Cell) -> (idx: CellIdx)
        ensures
            shape_cells_held(*final(self)) == shape_cells_held(*old(self)).push(d),
            idx.raw == shape_cells_held(*old(self)).len(),
    {
        self.inner.push(d)
    }

    /// `IndexSlice::len` is the number of entries.
    #[verifier::external_body]
    pub(crate) fn len(&self) -> (n: usize)
        ensures
            n == shape_cells_held(*self).len(),
    {
        self.inner.len()
    }

    /// `IndexVec` indexed by a cell's index (`Index::index`) gives the entry at
    /// that place; there is none at or after the number of entries.
    #[verifier::external_body]
    pub(crate) fn get(&self, idx: CellIdx) -> (d: &crate::shape::Cell)
        requires
            idx.raw < shape_cells_held(*self).len(),
        ensures
            *d == shape_cells_held(*self)[idx.raw as int],
    {
        &self.inner[idx]
    }
}

} // verus!
