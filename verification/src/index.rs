//! The numbers by which vertices, edges and cells are found, each a type of
//! its own so that none is taken for another.

use vstd::prelude::*;

verus! {

/// The position of a cell in a list of cells.
#[derive(Debug, Clone, Copy, PartialEq, Eq, PartialOrd, Ord, Hash, Structural)]
pub struct CellIdx {
    pub raw: usize,
}

impl CellIdx {
    /// The index with the number `value`.
    pub fn new(value: usize) -> (idx: Self)
        ensures
            idx.raw == value,
    {
        CellIdx { raw: value }
    }

    /// The number of the index.
    pub fn index(self) -> (value: usize)
        ensures
            value == self.raw,
    {
        self.raw
    }
}

impl index_vec::Idx for CellIdx {
    fn from_usize(idx: usize) -> (r: Self)
        ensures
            r.raw == idx,
    {
        CellIdx::new(idx)
    }

    fn index(self) -> (r: usize)
        ensures
            r == self.raw,
    {
        self.raw
    }
}

/// The position of a vertex in a list of vertices.
#[derive(Debug, Clone, Copy, PartialEq, Eq, PartialOrd, Ord, Hash, Structural)]
pub struct VertIdx {
    pub raw: usize,
}

impl VertIdx {
    /// The index with the number `value`.
    pub fn new(value: usize) -> (idx: Self)
        ensures
            idx.raw == value,
    {
        VertIdx { raw: value }
    }

    /// The number of the index.
    pub fn index(self) -> (value: usize)
        ensures
            value == self.raw,
    {
        self.raw
    }
}

impl index_vec::Idx for VertIdx {
    fn from_usize(idx: usize) -> (r: Self)
        ensures
            r.raw == idx,
    {
        VertIdx::new(idx)
    }

    fn index(self) -> (r: usize)
        ensures
            r == self.raw,
    {
        self.raw
    }
}

/// The position of an edge in a list of edges.
#[derive(Debug, Clone, Copy, PartialEq, Eq, PartialOrd, Ord, Hash, Structural)]
pub struct EdgeIdx {
    pub raw: usize,
}

impl EdgeIdx {
    /// The index with the number `value`.
    pub fn new(value: usize) -> (idx: Self)
        ensures
            idx.raw == value,
    {
        EdgeIdx { raw: value }
    }

    /// The number of the index.
    pub fn index(self) -> (value: usize)
        ensures
            value == self.raw,
    {
        self.raw
    }
}

impl index_vec::Idx for EdgeIdx {
    fn from_usize(idx: usize) -> (r: Self)
        ensures
            r.raw == idx,
    {
        EdgeIdx::new(idx)
    }

    fn index(self) -> (r: usize)
        ensures
            r == self.raw,
    {
        self.raw
    }
}

} // verus!
