//! The shape of a puzzle: where its vertices are, which edges join them and
//! which cells they enclose, without any pips.

use crate::grid_vec::EdgeEnds;
use crate::grid_vec::ShapeCells;
use crate::grid_vec::VertPlaces;
use crate::index::CellIdx;
use crate::index::EdgeIdx;
use crate::index::VertIdx;
use crate::lattice::are_lattice_edges;
use crate::lattice::corners;
use crate::lattice::fits;
use crate::lattice::lattice_cell;
use crate::lattice::lattice_edges;
use crate::lattice::lattice_neighbours;
use crate::lattice::lemma_lattice_bounds;
use crate::lattice::lemma_lattice_coordinates;
use crate::lattice::GridVec;
use vstd::prelude::*;

verus! {

/// The `Shape` of a puzzle.  This stores the positions and connections of the
/// edges/vertices/cells
#[derive(Debug)]
pub struct Shape {
    pub verts: VertPlaces,
    pub edges: EdgeEnds,
    pub cells: ShapeCells,
    /// The numbers of columns (`x`) and of rows (`y`).
    pub square_size: GridVec,
}

/// A `Cell` into which pips can be added
#[derive(Debug, Clone)]
pub struct Cell {
    pub verts: Vec<VertIdx>,  // Going clockwise
    pub neighbours: Vec<(EdgeIdx, CellIdx)>,
}

impl Shape {
    /// Whether the shape is the rectangular grid of `width` by `height`
    /// cells: its vertices are numbered row by row, each at its column and
    /// row; its edges are those of the lattice; each cell has its four
    /// corners and its neighbours, with the edge to each.
    pub open spec fn is_rectangular(&self, width: int, height: int) -> bool {
        &&& self.square_size == (GridVec { x: width as usize, y: height as usize })
        &&& self.verts@.len() == (width + 1) * (height + 1)
        &&& forall|v: int|
            0 <= v < self.verts@.len() ==> #[trigger] self.verts@[v] == (GridVec {
                x: (v % (width + 1)) as usize,
                y: (v / (width + 1)) as usize,
            })
        &&& are_lattice_edges(self.edges@, width, height)
        &&& self.cells@.len() == width * height
        &&& forall|c: int|
            0 <= c < self.cells@.len() ==> {
                &&& (#[trigger] self.cells@[c]).verts@ == corners(width, c % width, c / width)
                &&& self.cells@[c].neighbours@ == lattice_neighbours(
                    width,
                    height,
                    c % width,
                    c / width,
                )
            }
    }

    /// The number of vertices.
    pub fn num_verts(&self) -> (n: usize)
        ensures
            n == self.verts@.len(),
    {
        self.verts.len()
    }

    /// The place of the vertex `vert`.
    pub fn vert(&self, vert: VertIdx) -> (place: GridVec)
        requires
            vert.raw < self.verts@.len(),
        ensures
            place == self.verts@[vert.raw as int],
    {
        self.verts.get(vert)
    }

    /// The number of edges.
    pub fn num_edges(&self) -> (n: usize)
        ensures
            n == self.edges@.len(),
    {
        self.edges.len()
    }

    /// The two vertices that the edge `edge` joins.
    pub fn edge(&self, edge: EdgeIdx) -> (ends: (VertIdx, VertIdx))
        requires
            edge.raw < self.edges@.len(),
        ensures
            ends == self.edges@[edge.raw as int],
    {
        self.edges.get(edge)
    }

    /// The number of cells.
    pub fn num_cells(&self) -> (n: usize)
        ensures
            n == self.cells@.len(),
    {
        self.cells.len()
    }

    /// The cell `cell`.
    pub fn cell(&self, cell: CellIdx) -> (r: &Cell)
        requires
            cell.raw < self.cells@.len(),
        ensures
            *r == self.cells@[cell.raw as int],
    {
        self.cells.get(cell)
    }

    /// Make a new `Shape` of a rectangular grid of the given size
    pub fn rectangular(width: usize, height: usize) -> (shape: Shape)
        requires
            fits(width as int, height as int),
        ensures
            shape.is_rectangular(width as int, height as int),
    {
        proof {
            lemma_lattice_bounds(width as int, height as int, 0, 0);
        }
        // Create vertices
        let mut verts = VertPlaces::new();
        let mut y: usize = 0;
        while y < height + 1
            invariant
                fits(width as int, height as int),
                width + 1 <= usize::MAX,
                height + 1 <= usize::MAX,
                y <= height + 1,
                verts@.len() == y * (width + 1),
                forall|v: int|
                    0 <= v < verts@.len() ==> #[trigger] verts@[v] == (GridVec {
                        x: (v % (width + 1)) as usize,
                        y: (v / (width + 1)) as usize,
                    }),
            decreases height + 1 - y,
        {
            let mut x: usize = 0;
            while x < width + 1
                invariant
                    fits(width as int, height as int),
                    width + 1 <= usize::MAX,
                    height + 1 <= usize::MAX,
                    y < height + 1,
                    x <= width + 1,
                    verts@.len() == y * (width + 1) + x,
                    forall|v: int|
                        0 <= v < verts@.len() ==> #[trigger] verts@[v] == (GridVec {
                            x: (v % (width + 1)) as usize,
                            y: (v / (width + 1)) as usize,
                        }),
                decreases width + 1 - x,
            {
                proof {
                    lemma_lattice_coordinates(width as int, x as int, y as int);
                    lemma_lattice_bounds(width as int, height as int, x as int, y as int);
                }
                verts.push(GridVec { x, y });
                x += 1;
            }
            proof {
                assert((y + 1) * (width + 1) == y * (width + 1) + (width + 1)) by (nonlinear_arith);
            }
            y += 1;
        }
        proof {
            assert((height + 1) * (width + 1) == (width + 1) * (height + 1)) by (nonlinear_arith);
        }
        // Create edges
        let edges = lattice_edges(width, height);
        // Create cells
        let mut cells = ShapeCells::new();
        let mut y: usize = 0;
        while y < height
            invariant
                fits(width as int, height as int),
                are_lattice_edges(edges@, width as int, height as int),
                y <= height,
                cells@.len() == y * width,
                forall|c: int|
                    0 <= c < cells@.len() ==> {
                        &&& (#[trigger] cells@[c]).verts@ == corners(
                            width as int,
                            c % (width as int),
                            c / (width as int),
                        )
                        &&& cells@[c].neighbours@ == lattice_neighbours(
                            width as int,
                            height as int,
                            c % (width as int),
                            c / (width as int),
                        )
                    },
            decreases height - y,
        {
            let mut x: usize = 0;
            while x < width
                invariant
                    fits(width as int, height as int),
                    are_lattice_edges(edges@, width as int, height as int),
                    y < height,
                    x <= width,
                    cells@.len() == y * width + x,
                    forall|c: int|
                        0 <= c < cells@.len() ==> {
                            &&& (#[trigger] cells@[c]).verts@ == corners(
                                width as int,
                                c % (width as int),
                                c / (width as int),
                            )
                            &&& cells@[c].neighbours@ == lattice_neighbours(
                                width as int,
                                height as int,
                                c % (width as int),
                                c / (width as int),
                            )
                        },
                decreases width - x,
            {
                proof {
                    lemma_lattice_coordinates(width as int, x as int, y as int);
                    lemma_lattice_bounds(width as int, height as int, x as int, y as int);
                }
                let parts = lattice_cell(width, height, x, y, &edges);
                // Build cell
                cells.push(Cell { verts: parts.0, neighbours: parts.1 });
                x += 1;
            }
            proof {
                assert((y + 1) * width == y * width + width) by (nonlinear_arith);
            }
            y += 1;
        }
        proof {
            assert(height * width == width * height) by (nonlinear_arith);
        }
        Shape { verts, edges, cells, square_size: GridVec { x: width, y: height } }
    }
}

} // verus!
