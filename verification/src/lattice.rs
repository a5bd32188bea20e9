//! The square lattice under a rectangular puzzle: how its vertices, edges and
//! cells are numbered, and which edge lies between two cells.

use crate::grid_vec::EdgeEnds;
use crate::index::CellIdx;
use crate::index::EdgeIdx;
use crate::index::VertIdx;
use vstd::arithmetic::div_mod::lemma_div_is_ordered;
use vstd::arithmetic::div_mod::lemma_fundamental_div_mod_converse;
use vstd::prelude::*;

verus! {

/// A place in the drawing, or a size of it, in whole steps of the grid.
#[derive(Debug, Clone, Copy, PartialEq, Eq, Structural)]
pub struct GridVec {
    pub x: usize,
    pub y: usize,
}

/// The number of the vertex in column `x` and row `y` of a lattice `width`
/// cells wide: the vertices are numbered row by row.
pub open spec fn vert_index(width: int, x: int, y: int) -> int {
    y * (width + 1) + x
}

/// The number of the cell in column `x` and row `y`: the cells are numbered
/// row by row.
pub open spec fn cell_index(width: int, x: int, y: int) -> int {
    y * width + x
}

/// The number of the edge that goes down from the vertex in column `x` and
/// row `y`: these edges are numbered first, row by row.
pub open spec fn vertical_edge(width: int, x: int, y: int) -> int {
    y * (width + 1) + x
}

/// The number of the edge that goes right from the vertex in column `x` and
/// row `y`: these edges are numbered after all that go down, row by row.
pub open spec fn horizontal_edge(width: int, height: int, x: int, y: int) -> int {
    height * (width + 1) + y * width + x
}

/// The number of edges of a lattice.
pub open spec fn edge_count(width: int, height: int) -> int {
    height * (width + 1) + (height + 1) * width
}

/// The two vertices that edge `e` joins: an edge that goes down joins a
/// vertex with the one below it, an edge that goes right a vertex with the
/// next in its row.
pub open spec fn lattice_edge(width: int, height: int, e: int) -> (int, int) {
    if e < height * (width + 1) {
        (e, e + width + 1)
    } else {
        let j = e - height * (width + 1);
        (j + j / width, j + j / width + 1)
    }
}

/// Whether `edges` are the edges of a lattice, in their order.
pub open spec fn are_lattice_edges(edges: Seq<(VertIdx, VertIdx)>, width: int, height: int) -> bool {
    &&& edges.len() == edge_count(width, height)
    &&& forall|e: int|
        0 <= e < edges.len() ==> (#[trigger] edges[e]).0.raw == lattice_edge(width, height, e).0
            && edges[e].1.raw == lattice_edge(width, height, e).1
}

/// The four corners of the cell in column `x` and row `y`, clockwise from
/// the top left one.
pub open spec fn corners(width: int, x: int, y: int) -> Seq<VertIdx> {
    seq![
        VertIdx { raw: vert_index(width, x, y) as usize },
        VertIdx { raw: vert_index(width, x + 1, y) as usize },
        VertIdx { raw: vert_index(width, x + 1, y + 1) as usize },
        VertIdx { raw: vert_index(width, x, y + 1) as usize },
    ]
}

/// The neighbours of the cell in column `x` and row `y`, each with the edge
/// between the two: the cell above, the one to the right, the one below and
/// the one to the left, as far as the lattice has them.
pub open spec fn lattice_neighbours(width: int, height: int, x: int, y: int) -> Seq<
    (EdgeIdx, CellIdx),
> {
    let above = if y > 0 {
        seq![above_entry(width, height, x, y)]
    } else {
        Seq::<(EdgeIdx, CellIdx)>::empty()
    };
    let right = if x + 1 < width {
        seq![right_entry(width, height, x, y)]
    } else {
        Seq::<(EdgeIdx, CellIdx)>::empty()
    };
    let below = if y + 1 < height {
        seq![below_entry(width, height, x, y)]
    } else {
        Seq::<(EdgeIdx, CellIdx)>::empty()
    };
    let left = if x > 0 {
        seq![left_entry(width, height, x, y)]
    } else {
        Seq::<(EdgeIdx, CellIdx)>::empty()
    };
    above + right + below + left
}

/// The entry of a cell's neighbours for the edge `edge` and the cell `cell`.
pub open spec fn entry(edge: int, cell: int) -> (EdgeIdx, CellIdx) {
    (EdgeIdx { raw: edge as usize }, CellIdx { raw: cell as usize })
}

/// The entry of a cell's neighbours for the cell above it.
pub open spec fn above_entry(width: int, height: int, x: int, y: int) -> (EdgeIdx, CellIdx) {
    entry(horizontal_edge(width, height, x, y), cell_index(width, x, y - 1))
}

/// The entry of a cell's neighbours for the cell to its right.
pub open spec fn right_entry(width: int, height: int, x: int, y: int) -> (EdgeIdx, CellIdx) {
    entry(vertical_edge(width, x + 1, y), cell_index(width, x + 1, y))
}

/// The entry of a cell's neighbours for the cell below it.
pub open spec fn below_entry(width: int, height: int, x: int, y: int) -> (EdgeIdx, CellIdx) {
    entry(horizontal_edge(width, height, x, y + 1), cell_index(width, x, y + 1))
}

/// The entry of a cell's neighbours for the cell to its left.
pub open spec fn left_entry(width: int, height: int, x: int, y: int) -> (EdgeIdx, CellIdx) {
    entry(vertical_edge(width, x, y), cell_index(width, x - 1, y))
}

/// Whether a lattice of this size can be numbered with machine numbers.
pub open spec fn fits(width: int, height: int) -> bool {
    2 * ((width + 1) * (height + 1)) <= usize::MAX
}

/// The numbers of a lattice that fits are machine numbers.
pub proof fn lemma_lattice_bounds(width: int, height: int, x: int, y: int)
    requires
        0 <= x <= width,
        0 <= y <= height,
    ensures
        0 <= vert_index(width, x, y) < (width + 1) * (height + 1),
        edge_count(width, height) <= 2 * ((width + 1) * (height + 1)),
        0 <= height * (width + 1) <= (width + 1) * (height + 1),
        0 <= width * height <= (width + 1) * (height + 1),
        y < height ==> 0 <= vertical_edge(width, x, y) < height * (width + 1),
        x < width ==> height * (width + 1) <= horizontal_edge(width, height, x, y) < edge_count(
            width,
            height,
        ),
        x < width && y < height ==> 0 <= cell_index(width, x, y) < width * height,
        x < width ==> (y * width + x) / width == y,
        x < width ==> (y * width + x) + y == vert_index(width, x, y),
        width + 1 <= (width + 1) * (height + 1),
        height + 1 <= (width + 1) * (height + 1),
{
    assert(width + 1 <= (width + 1) * (height + 1) && height + 1 <= (width + 1) * (height + 1))
        by (nonlinear_arith)
        requires
            0 <= width,
            0 <= height,
    ;
    assert(0 <= y * (width + 1) && y * (width + 1) + (width + 1) <= (height + 1) * (width + 1)
        && (width + 1) * (height + 1) == (height + 1) * (width + 1) && (height + 1) * (width + 1)
        == height * (width + 1) + width + 1 && (height + 1) * width == height * width + width
        && height * (width + 1) == height * width + height && width * height == height * width)
        by (nonlinear_arith)
        requires
            0 <= y <= height,
            0 <= width,
    ;
    assert(y * (width + 1) == y * width + y) by (nonlinear_arith);
    if y < height {
        assert(y * (width + 1) + (width + 1) <= height * (width + 1)) by (nonlinear_arith)
            requires
                0 <= y < height,
                0 <= width,
        ;
        assert(y * width + width <= height * width) by (nonlinear_arith)
            requires
                0 <= y < height,
                0 <= width,
        ;
    }
    assert(0 <= y * width && y * width + width <= (height + 1) * width) by (nonlinear_arith)
        requires
            0 <= y <= height,
            0 <= width,
    ;
    if x < width {
        lemma_fundamental_div_mod_converse(y * width + x, width, y, x);
    }
}

/// The column and the row of a cell and of a vertex can be read off their
/// numbers.
pub proof fn lemma_lattice_coordinates(width: int, x: int, y: int)
    requires
        0 <= x <= width,
        0 <= y,
    ensures
        x < width ==> cell_index(width, x, y) / width == y,
        x < width ==> cell_index(width, x, y) % width == x,
        vert_index(width, x, y) / (width + 1) == y,
        vert_index(width, x, y) % (width + 1) == x,
{
    if x < width {
        lemma_fundamental_div_mod_converse(y * width + x, width, y, x);
    }
    lemma_fundamental_div_mod_converse(y * (width + 1) + x, width + 1, y, x);
}

/// Whether the edge `ends` joins `v1` and `v2`, in either direction.
pub open spec fn joins(ends: (VertIdx, VertIdx), v1: VertIdx, v2: VertIdx) -> bool {
    ends == (v1, v2) || ends == (v2, v1)
}

/// The place of the first edge that joins `v1` and `v2`, in either direction.
pub fn get_edge_idx_between(edges: &EdgeEnds, v1: VertIdx, v2: VertIdx) -> (r: Option<EdgeIdx>)
    ensures
        match r {
            Some(e) => {
                &&& e.raw < edges@.len()
                &&& joins(edges@[e.raw as int], v1, v2)
                &&& forall|i: int| 0 <= i < e.raw ==> !joins(#[trigger] edges@[i], v1, v2)
            },
            None => forall|i: int| 0 <= i < edges@.len() ==> !joins(#[trigger] edges@[i], v1, v2),
        },
{
    let mut i: usize = 0;
    while i < edges.len()
        invariant
            i <= edges@.len(),
            forall|k: int| 0 <= k < i ==> !joins(#[trigger] edges@[k], v1, v2),
        decreases edges@.len() - i,
    {
        let verts = edges.get(EdgeIdx::new(i));
        if (verts.0 == v1 && verts.1 == v2) || (verts.0 == v2 && verts.1 == v1) {
            return Some(EdgeIdx::new(i));
        }
        i += 1;
    }
    None
}

/// The edges of a lattice: first those that go down, then those that go
/// right, each kind row by row.
pub fn lattice_edges(width: usize, height: usize) -> (edges: EdgeEnds)
    requires
        fits(width as int, height as int),
    ensures
        are_lattice_edges(edges@, width as int, height as int),
{
    proof {
        lemma_lattice_bounds(width as int, height as int, 0, 0);
    }
    let mut edges = EdgeEnds::new();
    let mut y: usize = 0;
    while y < height
        invariant
            fits(width as int, height as int),
            width + 1 <= usize::MAX,
            y <= height,
            edges@.len() == y * (width + 1),
            forall|e: int|
                0 <= e < edges@.len() ==> (#[trigger] edges@[e]).0.raw == e && edges@[e].1.raw == e
                    + width + 1,
        decreases height - y,
    {
        let mut x: usize = 0;
        while x < width + 1
            invariant
                fits(width as int, height as int),
                width + 1 <= usize::MAX,
                y < height,
                x <= width + 1,
                edges@.len() == y * (width + 1) + x,
                forall|e: int|
                    0 <= e < edges@.len() ==> (#[trigger] edges@[e]).0.raw == e
                        && edges@[e].1.raw == e + width + 1,
            decreases width + 1 - x,
        {
            proof {
                lemma_lattice_bounds(width as int, height as int, x as int, y as int);
                lemma_lattice_bounds(width as int, height as int, x as int, y + 1);
            }
            let top = y * (width + 1) + x;
            let bottom = (y + 1) * (width + 1) + x;
            proof {
                assert((y + 1) * (width + 1) == y * (width + 1) + (width + 1)) by (nonlinear_arith);
            }
            edges.push((VertIdx::new(top), VertIdx::new(bottom)));  // Vertical
            x += 1;
        }
        proof {
            assert((y + 1) * (width + 1) == y * (width + 1) + (width + 1)) by (nonlinear_arith);
        }
        y += 1;
    }
    let ghost down = edges@.len() as int;
    let mut y: usize = 0;
    while y < height + 1
        invariant
            fits(width as int, height as int),
            width + 1 <= usize::MAX,
            height + 1 <= usize::MAX,
            y <= height + 1,
            down == height * (width + 1),
            edges@.len() == down + y * width,
            forall|e: int|
                0 <= e < edges@.len() ==> (#[trigger] edges@[e]).0.raw == lattice_edge(
                    width as int,
                    height as int,
                    e,
                ).0 && edges@[e].1.raw == lattice_edge(width as int, height as int, e).1,
        decreases height + 1 - y,
    {
        let mut x: usize = 0;
        while x < width
            invariant
                fits(width as int, height as int),
                width + 1 <= usize::MAX,
                height + 1 <= usize::MAX,
                y < height + 1,
                x <= width,
                down == height * (width + 1),
                edges@.len() == down + y * width + x,
                forall|e: int|
                    0 <= e < edges@.len() ==> (#[trigger] edges@[e]).0.raw == lattice_edge(
                        width as int,
                        height as int,
                        e,
                    ).0 && edges@[e].1.raw == lattice_edge(width as int, height as int, e).1,
            decreases width - x,
        {
            proof {
                lemma_lattice_bounds(width as int, height as int, x as int, y as int);
                lemma_lattice_bounds(width as int, height as int, x + 1, y as int);
            }
            let left = y * (width + 1) + x;
            let right = y * (width + 1) + (x + 1);
            edges.push((VertIdx::new(left), VertIdx::new(right)));  // Horizontal
            x += 1;
        }
        proof {
            assert((y + 1) * width == y * width + width) by (nonlinear_arith);
        }
        y += 1;
    }
    edges
}

/// Looking for the edge that goes down from a vertex finds that edge.
proof fn lemma_vertical_lookup(
    edges: Seq<(VertIdx, VertIdx)>,
    width: int,
    height: int,
    x: int,
    y: int,
    v1: VertIdx,
    v2: VertIdx,
    e: int,
)
    requires
        are_lattice_edges(edges, width, height),
        fits(width, height),
        0 <= x <= width,
        0 <= y < height,
        (v1.raw == vert_index(width, x, y) && v2.raw == vert_index(width, x, y + 1)) || (v2.raw == vert_index(
            width,
            x,
            y,
        ) && v1.raw == vert_index(width, x, y + 1)),
        forall|i: int| 0 <= i < e ==> !joins(#[trigger] edges[i], v1, v2),
        0 <= e <= edges.len(),
        e < edges.len() ==> joins(edges[e], v1, v2),
    ensures
        e == vertical_edge(width, x, y),
{
    let f = vertical_edge(width, x, y);
    lemma_lattice_bounds(width, height, x, y);
    lemma_lattice_bounds(width, height, x, y + 1);
    assert((y + 1) * (width + 1) == y * (width + 1) + (width + 1)) by (nonlinear_arith);
    let top = vert_index(width, x, y);
    let bottom = vert_index(width, x, y + 1);
    assert(edges[f].0.raw == top && edges[f].1.raw == bottom);
    assert(joins(edges[f], v1, v2));
    if e < f {
        assert(edges[e].0.raw == e && edges[e].1.raw == e + width + 1);
    }
}

/// Looking for the edge that goes right from a vertex finds that edge.
proof fn lemma_horizontal_lookup(
    edges: Seq<(VertIdx, VertIdx)>,
    width: int,
    height: int,
    x: int,
    y: int,
    v1: VertIdx,
    v2: VertIdx,
    e: int,
)
    requires
        are_lattice_edges(edges, width, height),
        fits(width, height),
        0 <= x < width,
        0 <= y <= height,
        (v1.raw == vert_index(width, x, y) && v2.raw == vert_index(width, x + 1, y)) || (v2.raw == vert_index(
            width,
            x,
            y,
        ) && v1.raw == vert_index(width, x + 1, y)),
        forall|i: int| 0 <= i < e ==> !joins(#[trigger] edges[i], v1, v2),
        0 <= e <= edges.len(),
        e < edges.len() ==> joins(edges[e], v1, v2),
    ensures
        e == horizontal_edge(width, height, x, y),
{
    let f = horizontal_edge(width, height, x, y);
    let down = height * (width + 1);
    let j = y * width + x;
    lemma_lattice_bounds(width, height, x, y);
    lemma_lattice_bounds(width, height, x + 1, y);
    let left = vert_index(width, x, y);
    assert(edges[f].0.raw == left && edges[f].1.raw == left + 1);
    assert(joins(edges[f], v1, v2));
    if e < f {
        if e < down {
            assert(edges[e].0.raw == e && edges[e].1.raw == e + width + 1);
        } else {
            let k = e - down;
            lemma_div_is_ordered(k, j, width);
            assert(edges[e].0.raw == k + k / width && edges[e].1.raw == k + k / width + 1);
        }
    }
}

/// The edge between the vertices `v1` and `v2`, of which one is the vertex in
/// column `x` and row `y` and the other the one below it.
fn edge_down(
    edges: &EdgeEnds,
    width: usize,
    height: usize,
    x: usize,
    y: usize,
    v1: VertIdx,
    v2: VertIdx,
) -> (e: EdgeIdx)
    requires
        fits(width as int, height as int),
        are_lattice_edges(edges@, width as int, height as int),
        x <= width,
        y < height,
        (v1.raw == vert_index(width as int, x as int, y as int) && v2.raw == vert_index(
            width as int,
            x as int,
            y + 1,
        )) || (v2.raw == vert_index(width as int, x as int, y as int) && v1.raw == vert_index(
            width as int,
            x as int,
            y + 1,
        )),
    ensures
        e.raw == vertical_edge(width as int, x as int, y as int),
{
    let found = get_edge_idx_between(edges, v1, v2);
    proof {
        let e = if found is Some {
            found->Some_0.raw as int
        } else {
            edges@.len() as int
        };
        lemma_vertical_lookup(edges@, width as int, height as int, x as int, y as int, v1, v2, e);
        lemma_lattice_bounds(width as int, height as int, x as int, y as int);
    }
    found.unwrap()
}

/// The edge between the vertices `v1` and `v2`, of which one is the vertex in
/// column `x` and row `y` and the other the next in its row.
fn edge_right(
    edges: &EdgeEnds,
    width: usize,
    height: usize,
    x: usize,
    y: usize,
    v1: VertIdx,
    v2: VertIdx,
) -> (e: EdgeIdx)
    requires
        fits(width as int, height as int),
        are_lattice_edges(edges@, width as int, height as int),
        x < width,
        y <= height,
        (v1.raw == vert_index(width as int, x as int, y as int) && v2.raw == vert_index(
            width as int,
            x + 1,
            y as int,
        )) || (v2.raw == vert_index(width as int, x as int, y as int) && v1.raw == vert_index(
            width as int,
            x + 1,
            y as int,
        )),
    ensures
        e.raw == horizontal_edge(width as int, height as int, x as int, y as int),
{
    let found = get_edge_idx_between(edges, v1, v2);
    proof {
        let e = if found is Some {
            found->Some_0.raw as int
        } else {
            edges@.len() as int
        };
        lemma_horizontal_lookup(edges@, width as int, height as int, x as int, y as int, v1, v2, e);
        lemma_lattice_bounds(width as int, height as int, x as int, y as int);
    }
    found.unwrap()
}

/// The numbers of the four corners of a cell, clockwise from the top left.
fn corner_indices(width: usize, height: usize, x: usize, y: usize) -> (r: (
    VertIdx,
    VertIdx,
    VertIdx,
    VertIdx,
))
    requires
        fits(width as int, height as int),
        x < width,
        y < height,
    ensures
        r.0.raw == vert_index(width as int, x as int, y as int),
        r.1.raw == vert_index(width as int, x + 1, y as int),
        r.2.raw == vert_index(width as int, x + 1, y + 1),
        r.3.raw == vert_index(width as int, x as int, y + 1),
{
    proof {
        lemma_lattice_bounds(width as int, height as int, x + 1, y + 1);
        lemma_lattice_bounds(width as int, height as int, x as int, y as int);
        assert((y + 1) * (width + 1) == y * (width + 1) + (width + 1)) by (nonlinear_arith);
    }
    let tl = y * (width + 1) + x;
    let tr = tl + 1;
    let bl = tl + (width + 1);
    let br = bl + 1;
    (VertIdx::new(tl), VertIdx::new(tr), VertIdx::new(br), VertIdx::new(bl))
}

/// The number of the cell in column `x` and row `y`.
fn cell_number(width: usize, height: usize, x: usize, y: usize) -> (c: CellIdx)
    requires
        fits(width as int, height as int),
        x < width,
        y < height,
    ensures
        c.raw == cell_index(width as int, x as int, y as int),
{
    proof {
        lemma_lattice_bounds(width as int, height as int, x as int, y as int);
    }
    CellIdx::new(y * width + x)
}

/// The corners and the neighbours of the cell in column `x` and row `y`.
pub fn lattice_cell(width: usize, height: usize, x: usize, y: usize, edges: &EdgeEnds) -> (parts: (
    Vec<VertIdx>,
    Vec<(EdgeIdx, CellIdx)>,
))
    requires
        fits(width as int, height as int),
        are_lattice_edges(edges@, width as int, height as int),
        x < width,
        y < height,
    ensures
        parts.0@ == corners(width as int, x as int, y as int),
        parts.1@ == lattice_neighbours(width as int, height as int, x as int, y as int),
{
    let (tl, tr, br, bl) = corner_indices(width, height, x, y);
    // Compute cell neighbours
    let mut neighbours: Vec<(EdgeIdx, CellIdx)> = Vec::new();
    if y > 0 {
        let edge = edge_right(edges, width, height, x, y, tl, tr);
        neighbours.push((edge, cell_number(width, height, x, y - 1)));
    }
    if x + 1 < width {
        let edge = edge_down(edges, width, height, x + 1, y, tr, br);
        neighbours.push((edge, cell_number(width, height, x + 1, y)));
    }
    if y + 1 < height {
        let edge = edge_right(edges, width, height, x, y + 1, br, bl);
        neighbours.push((edge, cell_number(width, height, x, y + 1)));
    }
    if x > 0 {
        let edge = edge_down(edges, width, height, x, y, bl, tl);
        neighbours.push((edge, cell_number(width, height, x - 1, y)));
    }
    let mut verts: Vec<VertIdx> = Vec::new();
    verts.push(tl);
    verts.push(tr);
    verts.push(br);
    verts.push(bl);
    proof {
        assert(verts@ =~= corners(width as int, x as int, y as int));
        assert(neighbours@ =~= lattice_neighbours(width as int, height as int, x as int, y as int));
    }
    (verts, neighbours)
}

/// Whether `entry` is among `entries`.
pub open spec fn has_entry(entries: Seq<(EdgeIdx, CellIdx)>, entry: (EdgeIdx, CellIdx)) -> bool {
    exists|j: int| 0 <= j < entries.len() && #[trigger] entries[j] == entry
}

/// A cell's neighbours are the entries for the four sides on which the
/// lattice goes on, and no others.
pub proof fn lemma_neighbour_entries(width: int, height: int, x: int, y: int)
    ensures
        y > 0 ==> has_entry(
            lattice_neighbours(width, height, x, y),
            above_entry(width, height, x, y),
        ),
        x + 1 < width ==> has_entry(
            lattice_neighbours(width, height, x, y),
            right_entry(width, height, x, y),
        ),
        y + 1 < height ==> has_entry(
            lattice_neighbours(width, height, x, y),
            below_entry(width, height, x, y),
        ),
        x > 0 ==> has_entry(
            lattice_neighbours(width, height, x, y),
            left_entry(width, height, x, y),
        ),
        forall|k: int|
            0 <= k < lattice_neighbours(width, height, x, y).len() ==> {
                let entry = #[trigger] lattice_neighbours(width, height, x, y)[k];
                ||| y > 0 && entry == above_entry(width, height, x, y)
                ||| x + 1 < width && entry == right_entry(width, height, x, y)
                ||| y + 1 < height && entry == below_entry(width, height, x, y)
                ||| x > 0 && entry == left_entry(width, height, x, y)
            },
{
    let all = lattice_neighbours(width, height, x, y);
    let a: int = if y > 0 {
        1
    } else {
        0
    };
    let r: int = if x + 1 < width {
        1
    } else {
        0
    };
    let b: int = if y + 1 < height {
        1
    } else {
        0
    };
    assert(all.len() == a + r + b + if x > 0 {
        1int
    } else {
        0int
    });
    if y > 0 {
        assert(all[0] == above_entry(width, height, x, y));
    }
    if x + 1 < width {
        assert(all[a] == right_entry(width, height, x, y));
    }
    if y + 1 < height {
        assert(all[a + r] == below_entry(width, height, x, y));
    }
    if x > 0 {
        assert(all[a + r + b] == left_entry(width, height, x, y));
    }
}

/// Each neighbour of a cell is a cell of the lattice, and has the cell among
/// its own neighbours, over the same edge: `(nx, ny)` are the neighbour's
/// column and row.
pub proof fn lemma_neighbour_back(width: int, height: int, x: int, y: int, k: int) -> (place: (
    int,
    int,
))
    requires
        fits(width, height),
        0 <= x < width,
        0 <= y < height,
        0 <= k < lattice_neighbours(width, height, x, y).len(),
    ensures
        0 <= place.0 < width,
        0 <= place.1 < height,
        lattice_neighbours(width, height, x, y)[k].1.raw == cell_index(width, place.0, place.1),
        0 <= cell_index(width, place.0, place.1) < width * height,
        has_entry(
            lattice_neighbours(width, height, place.0, place.1),
            (lattice_neighbours(width, height, x, y)[k].0, CellIdx { raw: cell_index(width, x, y) as usize }),
        ),
{
    let entry = lattice_neighbours(width, height, x, y)[k];
    lemma_neighbour_entries(width, height, x, y);
    lemma_lattice_bounds(width, height, x, y);
    if y > 0 && entry == above_entry(width, height, x, y) {
        lemma_lattice_bounds(width, height, x, y - 1);
        lemma_neighbour_entries(width, height, x, y - 1);
        assert(below_entry(width, height, x, y - 1) == (entry.0, CellIdx { raw: cell_index(width, x, y) as usize }));
        (x, y - 1)
    } else if x + 1 < width && entry == right_entry(width, height, x, y) {
        lemma_lattice_bounds(width, height, x + 1, y);
        lemma_neighbour_entries(width, height, x + 1, y);
        assert(left_entry(width, height, x + 1, y) == (entry.0, CellIdx { raw: cell_index(width, x, y) as usize }));
        (x + 1, y)
    } else if y + 1 < height && entry == below_entry(width, height, x, y) {
        lemma_lattice_bounds(width, height, x, y + 1);
        lemma_neighbour_entries(width, height, x, y + 1);
        assert(above_entry(width, height, x, y + 1) == (entry.0, CellIdx { raw: cell_index(width, x, y) as usize }));
        (x, y + 1)
    } else {
        lemma_lattice_bounds(width, height, x - 1, y);
        lemma_neighbour_entries(width, height, x - 1, y);
        assert(right_entry(width, height, x - 1, y) == (entry.0, CellIdx { raw: cell_index(width, x, y) as usize }));
        (x - 1, y)
    }
}

/// The column and the row of a cell of the lattice.
pub proof fn lemma_cell_place(width: int, height: int, c: int)
    requires
        0 <= width,
        0 <= height,
        0 <= c < width * height,
    ensures
        0 <= c % width < width,
        0 <= c / width < height,
        cell_index(width, c % width, c / width) == c,
{
    let x = c % width;
    let y = c / width;
    assert(width > 0 && height > 0) by (nonlinear_arith)
        requires
            0 <= c < width * height,
            0 <= width,
            0 <= height,
    ;
    vstd::arithmetic::div_mod::lemma_fundamental_div_mod(c, width);
    vstd::arithmetic::div_mod::lemma_mod_bound(c, width);
    assert(0 <= y < height) by (nonlinear_arith)
        requires
            c == width * y + x,
            0 <= x < width,
            0 <= c < width * height,
    ;
    assert(width * y == y * width) by (nonlinear_arith);
}

} // verus!
