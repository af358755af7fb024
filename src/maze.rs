use vstd::prelude::*;

use crate::direction::{Direction, Openings, opposite_spec};
use crate::edge::{Edge, cell_index, neighbor_spec};

verus! {

/// The openings of cell `(x, y)` in a grid `w` cells wide stored row by row.
pub open spec fn cell_at(w: int, cells: Seq<Openings>, x: int, y: int) -> Openings {
    cells[cell_index(w, x, y)]
}

/// No cell of an `h` by `w` grid is open towards the outside.
pub open spec fn within_bounds(h: int, w: int, cells: Seq<Openings>) -> bool {
    forall|x: int, y: int|
        0 <= x < w && 0 <= y < h ==> {
            &&& (#[trigger] cell_at(w, cells, x, y)).north ==> y > 0
            &&& cell_at(w, cells, x, y).south ==> y + 1 < h
            &&& cell_at(w, cells, x, y).west ==> x > 0
            &&& cell_at(w, cells, x, y).east ==> x + 1 < w
        }
}

/// Each adjacency is open from both sides or from neither: a North opening
/// matches a South opening above it, a West opening an East opening to its left.
pub open spec fn paired(h: int, w: int, cells: Seq<Openings>) -> bool {
    &&& forall|x: int, y: int|
        0 <= x < w && 0 < y < h ==> (#[trigger] cell_at(w, cells, x, y)).north == cell_at(
            w,
            cells,
            x,
            y - 1,
        ).south
    &&& forall|x: int, y: int|
        0 < x < w && 0 <= y < h ==> (#[trigger] cell_at(w, cells, x, y)).west == cell_at(
            w,
            cells,
            x - 1,
            y,
        ).east
}

/// Whenever a cell is open in some direction towards a neighbour inside the
/// grid, that neighbour is open in the opposite direction.
pub open spec fn symmetric(h: int, w: int, cells: Seq<Openings>) -> bool {
    forall|x: usize, y: usize, d: Direction|
        x < w && y < h && (#[trigger] cell_at(w, cells, x as int, y as int).has(d))
            && neighbor_spec(Edge { x, y, dir: d }, h, w) is Some ==> {
            let n = neighbor_spec(Edge { x, y, dir: d }, h, w)->0;
            cell_at(w, cells, n.0 as int, n.1 as int).has(opposite_spec(d))
        }
}

/// There is a passage from cell index `a` to cell index `b`.
pub open spec fn linked(w: int, cells: Seq<Openings>, a: int, b: int) -> bool {
    ||| cells[a].north && b == a - w
    ||| cells[a].south && b == a + w
    ||| cells[a].west && b == a - 1
    ||| cells[a].east && b == a + 1
}

/// Step `i` of the walk `p` goes through a passage.
pub open spec fn walk_step(w: int, cells: Seq<Openings>, p: Seq<int>, i: int) -> bool {
    linked(w, cells, p[i], p[i + 1])
}

/// `p` is a walk through passages from cell index `a` to cell index `b`.
pub open spec fn is_path(w: int, cells: Seq<Openings>, p: Seq<int>, a: int, b: int) -> bool {
    &&& p.len() > 0
    &&& p[0] == a
    &&& p.last() == b
    &&& forall|i: int| 0 <= i < p.len() ==> 0 <= #[trigger] p[i] < cells.len()
    &&& forall|i: int| 0 <= i < p.len() - 1 ==> #[trigger] walk_step(w, cells, p, i)
}

/// Cell index `b` can be reached from cell index `a` through passages.
pub open spec fn reachable(w: int, cells: Seq<Openings>, a: int, b: int) -> bool {
    exists|p: Seq<int>| #[trigger] is_path(w, cells, p, a, b)
}

/// Every cell of an `h` by `w` grid can be reached from every other.
pub open spec fn connected(h: int, w: int, cells: Seq<Openings>) -> bool {
    forall|a: int, b: int| 0 <= a < h * w && 0 <= b < h * w ==> #[trigger] reachable(w, cells, a, b)
}

/// How many passages a cell accounts for: its North and its West opening,
/// so that each passage of the grid is counted once.
pub open spec fn weight(o: Openings) -> int {
    (if o.north { 1int } else { 0int }) + (if o.west { 1int } else { 0int })
}

/// Number of passages carved in the grid.
pub open spec fn carved_count(cells: Seq<Openings>) -> int
    decreases cells.len(),
{
    if cells.len() == 0 {
        0
    } else {
        carved_count(cells.drop_last()) + weight(cells.last())
    }
}

/// A perfect maze: bounded, symmetric, connected, and with one passage fewer
/// than cells, so that the passages form a spanning tree.
pub open spec fn is_perfect_maze(h: int, w: int, cells: Seq<Openings>) -> bool {
    &&& cells.len() == h * w
    &&& within_bounds(h, w, cells)
    &&& symmetric(h, w, cells)
    &&& connected(h, w, cells)
    &&& carved_count(cells) == h * w - 1
}

/// A rectangular maze: the openings of `height * width` cells, row by row.
#[derive(Debug, Clone, PartialEq, Eq)]
pub struct Maze {
    pub height: usize,
    pub width: usize,
    pub cells: Vec<Openings>,
}

impl Maze {
    /// The cells hold one entry per cell of the grid.
    pub open spec fn well_formed(&self) -> bool {
        self.cells.len() == self.height * self.width
    }

    /// The openings of cell `(x, y)`.
    pub open spec fn cell_spec(&self, x: int, y: int) -> Openings {
        cell_at(self.width as int, self.cells@, x, y)
    }

    /// The openings of cell `(x, y)`.
    pub fn cell(&self, x: usize, y: usize) -> (r: Openings)
        requires
            self.well_formed(),
            x < self.width,
            y < self.height,
        ensures
            r == self.cell_spec(x as int, y as int),
    {
        proof {
            crate::edge::lemma_index_bound(self.height as int, self.width as int, x as int, y as int);
        }
        self.cells[y * self.width + x]
    }

    /// Whether cell `(x, y)` has no wall towards `dir`.
    pub fn is_open(&self, x: usize, y: usize, dir: Direction) -> (r: bool)
        requires
            self.well_formed(),
            x < self.width,
            y < self.height,
        ensures
            r == self.cell_spec(x as int, y as int).has(dir),
    {
        self.cell(x, y).contains(dir)
    }
}

/// Every cell has an opening.
pub open spec fn no_isolated_cell(h: int, w: int, cells: Seq<Openings>) -> bool {
    forall|x: int, y: int|
        0 <= x < w && 0 <= y < h ==> !(#[trigger] cell_at(w, cells, x, y)).is_empty_spec()
}

} // verus!
