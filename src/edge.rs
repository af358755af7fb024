use vstd::prelude::*;

use crate::direction::Direction;

verus! {

/// Flat index of cell `(x, y)` in a grid `w` cells wide, row by row.
pub open spec fn cell_index(w: int, x: int, y: int) -> int {
    y * w + x
}

/// A cell index is below `h * w` for every cell inside an `h` by `w` grid.
pub proof fn lemma_index_bound(h: int, w: int, x: int, y: int)
    requires
        0 <= x < w,
        0 <= y < h,
    ensures
        0 <= cell_index(w, x, y) < h * w,
{
    assert(0 <= y * w + x < h * w) by (nonlinear_arith)
        requires
            0 <= x < w,
            0 <= y < h,
    ;
}

/// Every cell inside an `h` by `w` grid has an index below `h * w`.
pub proof fn lemma_index_bound_all(h: int, w: int)
    ensures
        forall|x: int, y: int|
            0 <= x < w && 0 <= y < h ==> 0 <= #[trigger] cell_index(w, x, y) < h * w,
{
    assert forall|x: int, y: int| 0 <= x < w && 0 <= y < h implies 0 <= #[trigger] cell_index(w, x, y) < h * w by {
        lemma_index_bound(h, w, x, y);
    }
}

/// Distinct cells of a grid have distinct indices.
pub proof fn lemma_index_injective(w: int, x1: int, y1: int, x2: int, y2: int)
    requires
        0 <= x1 < w,
        0 <= x2 < w,
        0 <= y1,
        0 <= y2,
        cell_index(w, x1, y1) == cell_index(w, x2, y2),
    ensures
        x1 == x2,
        y1 == y2,
{
    assert(y1 == y2) by (nonlinear_arith)
        requires
            0 <= x1 < w,
            0 <= x2 < w,
            0 <= y1,
            0 <= y2,
            y1 * w + x1 == y2 * w + x2,
    ;
}

/// Stepping one row up lowers the index by the width.
pub proof fn lemma_index_row_above(w: int, x: int, y: int)
    ensures
        cell_index(w, x, y - 1) == cell_index(w, x, y) - w,
{
    assert((y - 1) * w == y * w - w) by (nonlinear_arith);
}

/// Every index below `h * w` is the index of a cell inside the grid.
pub proof fn lemma_index_decompose(h: int, w: int, i: int) -> (c: (int, int))
    requires
        0 < w,
        0 <= i < h * w,
    ensures
        0 <= c.0 < w,
        0 <= c.1 < h,
        cell_index(w, c.0, c.1) == i,
{
    let x = i % w;
    let y = i / w;
    assert(i == w * y + x && 0 <= x < w) by (nonlinear_arith)
        requires
            0 < w,
            x == i % w,
            y == i / w,
            0 <= i,
    ;
    assert(0 <= y < h) by (nonlinear_arith)
        requires
            0 < w,
            0 <= x < w,
            i == w * y + x,
            0 <= i < h * w,
    ;
    assert(cell_index(w, x, y) == i) by (nonlinear_arith)
        requires
            i == w * y + x,
    ;
    (x, y)
}

/// A candidate connection between the cell `(x, y)` and one of its neighbours.
#[derive(Debug, Clone, Copy, PartialEq, Eq, Structural, Hash)]
pub struct Edge {
    pub x: usize,
    pub y: usize,
    pub dir: Direction,
}

/// Horizontal offset of a step in `dir`.
pub open spec fn dx_spec(dir: Direction) -> int {
    match dir {
        Direction::E => 1,
        Direction::W => -1,
        _ => 0,
    }
}

/// Vertical offset of a step in `dir`.
pub open spec fn dy_spec(dir: Direction) -> int {
    match dir {
        Direction::N => -1,
        Direction::S => 1,
        _ => 0,
    }
}

/// The edge between `(x, y)` and the cell above it.
pub open spec fn north_edge(x: usize, y: usize) -> Edge {
    Edge { x, y, dir: Direction::N }
}

/// The edge between `(x, y)` and the cell to its left.
pub open spec fn west_edge(x: usize, y: usize) -> Edge {
    Edge { x, y, dir: Direction::W }
}

/// The cell that `e` leads to, when both ends lie inside an `h` by `w` grid.
pub open spec fn neighbor_spec(e: Edge, h: int, w: int) -> Option<(usize, usize)> {
    let nx = e.x + dx_spec(e.dir);
    let ny = e.y + dy_spec(e.dir);
    if e.x < w && e.y < h && 0 <= nx < w && 0 <= ny < h {
        Some((nx as usize, ny as usize))
    } else {
        None
    }
}

/// An edge that the generator considers: a North edge below row 0 or a
/// West edge right of column 0, each adjacency of the grid exactly once.
pub open spec fn is_candidate(h: int, w: int, e: Edge) -> bool {
    &&& e.x < w
    &&& e.y < h
    &&& (e.dir == Direction::N && e.y > 0) || (e.dir == Direction::W && e.x > 0)
}

/// `es` holds every candidate edge of an `h` by `w` grid.
pub open spec fn has_all_candidates(h: int, w: int, es: Seq<Edge>) -> bool {
    &&& forall|x: usize, y: usize|
        x < w && 0 < y < h ==> #[trigger] es.contains(north_edge(x, y))
    &&& forall|x: usize, y: usize|
        0 < x < w && y < h ==> #[trigger] es.contains(west_edge(x, y))
}

impl Edge {
    /// Horizontal offset of a step in `dir`: East is +1, West is -1.
    pub fn dx(dir: Direction) -> (r: i32)
        ensures
            r == dx_spec(dir),
    {
        match dir {
            Direction::E => 1,
            Direction::W => -1,
            _ => 0,
        }
    }

    /// Vertical offset of a step in `dir`: South is +1, North is -1.
    pub fn dy(dir: Direction) -> (r: i32)
        ensures
            r == dy_spec(dir),
    {
        match dir {
            Direction::N => -1,
            Direction::S => 1,
            _ => 0,
        }
    }

    /// The cell this edge leads to, or `None` where either end falls outside
    /// an `height` by `width` grid.
    pub fn neighbor(&self, height: usize, width: usize) -> (r: Option<(usize, usize)>)
        ensures
            r == neighbor_spec(*self, height as int, width as int),
    {
        let nx: i128 = self.x as i128 + Edge::dx(self.dir) as i128;
        let ny: i128 = self.y as i128 + Edge::dy(self.dir) as i128;
        if self.x < width && self.y < height && 0 <= nx && nx < width as i128 && 0 <= ny
            && ny < height as i128 {
            Some((nx as usize, ny as usize))
        } else {
            None
        }
    }
}

/// Number of candidate edges among the first `x` cells of row `y`.
spec fn edges_in_row(x: int, y: int) -> int {
    (if y > 0 { x } else { 0 }) + (if x > 0 { x - 1 } else { 0 })
}

/// Number of candidate edges in the rows above row `y` of a grid `w` wide.
spec fn edges_before_row(w: int, y: int) -> int {
    if y == 0 || w == 0 {
        0
    } else {
        2 * y * w - y - w
    }
}

/// A full row adds its candidate edges to those of the rows above.
proof fn lemma_edges_next_row(w: int, y: int)
    requires
        0 <= y,
        0 <= w,
    ensures
        edges_before_row(w, y) + edges_in_row(w, y) == edges_before_row(w, y + 1),
{
    assert(2 * (y + 1) * w == 2 * y * w + 2 * w) by (nonlinear_arith);
}

/// All rows of an `h` by `w` grid hold `2 * h * w - h - w` candidate edges.
proof fn lemma_edges_total(h: int, w: int)
    requires
        0 < h,
        0 < w,
    ensures
        edges_before_row(w, h) == 2 * h * w - h - w,
{
    assert(2 * h * w == 2 * (h * w)) by (nonlinear_arith);
}

/// Pushing onto a sequence keeps what it held and adds the new item.
proof fn lemma_push_contains(s: Seq<Edge>, v: Edge)
    ensures
        s.push(v).contains(v),
        forall|a: Edge| s.contains(a) ==> #[trigger] s.push(v).contains(a),
{
    assert(s.push(v)[s.len() as int] == v);
    assert forall|a: Edge| s.contains(a) implies #[trigger] s.push(v).contains(a) by {
        let k = choose|k: int| 0 <= k < s.len() && s[k] == a;
        assert(s.push(v)[k] == a);
    }
}

/// Lists every candidate edge of an `height` by `width` grid, row by row:
/// for each cell its North edge (below row 0), then its West edge (right of
/// column 0).
pub fn candidate_edges(height: usize, width: usize) -> (r: Vec<Edge>)
    ensures
        forall|k: int| 0 <= k < r.len() ==> is_candidate(height as int, width as int, #[trigger] r[k]),
        has_all_candidates(height as int, width as int, r@),
        0 < height && 0 < width ==> r.len() == 2 * height * width - height - width,
{
    let mut edges: Vec<Edge> = Vec::new();
    for y in 0..height
        invariant
            edges.len() == edges_before_row(width as int, y as int),
            forall|k: int| 0 <= k < edges.len() ==> is_candidate(height as int, width as int, #[trigger] edges[k]),
            forall|i: usize, j: usize|
                i < width && 0 < j < y ==> #[trigger] edges@.contains(north_edge(i, j)),
            forall|i: usize, j: usize|
                0 < i < width && j < y ==> #[trigger] edges@.contains(west_edge(i, j)),
    {
        for x in 0..width
            invariant
                y < height,
                edges.len() == edges_before_row(width as int, y as int) + edges_in_row(x as int, y as int),
                forall|k: int| 0 <= k < edges.len() ==> is_candidate(height as int, width as int, #[trigger] edges[k]),
                forall|i: usize, j: usize|
                    i < width && 0 < j < y ==> #[trigger] edges@.contains(north_edge(i, j)),
                forall|i: usize, j: usize|
                    0 < i < width && j < y ==> #[trigger] edges@.contains(west_edge(i, j)),
                forall|i: usize| i < x && 0 < y ==> #[trigger] edges@.contains(north_edge(i, y)),
                forall|i: usize| 0 < i < x ==> #[trigger] edges@.contains(west_edge(i, y)),
        {
            if y > 0 {
                let ghost before = edges@;
                edges.push(Edge { x, y, dir: Direction::N });
                proof {
                    lemma_push_contains(before, north_edge(x, y));
                }
            }
            if x > 0 {
                let ghost before = edges@;
                edges.push(Edge { x, y, dir: Direction::W });
                proof {
                    lemma_push_contains(before, west_edge(x, y));
                }
            }
        }
        proof {
            lemma_edges_next_row(width as int, y as int);
        }
    }
    proof {
        if height > 0 && width > 0 {
            lemma_edges_total(height as int, width as int);
        }
    }
    edges
}

} // verus!
