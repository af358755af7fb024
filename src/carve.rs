use vstd::prelude::*;

use crate::direction::{Direction, Openings, opposite, opposite_spec};
use crate::edge::{
    Edge,
    cell_index,
    is_candidate,
    lemma_index_bound,
    lemma_index_bound_all,
    lemma_index_decompose,
    lemma_index_injective,
    lemma_index_row_above,
    has_all_candidates,
    neighbor_spec,
    north_edge,
    west_edge,
};
use crate::maze::{
    Maze,
    carved_count,
    cell_at,
    connected,
    is_perfect_maze,
    no_isolated_cell,
    symmetric,
    is_path,
    linked,
    paired,
    reachable,
    walk_step,
    weight,
    within_bounds,
};

verus! {

/// Component labels at the start: cell `i` alone in component `i`.
pub open spec fn initial_labels(n: int) -> Seq<usize> {
    Seq::new(n as nat, |i: int| i as usize)
}

/// A grid of `n` cells with every wall standing.
pub open spec fn initial_cells(n: int) -> Seq<Openings> {
    Seq::new(n as nat, |i: int| Openings::none_spec())
}

/// Moves every cell labelled `from` into component `to`.
pub open spec fn relabel(labels: Seq<usize>, from: usize, to: usize) -> Seq<usize> {
    labels.map_values(|l: usize| if l == from { to } else { l })
}

/// Considers one edge: where its two cells lie in different components, the
/// passage is opened from both sides and the first component joins the second.
pub open spec fn carve_step(h: int, w: int, st: (Seq<usize>, Seq<Openings>), e: Edge) -> (
    Seq<usize>,
    Seq<Openings>,
) {
    let labels = st.0;
    let cells = st.1;
    match neighbor_spec(e, h, w) {
        Some(n) => {
            let c = cell_index(w, e.x as int, e.y as int);
            let nc = cell_index(w, n.0 as int, n.1 as int);
            if labels[c] == labels[nc] {
                st
            } else {
                (
                    relabel(labels, labels[c], labels[nc]),
                    cells.update(c, cells[c].with(e.dir)).update(
                        nc,
                        cells[nc].with(opposite_spec(e.dir)),
                    ),
                )
            }
        },
        None => st,
    }
}

/// Labels and cells after considering `edges` in order.
pub open spec fn carve_run(h: int, w: int, edges: Seq<Edge>) -> (Seq<usize>, Seq<Openings>)
    decreases edges.len(),
{
    if edges.len() == 0 {
        (initial_labels(h * w), initial_cells(h * w))
    } else {
        carve_step(h, w, carve_run(h, w, edges.drop_last()), edges.last())
    }
}

/// The maze that considering `edges` in order carves in an `h` by `w` grid.
pub open spec fn carved_maze(h: int, w: int, edges: Seq<Edge>) -> Seq<Openings> {
    carve_run(h, w, edges).1
}

/// The two cells of `e` share a component.
pub open spec fn joined(h: int, w: int, labels: Seq<usize>, e: Edge) -> bool {
    match neighbor_spec(e, h, w) {
        Some(n) => labels[cell_index(w, e.x as int, e.y as int)] == labels[cell_index(
            w,
            n.0 as int,
            n.1 as int,
        )],
        None => true,
    }
}

/// What holds after every step: the passages form a forest whose trees are
/// exactly the components that the labels name.
pub open spec fn forest(h: int, w: int, labels: Seq<usize>, cells: Seq<Openings>) -> bool {
    &&& labels.len() == h * w
    &&& cells.len() == h * w
    &&& within_bounds(h, w, cells)
    &&& paired(h, w, cells)
    &&& forall|x: int, y: int|
        0 <= x < w && 0 <= y < h ==> {
            &&& (#[trigger] cell_at(w, cells, x, y)).north ==> labels[cell_index(w, x, y)]
                == labels[cell_index(w, x, y - 1)]
            &&& cell_at(w, cells, x, y).west ==> labels[cell_index(w, x, y)]
                == labels[cell_index(w, x - 1, y)]
        }
    &&& forall|a: int, b: int|
        0 <= a < h * w && 0 <= b < h * w && #[trigger] labels[a] == #[trigger] labels[b]
            ==> reachable(w, cells, a, b)
    &&& carved_count(cells) + labels.to_set().len() == h * w
}

/// Every flag of `o1` is set in `o2`.
pub open spec fn includes(o2: Openings, o1: Openings) -> bool {
    &&& o1.north ==> o2.north
    &&& o1.south ==> o2.south
    &&& o1.west ==> o2.west
    &&& o1.east ==> o2.east
}

/// A walk stays a walk when passages are only added.
proof fn lemma_path_grows(w: int, g: Seq<Openings>, g2: Seq<Openings>, p: Seq<int>, a: int, b: int)
    requires
        is_path(w, g, p, a, b),
        g2.len() == g.len(),
        forall|k: int| 0 <= k < g.len() ==> includes(#[trigger] g2[k], g[k]),
    ensures
        is_path(w, g2, p, a, b),
{
    assert forall|i: int| 0 <= i < p.len() - 1 implies #[trigger] walk_step(w, g2, p, i) by {
        assert(walk_step(w, g, p, i));
        assert(includes(g2[p[i]], g[p[i]]));
    }
}

/// Two walks joined by one passage make a walk.
proof fn lemma_path_join(
    w: int,
    g: Seq<Openings>,
    p: Seq<int>,
    q: Seq<int>,
    a: int,
    m: int,
    n: int,
    b: int,
)
    requires
        is_path(w, g, p, a, m),
        is_path(w, g, q, n, b),
        linked(w, g, m, n),
    ensures
        is_path(w, g, p + q, a, b),
{
    let r = p + q;
    assert forall|i: int| 0 <= i < r.len() implies 0 <= #[trigger] r[i] < g.len() by {
        if i >= p.len() {
            assert(r[i] == q[i - p.len()]);
        }
    }
    assert forall|i: int| 0 <= i < r.len() - 1 implies #[trigger] walk_step(w, g, r, i) by {
        if i < p.len() - 1 {
            assert(walk_step(w, g, p, i));
        } else if i >= p.len() {
            assert(walk_step(w, g, q, i - p.len()));
        }
    }
}

/// Changing one cell changes the count by the difference of the weights.
proof fn lemma_count_update(s: Seq<Openings>, i: int, v: Openings)
    requires
        0 <= i < s.len(),
    ensures
        carved_count(s.update(i, v)) == carved_count(s) - weight(s[i]) + weight(v),
    decreases s.len(),
{
    let t = s.update(i, v);
    if i == s.len() - 1 {
        assert(t.drop_last() =~= s.drop_last());
    } else {
        assert(t.drop_last() =~= s.drop_last().update(i, v));
        lemma_count_update(s.drop_last(), i, v);
    }
}

/// A grid with every wall standing has no passage.
proof fn lemma_count_initial(n: int)
    requires
        0 <= n,
    ensures
        carved_count(initial_cells(n)) == 0,
    decreases n,
{
    if n > 0 {
        assert(initial_cells(n).drop_last() =~= initial_cells(n - 1));
        lemma_count_initial(n - 1);
    }
}

/// Merging one component into another that is present removes one label.
proof fn lemma_relabel_set(labels: Seq<usize>, from: usize, to: usize, j: int, j2: int)
    requires
        from != to,
        0 <= j < labels.len(),
        labels[j] == from,
        0 <= j2 < labels.len(),
        labels[j2] == to,
    ensures
        relabel(labels, from, to).to_set() =~= labels.to_set().remove(from),
        relabel(labels, from, to).to_set().len() == labels.to_set().len() - 1,
{
    broadcast use vstd::seq_lib::seq_to_set_is_finite;

    let r = relabel(labels, from, to);
    assert forall|v: usize| r.to_set().contains(v) == labels.to_set().remove(from).contains(v) by {
        if r.contains(v) {
            let k = choose|k: int| 0 <= k < r.len() && r[k] == v;
            assert(r[k] == if labels[k] == from { to } else { labels[k] });
            if labels[k] != from {
                assert(labels[k] == v);
            } else {
                assert(labels[j2] == v);
            }
            assert(labels.contains(v));
        }
        if v != from && labels.contains(v) {
            let k = choose|k: int| 0 <= k < labels.len() && labels[k] == v;
            assert(r[k] == v);
        }
    }
    assert(r.to_set() =~= labels.to_set().remove(from));
    assert(labels.contains(from)) by {
        assert(labels[j] == from);
    }
    assert(labels.to_set().contains(from));
}

/// One step keeps the forest invariant, joins the two cells of its edge, and
/// keeps together every pair of cells that was together.
#[verifier::rlimit(40)]
proof fn lemma_step(h: int, w: int, labels: Seq<usize>, cells: Seq<Openings>, e: Edge)
    requires
        0 < h,
        0 < w,
        forest(h, w, labels, cells),
        is_candidate(h, w, e),
    ensures
        forest(h, w, carve_step(h, w, (labels, cells), e).0, carve_step(h, w, (labels, cells), e).1),
        joined(h, w, carve_step(h, w, (labels, cells), e).0, e),
        forall|a: int, b: int|
            0 <= a < h * w && 0 <= b < h * w && labels[a] == labels[b] ==> #[trigger] carve_step(
                h,
                w,
                (labels, cells),
                e,
            ).0[a] == #[trigger] carve_step(h, w, (labels, cells), e).0[b],
{
    let x = e.x as int;
    let y = e.y as int;
    let d = e.dir;
    let n = neighbor_spec(e, h, w)->0;
    let nx = n.0 as int;
    let ny = n.1 as int;
    let c = cell_index(w, x, y);
    let nc = cell_index(w, nx, ny);
    lemma_index_bound(h, w, x, y);
    lemma_index_bound(h, w, nx, ny);
    if d == Direction::N {
        assert(nx == x && ny == y - 1);
        lemma_index_row_above(w, x, y);
        assert(nc == c - w);
    } else {
        assert(nx == x - 1 && ny == y);
        assert(nc == c - 1);
    }
    let l1 = labels[c];
    let l2 = labels[nc];
    if l1 == l2 {
        return;
    }
    let opp = opposite_spec(d);
    let labels2 = relabel(labels, l1, l2);
    let cells1 = cells.update(c, cells[c].with(d));
    let cells2 = cells1.update(nc, cells[nc].with(opp));
    assert(carve_step(h, w, (labels, cells), e) == (labels2, cells2));
    assert forall|k: int| 0 <= k < labels.len() implies #[trigger] labels2[k] == (if labels[k] == l1 {
        l2
    } else {
        labels[k]
    }) by {}

    assert forall|i: int, j: int| 0 <= i < w && 0 <= j < h implies #[trigger] cell_at(w, cells2, i, j)
        == if i == x && j == y {
        cells[c].with(d)
    } else if i == nx && j == ny {
        cells[nc].with(opp)
    } else {
        cell_at(w, cells, i, j)
    } by {
        lemma_index_bound(h, w, i, j);
        if cell_index(w, i, j) == c {
            lemma_index_injective(w, i, j, x, y);
        }
        if cell_index(w, i, j) == nc {
            lemma_index_injective(w, i, j, nx, ny);
        }
    }

    assert(within_bounds(h, w, cells2)) by {
        assert forall|i: int, j: int| 0 <= i < w && 0 <= j < h implies {
            &&& (#[trigger] cell_at(w, cells2, i, j)).north ==> j > 0
            &&& cell_at(w, cells2, i, j).south ==> j + 1 < h
            &&& cell_at(w, cells2, i, j).west ==> i > 0
            &&& cell_at(w, cells2, i, j).east ==> i + 1 < w
        } by {
            let o = cell_at(w, cells, i, j);
            assert(o.north ==> j > 0);
            if i == x && j == y {
                assert(cell_at(w, cells, x, y) == cells[c]);
            } else if i == nx && j == ny {
                assert(cell_at(w, cells, nx, ny) == cells[nc]);
            }
        }
    }

    assert(paired(h, w, cells2)) by {
        assert forall|i: int, j: int| 0 <= i < w && 0 < j < h implies (#[trigger] cell_at(
            w,
            cells2,
            i,
            j,
        )).north == cell_at(w, cells2, i, j - 1).south by {
            assert(cell_at(w, cells, i, j).north == cell_at(w, cells, i, j - 1).south);
        }
        assert forall|i: int, j: int| 0 < i < w && 0 <= j < h implies (#[trigger] cell_at(
            w,
            cells2,
            i,
            j,
        )).west == cell_at(w, cells2, i - 1, j).east by {
            assert(cell_at(w, cells, i, j).west == cell_at(w, cells, i - 1, j).east);
        }
    }

    assert forall|i: int, j: int| 0 <= i < w && 0 <= j < h implies {
        &&& (#[trigger] cell_at(w, cells2, i, j)).north ==> labels2[cell_index(w, i, j)]
            == labels2[cell_index(w, i, j - 1)]
        &&& cell_at(w, cells2, i, j).west ==> labels2[cell_index(w, i, j)]
            == labels2[cell_index(w, i - 1, j)]
    } by {
        let o = cell_at(w, cells, i, j);
        assert(o.north ==> labels[cell_index(w, i, j)] == labels[cell_index(w, i, j - 1)]);
        lemma_index_bound(h, w, i, j);
        if j > 0 {
            lemma_index_bound(h, w, i, j - 1);
        }
        if i > 0 {
            lemma_index_bound(h, w, i - 1, j);
        }
    }

    assert forall|k: int| 0 <= k < cells.len() implies includes(#[trigger] cells2[k], cells[k]) by {}

    assert forall|a: int, b: int|
        0 <= a < h * w && 0 <= b < h * w && #[trigger] labels2[a] == #[trigger] labels2[b]
        implies reachable(w, cells2, a, b) by {
        if labels[a] == labels[b] {
            let p = choose|p: Seq<int>| is_path(w, cells, p, a, b);
            lemma_path_grows(w, cells, cells2, p, a, b);
        } else if labels[a] == l1 {
            let p = choose|p: Seq<int>| is_path(w, cells, p, a, c);
            let q = choose|q: Seq<int>| is_path(w, cells, q, nc, b);
            lemma_path_grows(w, cells, cells2, p, a, c);
            lemma_path_grows(w, cells, cells2, q, nc, b);
            lemma_path_join(w, cells2, p, q, a, c, nc, b);
        } else {
            let p = choose|p: Seq<int>| is_path(w, cells, p, a, nc);
            let q = choose|q: Seq<int>| is_path(w, cells, q, c, b);
            lemma_path_grows(w, cells, cells2, p, a, nc);
            lemma_path_grows(w, cells, cells2, q, c, b);
            lemma_path_join(w, cells2, p, q, a, nc, c, b);
        }
    }

    assert(cell_at(w, cells, x, y) == cells[c]);
    lemma_count_update(cells, c, cells[c].with(d));
    lemma_count_update(cells1, nc, cells[nc].with(opp));
    lemma_relabel_set(labels, l1, l2, c, nc);
}

/// Before any edge is considered every cell is its own component.
proof fn lemma_initial(h: int, w: int)
    requires
        0 < h,
        0 < w,
        h * w <= usize::MAX,
    ensures
        forest(h, w, initial_labels(h * w), initial_cells(h * w)),
{
    let n = h * w;
    let labels = initial_labels(n);
    let cells = initial_cells(n);
    assert forall|i: int, j: int| 0 <= i < w && 0 <= j < h implies #[trigger] cell_at(w, cells, i, j)
        == Openings::none_spec() by {
        lemma_index_bound(h, w, i, j);
    }
    assert forall|a: int, b: int|
        0 <= a < n && 0 <= b < n && #[trigger] labels[a] == #[trigger] labels[b] implies reachable(
        w,
        cells,
        a,
        b,
    ) by {
        let p = seq![a];
        assert(is_path(w, cells, p, a, b));
    }
    assert(labels.no_duplicates());
    labels.unique_seq_to_set();
    lemma_count_initial(n);
}

/// The forest invariant holds after any run over candidate edges, and the two
/// cells of every edge considered share a component.
proof fn lemma_run(h: int, w: int, es: Seq<Edge>)
    requires
        0 < h,
        0 < w,
        h * w <= usize::MAX,
        forall|k: int| 0 <= k < es.len() ==> is_candidate(h, w, #[trigger] es[k]),
    ensures
        forest(h, w, carve_run(h, w, es).0, carve_run(h, w, es).1),
        forall|k: int| 0 <= k < es.len() ==> joined(h, w, carve_run(h, w, es).0, #[trigger] es[k]),
    decreases es.len(),
{
    if es.len() == 0 {
        lemma_initial(h, w);
    } else {
        let prev = es.drop_last();
        let st = carve_run(h, w, prev);
        assert forall|k: int| 0 <= k < prev.len() implies is_candidate(h, w, #[trigger] prev[k]) by {
            assert(prev[k] == es[k]);
        }
        lemma_run(h, w, prev);
        lemma_step(h, w, st.0, st.1, es.last());
        let st2 = carve_run(h, w, es);
        assert forall|k: int| 0 <= k < es.len() implies joined(h, w, st2.0, #[trigger] es[k]) by {
            if k < es.len() - 1 {
                let e = es[k];
                assert(prev[k] == e);
                assert(joined(h, w, st.0, prev[k]));
                assert(is_candidate(h, w, e));
                let n = neighbor_spec(e, h, w)->0;
                lemma_index_bound(h, w, e.x as int, e.y as int);
                lemma_index_bound(h, w, n.0 as int, n.1 as int);
            }
        }
    }
}

/// Where every candidate edge was considered, every cell shares the
/// component of cell 0.
proof fn lemma_all_joined(h: int, w: int, labels: Seq<usize>, es: Seq<Edge>, x: int, y: int)
    requires
        0 < h,
        0 < w,
        labels.len() == h * w,
        0 <= x < w <= usize::MAX,
        0 <= y < h <= usize::MAX,
        has_all_candidates(h, w, es),
        forall|k: int| 0 <= k < es.len() ==> joined(h, w, labels, #[trigger] es[k]),
    ensures
        labels[cell_index(w, x, y)] == labels[0],
    decreases y, x,
{
    if x > 0 {
        let e = west_edge(x as usize, y as usize);
        assert(es.contains(e));
        let k = choose|k: int| 0 <= k < es.len() && es[k] == e;
        assert(joined(h, w, labels, es[k]));
        assert(neighbor_spec(e, h, w) == Some(((x - 1) as usize, y as usize)));
        lemma_all_joined(h, w, labels, es, x - 1, y);
    } else if y > 0 {
        let e = north_edge(x as usize, y as usize);
        assert(es.contains(e));
        let k = choose|k: int| 0 <= k < es.len() && es[k] == e;
        assert(joined(h, w, labels, es[k]));
        assert(neighbor_spec(e, h, w) == Some((x as usize, (y - 1) as usize)));
        lemma_all_joined(h, w, labels, es, x, y - 1);
    } else {
        assert(cell_index(w, x, y) == 0) by (nonlinear_arith)
            requires
                x == 0,
                y == 0,
        ;
    }
}

/// Bounded and paired openings are symmetric.
proof fn lemma_symmetric(h: int, w: int, cells: Seq<Openings>)
    requires
        h <= usize::MAX,
        w <= usize::MAX,
        within_bounds(h, w, cells),
        paired(h, w, cells),
    ensures
        symmetric(h, w, cells),
{
    assert forall|x: usize, y: usize, d: Direction|
        x < w && y < h && (#[trigger] cell_at(w, cells, x as int, y as int).has(d))
            && neighbor_spec(Edge { x, y, dir: d }, h, w) is Some implies {
        let n = neighbor_spec(Edge { x, y, dir: d }, h, w)->0;
        cell_at(w, cells, n.0 as int, n.1 as int).has(opposite_spec(d))
    } by {
        let xi = x as int;
        let yi = y as int;
        let n = neighbor_spec(Edge { x, y, dir: d }, h, w)->0;
        match d {
            Direction::N => {
                assert(n.0 as int == xi && n.1 as int == yi - 1);
                assert(cell_at(w, cells, xi, yi).north == cell_at(w, cells, xi, yi - 1).south);
            },
            Direction::S => {
                assert(n.0 as int == xi && n.1 as int == yi + 1);
                assert(cell_at(w, cells, xi, yi + 1).north == cell_at(w, cells, xi, yi).south);
            },
            Direction::W => {
                assert(n.0 as int == xi - 1 && n.1 as int == yi);
                assert(cell_at(w, cells, xi, yi).west == cell_at(w, cells, xi - 1, yi).east);
            },
            Direction::E => {
                assert(n.0 as int == xi + 1 && n.1 as int == yi);
                assert(cell_at(w, cells, xi + 1, yi).west == cell_at(w, cells, xi, yi).east);
            },
        }
    }
}

/// Considering every candidate edge of an `h` by `w` grid, in any order,
/// carves a perfect maze: its passages form a spanning tree, and where the
/// grid has more than one cell no cell is left without an opening.
pub proof fn lemma_carved_maze_is_perfect(h: int, w: int, es: Seq<Edge>)
    requires
        0 < h,
        0 < w,
        h * w <= usize::MAX,
        forall|k: int| 0 <= k < es.len() ==> is_candidate(h, w, #[trigger] es[k]),
        has_all_candidates(h, w, es),
    ensures
        is_perfect_maze(h, w, carved_maze(h, w, es)),
        h * w > 1 ==> no_isolated_cell(h, w, carved_maze(h, w, es)),
{
    broadcast use vstd::seq_lib::seq_to_set_is_finite;

    lemma_run(h, w, es);
    let labels = carve_run(h, w, es).0;
    let cells = carve_run(h, w, es).1;
    let n = h * w;
    assert(0 < n && h <= n && w <= n) by (nonlinear_arith)
        requires
            0 < h,
            0 < w,
            n == h * w,
    ;
    assert forall|i: int| 0 <= i < n implies #[trigger] labels[i] == labels[0] by {
        let (x, y) = lemma_index_decompose(h, w, i);
        lemma_all_joined(h, w, labels, es, x, y);
    }
    assert(labels.to_set() =~= set![labels[0]]) by {
        assert forall|v: usize| labels.to_set().contains(v) == set![labels[0]].contains(v) by {
            if labels.contains(v) {
                let k = choose|k: int| 0 <= k < labels.len() && labels[k] == v;
            }
            if v == labels[0] {
                assert(labels[0] == v);
            }
        }
    }
    assert(labels.to_set().len() == 1);
    assert(connected(h, w, cells)) by {
        assert forall|a: int, b: int| 0 <= a < n && 0 <= b < n implies #[trigger] reachable(
            w,
            cells,
            a,
            b,
        ) by {
            assert(labels[a] == labels[b]);
        }
    }
    lemma_symmetric(h, w, cells);
    if n > 1 {
        assert forall|x: int, y: int| 0 <= x < w && 0 <= y < h implies !(#[trigger] cell_at(
            w,
            cells,
            x,
            y,
        )).is_empty_spec() by {
            lemma_index_bound(h, w, x, y);
            let a = cell_index(w, x, y);
            let b = if a == 0 {
                1int
            } else {
                0int
            };
            assert(reachable(w, cells, a, b));
            let p = choose|p: Seq<int>| is_path(w, cells, p, a, b);
            assert(walk_step(w, cells, p, 0));
        }
    }
}

/// Gives every cell of an `height` by `width` grid its own component label:
/// cell `(i, j)` gets `i + j * width`, its index.
pub fn fill_sets(sets: &mut Vec<usize>, height: usize, width: usize)
    requires
        old(sets).len() == height * width,
    ensures
        final(sets)@ == initial_labels(height * width),
{
    let ghost n = height * width;
    proof {
        lemma_index_bound_all(height as int, width as int);
    }
    for i in 0..width
        invariant
            sets.len() == n,
            n == height * width,
            forall|a: int, b: int|
                0 <= a < i && 0 <= b < height ==> sets[#[trigger] cell_index(width as int, a, b)]
                    == cell_index(width as int, a, b),
    {
        for j in 0..height
            invariant
                i < width,
                sets.len() == n,
                n == height * width,
                forall|a: int, b: int|
                    0 <= a < i && 0 <= b < height ==> sets[#[trigger] cell_index(width as int, a, b)]
                        == cell_index(width as int, a, b),
                forall|b: int| 0 <= b < j ==> sets[#[trigger] cell_index(width as int, i as int, b)]
                    == cell_index(width as int, i as int, b),
        {
            proof {
                lemma_index_bound_all(height as int, width as int);
                lemma_index_bound(height as int, width as int, i as int, j as int);
                assert forall|a: int, b: int|
                    0 <= a < width && 0 <= b < height && cell_index(width as int, a, b)
                        == cell_index(width as int, i as int, j as int) implies a == i && b == j by {
                    lemma_index_injective(width as int, a, b, i as int, j as int);
                }
            }
            sets.set(i + j * width, i + j * width);
        }
    }
    proof {
        assert forall|k: int| 0 <= k < n implies sets[k] == k as usize by {
            let (a, b) = lemma_index_decompose(height as int, width as int, k);
        }
        assert(sets@ =~= initial_labels(n));
    }
}

/// Carves a maze in an `height` by `width` grid by considering `edges` in
/// order: an edge whose two cells lie in different components is opened from
/// both sides, and every cell of the first component moves into the second;
/// an edge whose cells already share a component is skipped.
pub fn carve_maze(height: usize, width: usize, edges: &Vec<Edge>) -> (r: Maze)
    requires
        height * width <= usize::MAX,
        forall|k: int| 0 <= k < edges.len() ==> is_candidate(height as int, width as int, #[trigger] edges[k]),
    ensures
        r.height == height,
        r.width == width,
        r.well_formed(),
        r.cells@ == carved_maze(height as int, width as int, edges@),
        0 < height && 0 < width && has_all_candidates(height as int, width as int, edges@)
            ==> is_perfect_maze(height as int, width as int, r.cells@),
{
    let n: usize = height * width;
    let mut cells: Vec<Openings> = Vec::new();
    let mut sets: Vec<usize> = Vec::new();
    for k in 0..n
        invariant
            cells@ == initial_cells(k as int),
            sets.len() == k,
    {
        cells.push(Openings::closed());
        sets.push(0);
        proof {
            assert(cells@ =~= initial_cells(k + 1));
        }
    }
    fill_sets(&mut sets, height, width);
    for i in 0..edges.len()
        invariant
            n == height * width,
            sets.len() == n,
            cells.len() == n,
            (sets@, cells@) == carve_run(height as int, width as int, edges@.take(i as int)),
            forall|k: int| 0 <= k < edges.len() ==> is_candidate(height as int, width as int, #[trigger] edges[k]),
    {
        let e = edges[i];
        proof {
            assert(edges@.take(i + 1).drop_last() =~= edges@.take(i as int));
            assert(edges@.take(i + 1).last() == e);
            assert(is_candidate(height as int, width as int, edges[i as int]));
        }
        match e.neighbor(height, width) {
            Some((nx, ny)) => {
                proof {
                    lemma_index_bound(height as int, width as int, e.x as int, e.y as int);
                    lemma_index_bound(height as int, width as int, nx as int, ny as int);
                    if e.y * width + e.x == ny * width + nx {
                        lemma_index_injective(width as int, e.x as int, e.y as int, nx as int, ny as int);
                    }
                }
                let c = e.y * width + e.x;
                let nc = ny * width + nx;
                let set1 = sets[c];
                let set2 = sets[nc];
                if set1 != set2 {
                    let ghost before = sets@;
                    for k in 0..n
                        invariant
                            sets.len() == n,
                            before.len() == n,
                            forall|j: int| 0 <= j < k ==> #[trigger] sets[j] == (if before[j] == set1 {
                                set2
                            } else {
                                before[j]
                            }),
                            forall|j: int| k <= j < n ==> #[trigger] sets[j] == before[j],
                    {
                        if sets[k] == set1 {
                            sets.set(k, set2);
                        }
                    }
                    proof {
                        assert(sets@ =~= relabel(before, set1, set2));
                    }
                    let mut here = cells[c];
                    here.insert(e.dir);
                    cells.set(c, here);
                    let mut there = cells[nc];
                    there.insert(opposite(e.dir));
                    cells.set(nc, there);
                }
            },
            None => {},
        }
    }
    proof {
        assert(edges@.take(edges.len() as int) =~= edges@);
        if 0 < height && 0 < width && has_all_candidates(height as int, width as int, edges@) {
            lemma_carved_maze_is_perfect(height as int, width as int, edges@);
        }
    }
    Maze { height, width, cells }
}

} // verus!
