use vstd::prelude::*;

use crate::carve::{carve_maze, carved_maze, lemma_carved_maze_is_perfect};
use crate::edge::{Edge, candidate_edges, has_all_candidates, is_candidate, north_edge, west_edge};
use crate::maze::{Maze, is_perfect_maze, no_isolated_cell};

verus! {

#[verifier::external_type_specification]
#[verifier::external_body]
pub struct ExStdRng(rand::rngs::StdRng);

/// Relies on rand's `SliceRandom::shuffle`: it permutes the slice in place
/// by swapping elements, so the same edges come out, each as often as before.
#[verifier::external_body]
fn shuffle_edges(edges: &mut Vec<Edge>, rng: &mut rand::rngs::StdRng)
    ensures
        final(edges)@.to_multiset() == old(edges)@.to_multiset(),
{
    rand::seq::SliceRandom::shuffle(edges.as_mut_slice(), rng);
}

/// A reordering of the candidate edges of an `h` by `w` grid holds only
/// candidates, and all of them.
proof fn lemma_permuted_candidates(h: int, w: int, s1: Seq<Edge>, s2: Seq<Edge>)
    requires
        s1.to_multiset() == s2.to_multiset(),
        forall|k: int| 0 <= k < s1.len() ==> is_candidate(h, w, #[trigger] s1[k]),
        has_all_candidates(h, w, s1),
    ensures
        forall|k: int| 0 <= k < s2.len() ==> is_candidate(h, w, #[trigger] s2[k]),
        has_all_candidates(h, w, s2),
{
    assert forall|a: Edge| s1.contains(a) == s2.contains(a) by {
        vstd::seq_lib::to_multiset_contains(s1, a);
        vstd::seq_lib::to_multiset_contains(s2, a);
    }
    assert forall|k: int| 0 <= k < s2.len() implies is_candidate(h, w, #[trigger] s2[k]) by {
        assert(s2.contains(s2[k]));
        let j = choose|j: int| 0 <= j < s1.len() && s1[j] == s2[k];
    }
    assert forall|x: usize, y: usize| x < w && 0 < y < h implies #[trigger] s2.contains(
        north_edge(x, y),
    ) by {
        assert(s1.contains(north_edge(x, y)));
    }
    assert forall|x: usize, y: usize| 0 < x < w && y < h implies #[trigger] s2.contains(
        west_edge(x, y),
    ) by {
        assert(s1.contains(west_edge(x, y)));
    }
}

/// Generates a random perfect maze of `height` rows and `width` columns,
/// drawing the order of the edges from `rng`: every cell is reachable from
/// every other by exactly one path.
pub fn generate_maze(height: usize, width: usize, rng: &mut rand::rngs::StdRng) -> (r: Maze)
    requires
        0 < height,
        0 < width,
        height * width <= usize::MAX,
    ensures
        r.height == height,
        r.width == width,
        is_perfect_maze(height as int, width as int, r.cells@),
        height * width > 1 ==> no_isolated_cell(height as int, width as int, r.cells@),
{
    let mut edges = candidate_edges(height, width);
    let ghost listed = edges@;
    shuffle_edges(&mut edges, rng);
    proof {
        lemma_permuted_candidates(height as int, width as int, listed, edges@);
        lemma_carved_maze_is_perfect(height as int, width as int, edges@);
    }
    carve_maze(height, width, &edges)
}

/// Carving is determined by the grid's size and the order of the edges:
/// the same order gives the same maze.
pub proof fn lemma_carving_deterministic(h: int, w: int, e1: Seq<Edge>, e2: Seq<Edge>)
    requires
        e1 == e2,
    ensures
        carved_maze(h, w, e1) == carved_maze(h, w, e2),
{
}

} // verus!
