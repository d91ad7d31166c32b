//! Which discretized topological edges a mesh draws. An edge comes as a flat
//! list of coordinates, three per point; edges of fewer than two points are
//! skipped, and a separator stands between consecutive drawn edges.
use vstd::prelude::*;

verus! {

/// An edge of `len` coordinates has at least two points.
pub open spec fn is_drawable_edge(len: usize) -> bool {
    len >= 6
}

/// The positions of the drawable edges among edges with `lengths`
/// coordinates each, in order. Drawn edges each contribute at least two
/// points, so a separator goes before every drawn edge but the first.
pub fn drawable_edges(lengths: &Vec<usize>) -> (drawn: Vec<usize>)
    ensures
        forall|a: int, b: int| 0 <= a < b < drawn@.len() ==> drawn@[a] < drawn@[b],
        forall|a: int|
            0 <= a < drawn@.len() ==> #[trigger] drawn@[a] < lengths@.len() && is_drawable_edge(
                lengths@[drawn@[a] as int],
            ),
        forall|i: int|
            0 <= i < lengths@.len() && is_drawable_edge(#[trigger] lengths@[i]) ==> drawn@.contains(
                i as usize,
            ),
        forall|a: int|
            0 <= a < drawn@.len() ==> #[trigger] drawn@[a] < lengths@.len() && lengths@[drawn@[a] as int] >= 6,
        forall|i: int|
            0 <= i < lengths@.len() && #[trigger] lengths@[i] >= 6 ==> drawn@.contains(
                i as usize,
            ),
{
    let mut drawn: Vec<usize> = Vec::new();
    let mut i: usize = 0;
    while i < lengths.len()
        invariant
            i <= lengths@.len(),
            forall|a: int, b: int| 0 <= a < b < drawn@.len() ==> drawn@[a] < drawn@[b],
            forall|a: int|
                0 <= a < drawn@.len() ==> #[trigger] drawn@[a] < i && is_drawable_edge(
                    lengths@[drawn@[a] as int],
                ),
            forall|j: int| 0 <= j < i && is_drawable_edge(#[trigger] lengths@[j]) ==> drawn@.contains(j as usize),
        decreases lengths.len() - i,
    {
        if lengths[i] >= 6 {
            let ghost before = drawn@;
            drawn.push(i);
            proof {
                assert(drawn@[before.len() as int] == i);
                assert forall|j: int| 0 <= j < i + 1 && is_drawable_edge(#[trigger] lengths@[j]) implies drawn@.contains(
                    j as usize,
                ) by {
                    if j < i {
                        let a = choose|a: int| 0 <= a < before.len() && before[a] == j as usize;
                        assert(drawn@[a] == j as usize);
                    }
                }
            }
        }
        i = i + 1;
    }
    drawn
}

/// An edge is drawable exactly when its coordinates make at least two whole
/// points, whatever its length beyond that.
pub proof fn lemma_drawable_means_two_points(len: usize)
    ensures
        is_drawable_edge(len) <==> len / 3 >= 2,
{
}

} // verus!
