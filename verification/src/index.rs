use std::collections::HashMap;
use vstd::prelude::*;

verus! {

/// Position of the last occurrence of `id` in `ids`, or -1 when it does not occur.
///
/// Building a hash map from `(id, position)` pairs in order keeps, for each
/// id, exactly this position.
pub open spec fn last_index_of(ids: Seq<u64>, id: u64) -> int
    decreases ids.len(),
{
    if ids.len() == 0 {
        -1
    } else if ids.last() == id {
        ids.len() - 1
    } else {
        last_index_of(ids.drop_last(), id)
    }
}

/// What the last position of an id is.
pub proof fn lemma_last_index_of(ids: Seq<u64>, id: u64)
    ensures
        -1 <= last_index_of(ids, id) < ids.len(),
        last_index_of(ids, id) >= 0 <==> ids.contains(id),
        last_index_of(ids, id) >= 0 ==> ids[last_index_of(ids, id)] == id,
        forall|j: int| last_index_of(ids, id) < j < ids.len() ==> ids[j] != id,
    decreases ids.len(),
{
    if ids.len() > 0 {
        lemma_last_index_of(ids.drop_last(), id);
        if ids.last() != id {
            if ids.drop_last().contains(id) {
                let k = choose|k: int| 0 <= k < ids.drop_last().len() && ids.drop_last()[k] == id;
                assert(ids[k] == id);
            }
            if ids.contains(id) {
                let k = choose|k: int| 0 <= k < ids.len() && ids[k] == id;
                assert(ids.drop_last()[k] == id);
            }
            assert forall|j: int| last_index_of(ids, id) < j < ids.len() implies ids[j] != id by {
                if j < ids.len() - 1 {
                    assert(ids[j] == ids.drop_last()[j]);
                }
            }
        } else {
            assert(ids[ids.len() - 1] == id);
        }
    }
}

/// Appending one id moves only that id's last position.
pub proof fn lemma_last_index_of_push(ids: Seq<u64>, x: u64, id: u64)
    ensures
        last_index_of(ids.push(x), id) == if x == id {
            ids.len() as int
        } else {
            last_index_of(ids, id)
        },
{
    assert(ids.push(x).drop_last() =~= ids);
}

/// Maps each id to the position of its last occurrence, as collecting
/// `(id, position)` pairs in order into a hash map does.
pub(crate) fn last_positions(ids: &Vec<u64>) -> (positions: HashMap<u64, usize>)
    ensures
        forall|id: u64| #[trigger] positions@.contains_key(id) <==> last_index_of(ids@, id) >= 0,
        forall|id: u64| #[trigger]
            positions@.contains_key(id) ==> positions@[id] as int == last_index_of(ids@, id),
{
    broadcast use vstd::std_specs::hash::group_hash_axioms;

    let mut positions: HashMap<u64, usize> = HashMap::new();
    let mut i: usize = 0;
    while i < ids.len()
        invariant
            i <= ids@.len(),
            forall|id: u64| #[trigger]
                positions@.contains_key(id) <==> last_index_of(ids@.take(i as int), id) >= 0,
            forall|id: u64| #[trigger]
                positions@.contains_key(id) ==> positions@[id] as int == last_index_of(
                    ids@.take(i as int),
                    id,
                ),
        decreases ids.len() - i,
    {
        let id = ids[i];
        proof {
            assert(ids@.take(i + 1) =~= ids@.take(i as int).push(id));
            assert forall|x: u64| true implies last_index_of(ids@.take(i + 1), x) == if x == id {
                i as int
            } else {
                last_index_of(ids@.take(i as int), x)
            } by {
                lemma_last_index_of_push(ids@.take(i as int), id, x);
            }
        }
        positions.insert(id, i);
        i = i + 1;
    }
    assert(ids@.take(ids@.len() as int) =~= ids@);
    positions
}

} // verus!
