//! Colours as the kernel's STEP reader and writer exchange them: a column of
//! kernel ids and a column of channels, three per id.
use crate::trailer::Color;
use std::collections::HashMap;
use vstd::prelude::*;

verus! {

/// The colour held by channels `rgb[3i..3i + 3]`.
pub open spec fn column_color(rgb: Seq<u32>, i: int) -> Color {
    Color { r: rgb[3 * i], g: rgb[3 * i + 1], b: rgb[3 * i + 2] }
}

/// The number of (id, colour) pairs the columns hold: ids pair with complete
/// channel triples until either column runs out.
pub open spec fn column_pairs(ids: Seq<u64>, rgb: Seq<u32>) -> int {
    if ids.len() <= rgb.len() / 3 {
        ids.len() as int
    } else {
        (rgb.len() / 3) as int
    }
}

/// The colours of the first `n` pairs; a later pair for the same id wins.
pub open spec fn colors_of_columns_upto(ids: Seq<u64>, rgb: Seq<u32>, n: int) -> Map<u64, Color>
    decreases n,
{
    if n <= 0 {
        Map::empty()
    } else {
        colors_of_columns_upto(ids, rgb, n - 1).insert(ids[n - 1], column_color(rgb, n - 1))
    }
}

/// The colour map the columns describe.
pub open spec fn colors_of_columns(ids: Seq<u64>, rgb: Seq<u32>) -> Map<u64, Color> {
    colors_of_columns_upto(ids, rgb, column_pairs(ids, rgb))
}

/// Builds the colour map from the reader's id and channel columns.
pub fn colors_from_columns(ids: &Vec<u64>, rgb: &Vec<u32>) -> (colormap: HashMap<u64, Color>)
    ensures
        colormap@ == colors_of_columns(ids@, rgb@),
        forall|id: u64| colormap@.contains_key(id) <==> exists|i: int| #[trigger] paired_at(ids@, rgb@, id, i),
        forall|id: u64, i: int|
            #[trigger] paired_at(ids@, rgb@, id, i) && (forall|m: int| i < m ==> !paired_at(ids@, rgb@, id, m))
                ==> colormap@[id] == (Color { r: rgb@[3 * i], g: rgb@[3 * i + 1], b: rgb@[3 * i + 2] }),
{
    broadcast use vstd::std_specs::hash::group_hash_axioms;

    let pairs = if ids.len() <= rgb.len() / 3 {
        ids.len()
    } else {
        rgb.len() / 3
    };
    let mut colormap: HashMap<u64, Color> = HashMap::new();
    let mut i: usize = 0;
    while i < pairs
        invariant
            i <= pairs,
            pairs == column_pairs(ids@, rgb@),
            pairs <= ids@.len(),
            3 * pairs <= rgb.len(),
            colormap@ == colors_of_columns_upto(ids@, rgb@, i as int),
        decreases pairs - i,
    {
        let color = Color { r: rgb[3 * i], g: rgb[3 * i + 1], b: rgb[3 * i + 2] };
        colormap.insert(ids[i], color);
        i = i + 1;
    }
    proof {
        assert forall|id: u64| colormap@.contains_key(id) <==> exists|i: int| #[trigger] paired_at(ids@, rgb@, id, i) by {
            lemma_columns_meaning(ids@, rgb@, id);
        }
        assert forall|id: u64, i: int|
            #[trigger] paired_at(ids@, rgb@, id, i) && (forall|m: int| i < m ==> !paired_at(ids@, rgb@, id, m))
                implies colormap@[id] == (Color { r: rgb@[3 * i], g: rgb@[3 * i + 1], b: rgb@[3 * i + 2] }) by {
            lemma_columns_meaning(ids@, rgb@, id);
        }
    }
    colormap
}

/// `ids` and `rgb` are columns for `colormap`: every key once, each with its
/// colour's three channels.
pub open spec fn are_columns_of(ids: Seq<u64>, rgb: Seq<u32>, colormap: Map<u64, Color>) -> bool {
    &&& rgb.len() == 3 * ids.len()
    &&& ids.no_duplicates()
    &&& ids.to_set() == colormap.dom()
    &&& forall|i: int| 0 <= i < ids.len() ==> colormap[#[trigger] ids[i]] == column_color(rgb, i)
}

/// Splits a colour map into the writer's id column and channel column, three
/// channels per id, in the map's iteration order.
pub fn color_columns(colormap: &HashMap<u64, Color>) -> (columns: (Vec<u64>, Vec<u32>))
    ensures
        are_columns_of(columns.0@, columns.1@, colormap@),
        columns.1@.len() == 3 * columns.0@.len(),
        forall|i: int|
            0 <= i < columns.0@.len() ==> colormap@.contains_key(#[trigger] columns.0@[i]) && colormap@[columns.0@[i]]
                == (Color { r: columns.1@[3 * i], g: columns.1@[3 * i + 1], b: columns.1@[3 * i + 2] }),
        forall|id: u64| #[trigger] colormap@.contains_key(id) ==> columns.0@.contains(id),
        forall|i: int, j: int| 0 <= i < j < columns.0@.len() ==> columns.0@[i] != columns.0@[j],
{
    broadcast use vstd::std_specs::hash::group_hash_axioms;

    let mut ids: Vec<u64> = Vec::new();
    let mut rgb: Vec<u32> = Vec::new();
    for entry in it: colormap.iter()
        invariant
            ids@.len() == it.index@,
            it.seq().no_duplicates(),
            rgb@.len() == 3 * ids@.len(),
            ids@.no_duplicates(),
            forall|i: int| 0 <= i < ids@.len() ==> #[trigger] ids@[i] == *it.seq()[i].0,
            forall|i: int|
                0 <= i < ids@.len() ==> colormap@.contains_key(#[trigger] ids@[i]) && colormap@[ids@[i]]
                    == column_color(rgb@, i),
            forall|k: u64|
                #[trigger] colormap@.contains_key(k) ==> ids@.contains(k) || exists|i: int|
                    it.index@ <= i < it.seq().len() && *it.seq()[i].0 == k,
    {
        let (id, color) = entry;
        proof {
            let seq = it.seq();
            let n = ids@.len() as int;
            assert(colormap@.contains_key(*seq[n].0));
            assert forall|i: int| 0 <= i < n implies ids@[i] != *id by {
                assert(colormap@.contains_key(*seq[i].0));
                if ids@[i] == *id {
                    assert(seq[i] == seq[n]);
                }
            }
        }
        let ghost before = ids@;
        ids.push(*id);
        rgb.push(color.r);
        rgb.push(color.g);
        rgb.push(color.b);
        proof {
            assert forall|i: int, j: int| 0 <= i < j < ids@.len() implies ids@[i] != ids@[j] by {
                if j < before.len() {
                    assert(before[i] != before[j]);
                }
            }
            assert forall|k: u64| #[trigger] colormap@.contains_key(k) implies ids@.contains(k) || exists|i: int|
                it.index@ + 1 <= i < it.seq().len() && *it.seq()[i].0 == k by {
                if before.contains(k) {
                    let i = choose|i: int| 0 <= i < before.len() && before[i] == k;
                    assert(ids@[i] == k);
                } else if k == *id {
                    assert(ids@[before.len() as int] == k);
                }
            }
        }
    }
    assert(ids@.to_set() =~= colormap@.dom());
    assert forall|id: u64| #[trigger] colormap@.contains_key(id) implies ids@.contains(id) by {
        assert(ids@.to_set().contains(id));
    }
    (ids, rgb)
}


/// Pair `i` of the columns exists and holds kernel id `id`.
pub open spec fn paired_at(ids: Seq<u64>, rgb: Seq<u32>, id: u64, i: int) -> bool {
    0 <= i < ids.len() && 3 * i + 3 <= rgb.len() && ids[i] == id
}

#[verifier::spinoff_prover]
proof fn lemma_columns_upto_meaning(ids: Seq<u64>, rgb: Seq<u32>, n: int, id: u64)
    requires
        0 <= n <= column_pairs(ids, rgb),
    ensures
        colors_of_columns_upto(ids, rgb, n).contains_key(id) <==> exists|i: int|
            i < n && #[trigger] paired_at(ids, rgb, id, i),
        forall|i: int|
            i < n && #[trigger] paired_at(ids, rgb, id, i) && (forall|m: int| i < m < n ==> !paired_at(ids, rgb, id, m))
                ==> colors_of_columns_upto(ids, rgb, n)[id] == (Color { r: rgb[3 * i], g: rgb[3 * i + 1], b: rgb[3 * i + 2] }),
    decreases n,
{
    if n > 0 {
        lemma_columns_upto_meaning(ids, rgb, n - 1, id);
        let i = n - 1;
        let prev = colors_of_columns_upto(ids, rgb, n - 1);
        let cur = colors_of_columns_upto(ids, rgb, n);
        assert(cur == prev.insert(ids[i], column_color(rgb, i)));
        if ids[i] == id {
            assert(paired_at(ids, rgb, id, i));
            assert forall|j: int|
                j < n && #[trigger] paired_at(ids, rgb, id, j) && (forall|m: int| j < m < n ==> !paired_at(ids, rgb, id, m))
                    implies cur[id] == (Color { r: rgb[3 * j], g: rgb[3 * j + 1], b: rgb[3 * j + 2] }) by {
                if j < i {
                    assert(!paired_at(ids, rgb, id, i));
                }
            }
        } else {
            if exists|j: int| j < n && #[trigger] paired_at(ids, rgb, id, j) {
                let j = choose|j: int| j < n && #[trigger] paired_at(ids, rgb, id, j);
                assert(j < i);
            }
        }
    }
}

/// The colours read from columns: an id has a colour exactly when some
/// complete pair holds it, and then the channels of the last such pair.
pub proof fn lemma_columns_meaning(ids: Seq<u64>, rgb: Seq<u32>, id: u64)
    ensures
        colors_of_columns(ids, rgb).contains_key(id) <==> exists|i: int| #[trigger] paired_at(ids, rgb, id, i),
        forall|i: int|
            #[trigger] paired_at(ids, rgb, id, i) && (forall|m: int| i < m ==> !paired_at(ids, rgb, id, m))
                ==> colors_of_columns(ids, rgb)[id] == (Color { r: rgb[3 * i], g: rgb[3 * i + 1], b: rgb[3 * i + 2] }),
{
    let n = column_pairs(ids, rgb);
    lemma_columns_upto_meaning(ids, rgb, n, id);
    assert forall|i: int| #[trigger] paired_at(ids, rgb, id, i) implies i < n by {}
}

proof fn lemma_columns_prefix(ids: Seq<u64>, rgb: Seq<u32>, colormap: Map<u64, Color>, n: int)
    requires
        are_columns_of(ids, rgb, colormap),
        0 <= n <= ids.len(),
    ensures
        colors_of_columns_upto(ids, rgb, n) == colormap.restrict(ids.take(n).to_set()),
    decreases n,
{
    if n == 0 {
        assert(colormap.restrict(ids.take(0).to_set()) =~= Map::empty());
    } else {
        lemma_columns_prefix(ids, rgb, colormap, n - 1);
        let i = n - 1;
        assert(ids.take(n) =~= ids.take(i).push(ids[i]));
        assert(ids.to_set().contains(ids[i]));
        assert forall|x: u64| ids.take(n).to_set().contains(x) <==> ids.take(i).to_set().contains(x) || x == ids[i] by {
            if ids.take(n).contains(x) && x != ids[i] {
                let k = choose|k: int| 0 <= k < ids.take(n).len() && ids.take(n)[k] == x;
                assert(ids.take(i)[k] == x);
            }
            if ids.take(i).contains(x) {
                let k = choose|k: int| 0 <= k < ids.take(i).len() && ids.take(i)[k] == x;
                assert(ids.take(n)[k] == x);
            }
            if x == ids[i] {
                assert(ids.take(n)[i] == x);
            }
        }
        assert(colors_of_columns_upto(ids, rgb, n) =~= colormap.restrict(ids.take(n).to_set()));
    }
}

/// A colour map split into columns reads back as the same map.
pub proof fn lemma_color_columns_roundtrip(ids: Seq<u64>, rgb: Seq<u32>, colormap: Map<u64, Color>)
    requires
        are_columns_of(ids, rgb, colormap),
    ensures
        colors_of_columns(ids, rgb) == colormap,
{
    lemma_columns_prefix(ids, rgb, colormap, ids.len() as int);
    assert(ids.take(ids.len() as int) =~= ids);
    assert(colormap.restrict(ids.to_set()) =~= colormap);
}

} // verus!
