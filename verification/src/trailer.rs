//! The colour trailer appended past a BRep payload, which the BRep parser
//! stops at and ignores:
//! `[b"CDCL"][u32 count][count x (u32 trailer index, f32 r, f32 g, f32 b)]`,
//! all little-endian.
use crate::index::{last_index_of, last_positions, lemma_last_index_of};
use std::collections::HashMap;
use vstd::prelude::*;

verus! {

/// A display colour, each channel held as the IEEE-754 bit pattern of its
/// `f32` value exactly as the trailer stores it.
#[derive(Clone, Copy, Debug, PartialEq, Eq, Hash, Structural)]
pub struct Color {
    pub r: u32,
    pub g: u32,
    pub b: u32,
}

/// The four magic bytes `CDCL` that open a trailer.
pub open spec fn trailer_magic() -> Seq<u8> {
    seq![0x43u8, 0x44u8, 0x43u8, 0x4cu8]
}

/// The little-endian `u32` stored at `s[at..at + 4]`.
pub open spec fn u32_le(s: Seq<u8>, at: int) -> u32 {
    (s[at] as int + s[at + 1] as int * 0x100 + s[at + 2] as int * 0x1_0000 + s[at + 3] as int
        * 0x100_0000) as u32
}

/// The entry count announced by a trailer header.
pub open spec fn trailer_count(tail: Seq<u8>) -> int {
    u32_le(tail, 4) as int
}

/// `tail` starts with a complete trailer: magic, count, and at least as many
/// 16-byte entries as the count announces. Bytes past the last entry are
/// allowed.
pub open spec fn is_color_trailer(tail: Seq<u8>) -> bool {
    &&& tail.len() >= 8
    &&& tail.take(4) == trailer_magic()
    &&& tail.len() >= 8 + 16 * trailer_count(tail)
}

/// Entry `k` of a trailer: a trailer index and a colour.
pub open spec fn trailer_entry(tail: Seq<u8>, k: int) -> (u32, Color) {
    let at = 8 + 16 * k;
    (u32_le(tail, at), Color { r: u32_le(tail, at + 4), g: u32_le(tail, at + 8), b: u32_le(tail, at + 12) })
}

/// The entries of a trailer, in file order.
pub open spec fn trailer_entries(tail: Seq<u8>) -> Seq<(u32, Color)> {
    Seq::new(trailer_count(tail) as nat, |k: int| trailer_entry(tail, k))
}

/// The map that entries describe; a later entry for the same index wins.
pub open spec fn entries_map(entries: Seq<(u32, Color)>) -> Map<u32, Color>
    decreases entries.len(),
{
    if entries.len() == 0 {
        Map::empty()
    } else {
        entries_map(entries.drop_last()).insert(entries.last().0, entries.last().1)
    }
}

/// What a tail of bytes says about colours: the trailer's map when the tail
/// starts with a complete trailer, and nothing otherwise.
pub open spec fn color_trailer_map(tail: Seq<u8>) -> Map<u32, Color> {
    if is_color_trailer(tail) {
        entries_map(trailer_entries(tail))
    } else {
        Map::empty()
    }
}

fn read_u32_le(s: &[u8], at: usize) -> (v: u32)
    requires
        at + 4 <= s@.len(),
    ensures
        v == u32_le(s@, at as int),
{
    let b0 = s[at] as u32;
    let b1 = s[at + 1] as u32;
    let b2 = s[at + 2] as u32;
    let b3 = s[at + 3] as u32;
    b0 + b1 * 0x100 + b2 * 0x1_0000 + b3 * 0x100_0000
}

/// Reads the colour trailer at the start of `tail` (the bytes the BRep parser
/// did not take). Anything that is not a complete trailer yields an empty
/// map; bytes after the announced entries are ignored.
pub fn read_color_trailer(tail: &[u8]) -> (colormap: HashMap<u32, Color>)
    ensures
        colormap@ == color_trailer_map(tail@),
{
    broadcast use vstd::std_specs::hash::group_hash_axioms;

    let mut colormap: HashMap<u32, Color> = HashMap::new();
    if tail.len() < 8 {
        return colormap;
    }
    if tail[0] != 0x43 || tail[1] != 0x44 || tail[2] != 0x43 || tail[3] != 0x4c {
        proof {
            assert(tail@.take(4) != trailer_magic()) by {
                if tail@.take(4) == trailer_magic() {
                    assert(tail@.take(4)[0] == tail@[0]);
                    assert(tail@.take(4)[1] == tail@[1]);
                    assert(tail@.take(4)[2] == tail@[2]);
                    assert(tail@.take(4)[3] == tail@[3]);
                }
            }
        }
        return colormap;
    }
    assert(tail@.take(4) =~= trailer_magic());
    let count = read_u32_le(tail, 4) as usize;
    // `count` comes from the file, and `usize` may be 32-bit.
    let end = match count.checked_mul(16) {
        Some(n) => match n.checked_add(8) {
            Some(end) => end,
            None => return colormap,
        },
        None => return colormap,
    };
    // `<`, not `!=`: the count self-delimits, so bytes appended after it are not an error.
    if tail.len() < end {
        return colormap;
    }
    let ghost entries = trailer_entries(tail@);
    let mut k: usize = 0;
    while k < count
        invariant
            k <= count,
            count == trailer_count(tail@),
            8 + 16 * count <= tail.len(),
            entries == trailer_entries(tail@),
            colormap@ == entries_map(entries.take(k as int)),
        decreases count - k,
    {
        let at = 8 + 16 * k;
        let index = read_u32_le(tail, at);
        let color = Color {
            r: read_u32_le(tail, at + 4),
            g: read_u32_le(tail, at + 8),
            b: read_u32_le(tail, at + 12),
        };
        proof {
            assert(entries[k as int] == (index, color));
            assert(entries.take(k + 1).drop_last() =~= entries.take(k as int));
        }
        colormap.insert(index, color);
        k = k + 1;
    }
    assert(entries.take(count as int) =~= entries);
    colormap
}


// Writing a trailer.

/// The little-endian bytes of `v`.
pub open spec fn u32_le_bytes(v: u32) -> Seq<u8> {
    seq![(v % 0x100) as u8, (v / 0x100 % 0x100) as u8, (v / 0x1_0000 % 0x100) as u8, (v / 0x100_0000) as u8]
}

/// The 16 bytes of one trailer entry.
pub open spec fn encode_entry(entry: (u32, Color)) -> Seq<u8> {
    u32_le_bytes(entry.0) + u32_le_bytes(entry.1.r) + u32_le_bytes(entry.1.g) + u32_le_bytes(entry.1.b)
}

/// The entry records of a trailer, in order.
pub open spec fn encode_entries(entries: Seq<(u32, Color)>) -> Seq<u8>
    decreases entries.len(),
{
    if entries.len() == 0 {
        Seq::empty()
    } else {
        encode_entries(entries.drop_last()) + encode_entry(entries.last())
    }
}

/// A whole trailer for `entries`: magic, count, entry records.
pub open spec fn encoded_color_trailer(entries: Seq<(u32, Color)>) -> Seq<u8> {
    trailer_magic() + u32_le_bytes(entries.len() as u32) + encode_entries(entries)
}

fn push_u32_le(out: &mut Vec<u8>, v: u32)
    ensures
        final(out)@ == old(out)@ + u32_le_bytes(v),
{
    out.push((v % 0x100) as u8);
    out.push((v / 0x100 % 0x100) as u8);
    out.push((v / 0x1_0000 % 0x100) as u8);
    out.push((v / 0x100_0000) as u8);
    assert(out@ =~= old(out)@ + u32_le_bytes(v));
}

/// Encodes `entries` as a colour trailer. The count field holds the number of
/// entries as a `u32`.
pub fn encode_color_trailer(entries: &Vec<(u32, Color)>) -> (bytes: Vec<u8>)
    ensures
        bytes@ == encoded_color_trailer(entries@),
{
    let mut out: Vec<u8> = Vec::new();
    out.push(0x43);
    out.push(0x44);
    out.push(0x43);
    out.push(0x4c);
    assert(out@ =~= trailer_magic());
    push_u32_le(&mut out, entries.len() as u32);
    let ghost head = out@;
    let mut k: usize = 0;
    while k < entries.len()
        invariant
            k <= entries@.len(),
            out@ == head + encode_entries(entries@.take(k as int)),
        decreases entries.len() - k,
    {
        let (index, color) = entries[k];
        let ghost before = out@;
        push_u32_le(&mut out, index);
        push_u32_le(&mut out, color.r);
        push_u32_le(&mut out, color.g);
        push_u32_le(&mut out, color.b);
        proof {
            assert(entries@.take(k + 1).drop_last() =~= entries@.take(k as int));
            assert(entries@.take(k + 1).last() == (index, color));
            assert(out@ =~= head + encode_entries(entries@.take(k + 1)));
        }
        k = k + 1;
    }
    assert(entries@.take(entries@.len() as int) =~= entries@);
    out
}

proof fn lemma_u32_le_bytes_value(v: u32)
    ensures
        (v % 0x100) + (v / 0x100 % 0x100) * 0x100 + (v / 0x1_0000 % 0x100) * 0x1_0000 + (v / 0x100_0000)
            * 0x100_0000 == v as int,
        v / 0x100_0000 < 0x100,
{
    assert((v % 0x100) + (v / 0x100 % 0x100) * 0x100 + (v / 0x1_0000 % 0x100) * 0x1_0000 + (v
        / 0x100_0000) * 0x100_0000 == v) by (bit_vector);
    assert(v / 0x100_0000 < 0x100) by (bit_vector);
}

/// Reading the four bytes written for `v` gives `v` back, wherever they stand.
proof fn lemma_u32_le_roundtrip(s: Seq<u8>, at: int, v: u32)
    requires
        0 <= at,
        at + 4 <= s.len(),
        s.subrange(at, at + 4) == u32_le_bytes(v),
    ensures
        u32_le(s, at) == v,
{
    lemma_u32_le_bytes_value(v);
    assert(s[at] == s.subrange(at, at + 4)[0]);
    assert(s[at + 1] == s.subrange(at, at + 4)[1]);
    assert(s[at + 2] == s.subrange(at, at + 4)[2]);
    assert(s[at + 3] == s.subrange(at, at + 4)[3]);
}

proof fn lemma_encode_entries_layout(entries: Seq<(u32, Color)>)
    ensures
        encode_entries(entries).len() == 16 * entries.len(),
        forall|k: int|
            0 <= k < entries.len() ==> encode_entries(entries).subrange(16 * k, 16 * k + 16)
                == encode_entry(#[trigger] entries[k]),
    decreases entries.len(),
{
    if entries.len() > 0 {
        let prefix = entries.drop_last();
        lemma_encode_entries_layout(prefix);
        let whole = encode_entries(entries);
        assert(whole == encode_entries(prefix) + encode_entry(entries.last()));
        assert forall|k: int| 0 <= k < entries.len() implies whole.subrange(16 * k, 16 * k + 16)
            == encode_entry(#[trigger] entries[k]) by {
            if k < entries.len() - 1 {
                assert(entries[k] == prefix[k]);
                assert(whole.subrange(16 * k, 16 * k + 16) =~= encode_entries(prefix).subrange(
                    16 * k,
                    16 * k + 16,
                ));
            } else {
                assert(whole.subrange(16 * k, 16 * k + 16) =~= encode_entry(entries.last()));
            }
        }
    }
}

proof fn lemma_encoded_entry_reads_back(entries: Seq<(u32, Color)>, rest: Seq<u8>, k: int)
    requires
        0 <= k < entries.len(),
    ensures
        trailer_entry(encoded_color_trailer(entries) + rest, k) == entries[k],
{
    let t = encoded_color_trailer(entries) + rest;
    lemma_encode_entries_layout(entries);
    let enc = encode_entries(entries);
    let at = 8 + 16 * k;
    let e = entries[k];
    assert(enc.subrange(16 * k, 16 * k + 16) == encode_entry(e));
    assert(t.subrange(at, at + 16) =~= enc.subrange(16 * k, 16 * k + 16));
    let bytes = encode_entry(e);
    assert(t.subrange(at, at + 4) =~= bytes.subrange(0, 4));
    assert(t.subrange(at + 4, at + 8) =~= bytes.subrange(4, 8));
    assert(t.subrange(at + 8, at + 12) =~= bytes.subrange(8, 12));
    assert(t.subrange(at + 12, at + 16) =~= bytes.subrange(12, 16));
    assert(bytes.subrange(0, 4) =~= u32_le_bytes(e.0));
    assert(bytes.subrange(4, 8) =~= u32_le_bytes(e.1.r));
    assert(bytes.subrange(8, 12) =~= u32_le_bytes(e.1.g));
    assert(bytes.subrange(12, 16) =~= u32_le_bytes(e.1.b));
    lemma_u32_le_roundtrip(t, at, e.0);
    lemma_u32_le_roundtrip(t, at + 4, e.1.r);
    lemma_u32_le_roundtrip(t, at + 8, e.1.g);
    lemma_u32_le_roundtrip(t, at + 12, e.1.b);
}

/// A trailer reads back as the map of the entries it was written from, and
/// bytes appended after it do not change that.
pub proof fn lemma_color_trailer_roundtrip(entries: Seq<(u32, Color)>, rest: Seq<u8>)
    requires
        entries.len() <= u32::MAX,
    ensures
        color_trailer_map(encoded_color_trailer(entries) + rest) == entries_map(entries),
{
    let t = encoded_color_trailer(entries) + rest;
    let count = entries.len() as u32;
    lemma_encode_entries_layout(entries);
    assert(t.take(4) =~= trailer_magic());
    assert(t.subrange(4, 8) =~= u32_le_bytes(count));
    lemma_u32_le_roundtrip(t, 4, count);
    assert(trailer_count(t) == entries.len());
    assert(is_color_trailer(t));
    assert forall|k: int| 0 <= k < entries.len() implies #[trigger] trailer_entries(t)[k] == entries[k] by {
        lemma_encoded_entry_reads_back(entries, rest, k);
    }
    assert(trailer_entries(t) =~= entries);
}


/// Bytes appended after a complete trailer never change what it says.
pub proof fn lemma_color_trailer_ignores_appended_bytes(tail: Seq<u8>, rest: Seq<u8>)
    requires
        is_color_trailer(tail),
    ensures
        is_color_trailer(tail + rest),
        color_trailer_map(tail + rest) == color_trailer_map(tail),
{
    let t = tail + rest;
    assert(t.take(4) =~= tail.take(4));
    assert(u32_le(t, 4) == u32_le(tail, 4));
    assert forall|k: int| 0 <= k < trailer_count(tail) implies #[trigger] trailer_entries(t)[k]
        == trailer_entries(tail)[k] by {
        let at = 8 + 16 * k;
        assert(u32_le(t, at) == u32_le(tail, at));
        assert(u32_le(t, at + 4) == u32_le(tail, at + 4));
        assert(u32_le(t, at + 8) == u32_le(tail, at + 8));
        assert(u32_le(t, at + 12) == u32_le(tail, at + 12));
    }
    assert(trailer_entries(t) =~= trailer_entries(tail));
}

/// A tail that does not start with the magic bytes, or that is shorter than
/// the entries its count announces, says nothing about colours.
pub proof fn lemma_incomplete_trailer_reads_empty(tail: Seq<u8>)
    requires
        tail.len() < 8 || tail.take(4) != trailer_magic() || tail.len() < 8 + 16 * trailer_count(tail),
    ensures
        color_trailer_map(tail) == Map::<u32, Color>::empty(),
{
}

/// Entry `k` of `entries` carries trailer index `index`.
pub open spec fn entry_at(entries: Seq<(u32, Color)>, index: u32, k: int) -> bool {
    0 <= k < entries.len() && entries[k].0 == index
}

/// The map of entries holds an index exactly when some entry has it, and
/// then the colour of the last such entry: a later entry wins.
#[verifier::spinoff_prover]
pub proof fn lemma_entries_map_meaning(entries: Seq<(u32, Color)>, index: u32)
    ensures
        entries_map(entries).contains_key(index) <==> exists|k: int| #[trigger] entry_at(entries, index, k),
        forall|k: int|
            #[trigger] entry_at(entries, index, k) && (forall|m: int| k < m ==> !entry_at(entries, index, m))
                ==> entries_map(entries)[index] == entries[k].1,
    decreases entries.len(),
{
    if entries.len() > 0 {
        let prev = entries.drop_last();
        let n = entries.len() - 1;
        let last = entries[n];
        lemma_entries_map_meaning(prev, index);
        let cur = entries_map(entries);
        let before = entries_map(prev);
        assert(cur == before.insert(last.0, last.1));
        assert forall|k: int| 0 <= k < n implies entry_at(entries, index, k) == entry_at(prev, index, k) by {
            assert(prev[k] == entries[k]);
        }
        if last.0 == index {
            assert(entry_at(entries, index, n));
            assert forall|k: int|
                #[trigger] entry_at(entries, index, k) && (forall|m: int| k < m ==> !entry_at(entries, index, m))
                    implies cur[index] == entries[k].1 by {
                if k < n {
                    assert(!entry_at(entries, index, n));
                }
            }
        } else {
            assert(cur.contains_key(index) == before.contains_key(index));
            assert(before.contains_key(index) ==> cur[index] == before[index]);
            if exists|k: int| #[trigger] entry_at(entries, index, k) {
                let k = choose|k: int| #[trigger] entry_at(entries, index, k);
                assert(k < n);
                assert(entry_at(prev, index, k));
            }
            if exists|k: int| #[trigger] entry_at(prev, index, k) {
                let k = choose|k: int| #[trigger] entry_at(prev, index, k);
                assert(entry_at(entries, index, k));
            }
            assert forall|k: int|
                #[trigger] entry_at(entries, index, k) && (forall|m: int| k < m ==> !entry_at(entries, index, m))
                    implies cur[index] == entries[k].1 by {
                assert(entry_at(prev, index, k));
                assert forall|m: int| k < m implies !entry_at(prev, index, m) by {
                    if m < n {
                        assert(!entry_at(entries, index, m));
                    }
                }
            }
        }
    }
}

/// A tail whose first four bytes are not `C`, `D`, `C`, `L` says nothing
/// about colours.
pub proof fn lemma_trailer_needs_magic_bytes(tail: Seq<u8>)
    requires
        tail.len() < 4 || tail[0] != 0x43 || tail[1] != 0x44 || tail[2] != 0x43 || tail[3] != 0x4c,
    ensures
        color_trailer_map(tail) == Map::<u32, Color>::empty(),
{
    if tail.len() >= 8 && tail.take(4) == trailer_magic() {
        assert(tail.take(4)[0] == tail[0]);
        assert(tail.take(4)[1] == tail[1]);
        assert(tail.take(4)[2] == tail[2]);
        assert(tail.take(4)[3] == tail[3]);
    }
}

/// Stored words are little-endian: the lowest byte comes first and the
/// highest last.
pub proof fn lemma_u32_le_is_little_endian(s: Seq<u8>, at: int)
    requires
        0 <= at,
        at + 4 <= s.len(),
    ensures
        u32_le(s, at) % 0x100 == s[at],
        u32_le(s, at) / 0x100 % 0x100 == s[at + 1],
        u32_le(s, at) / 0x1_0000 % 0x100 == s[at + 2],
        u32_le(s, at) / 0x100_0000 == s[at + 3],
{
    let b0 = s[at] as int;
    let b1 = s[at + 1] as int;
    let b2 = s[at + 2] as int;
    let b3 = s[at + 3] as int;
    let v = b0 + b1 * 0x100 + b2 * 0x1_0000 + b3 * 0x100_0000;
    assert(0 <= v < 0x1_0000_0000);
    assert(u32_le(s, at) as int == v);
    assert(v % 0x100 == b0);
    assert(v / 0x100 == b1 + b2 * 0x100 + b3 * 0x1_0000);
    assert(v / 0x1_0000 == b2 + b3 * 0x100);
    assert(v / 0x100_0000 == b3);
}

/// Where a trailer entry's fields sit: 8 header bytes, then 16 bytes per
/// entry holding the index, red, green and blue words in that order.
pub proof fn lemma_trailer_entry_fields(tail: Seq<u8>, k: int)
    requires
        0 <= k,
        8 + 16 * k + 16 <= tail.len(),
    ensures
        trailer_entry(tail, k).0 == u32_le(tail, 8 + 16 * k),
        trailer_entry(tail, k).1.r == u32_le(tail, 8 + 16 * k + 4),
        trailer_entry(tail, k).1.g == u32_le(tail, 8 + 16 * k + 8),
        trailer_entry(tail, k).1.b == u32_le(tail, 8 + 16 * k + 12),
        trailer_entry(tail, k).0 % 0x100 == tail[8 + 16 * k],
        trailer_entry(tail, k).1.r % 0x100 == tail[8 + 16 * k + 4],
        trailer_entry(tail, k).1.g % 0x100 == tail[8 + 16 * k + 8],
        trailer_entry(tail, k).1.b % 0x100 == tail[8 + 16 * k + 12],
        trailer_count(tail) == u32_le(tail, 4),
{
    lemma_u32_le_is_little_endian(tail, 8 + 16 * k);
    lemma_u32_le_is_little_endian(tail, 8 + 16 * k + 4);
    lemma_u32_le_is_little_endian(tail, 8 + 16 * k + 8);
    lemma_u32_le_is_little_endian(tail, 8 + 16 * k + 12);
}

/// The bytes written for a trailer: `C`, `D`, `C`, `L`; the entry count as a
/// little-endian word; then per entry its index, red, green and blue words,
/// 16 bytes in all.
pub proof fn lemma_encoded_trailer_layout(entries: Seq<(u32, Color)>, k: int)
    requires
        0 <= k < entries.len(),
    ensures
        ({
            let t = encoded_color_trailer(entries);
            let at = 8 + 16 * k;
            &&& t.len() == 8 + 16 * entries.len()
            &&& t[0] == 0x43 && t[1] == 0x44 && t[2] == 0x43 && t[3] == 0x4c
            &&& u32_le(t, 4) == entries.len() as u32
            &&& u32_le(t, at) == entries[k].0
            &&& u32_le(t, at + 4) == entries[k].1.r
            &&& u32_le(t, at + 8) == entries[k].1.g
            &&& u32_le(t, at + 12) == entries[k].1.b
        }),
{
    let t = encoded_color_trailer(entries);
    lemma_encode_entries_layout(entries);
    lemma_encoded_entry_reads_back(entries, Seq::empty(), k);
    assert(t + Seq::<u8>::empty() =~= t);
    assert(t.subrange(4, 8) =~= u32_le_bytes(entries.len() as u32));
    lemma_u32_le_roundtrip(t, 4, entries.len() as u32);
}

// Choosing what to write, and resolving what was read.

/// The entries written for the first `n` trailer ids: in position order, each
/// position that is the last occurrence of its id and whose id has a colour,
/// paired with that colour.
pub open spec fn trailer_entries_upto(ids: Seq<u64>, colors: Map<u64, Color>, n: int) -> Seq<(u32, Color)>
    decreases n,
{
    if n <= 0 {
        Seq::empty()
    } else {
        let prev = trailer_entries_upto(ids, colors, n - 1);
        let id = ids[n - 1];
        if last_index_of(ids, id) == n - 1 && colors.contains_key(id) {
            prev.push(((n - 1) as u32, colors[id]))
        } else {
            prev
        }
    }
}

/// The entries written for trailer ids `ids` and colours `colors`.
pub open spec fn trailer_entries_for(ids: Seq<u64>, colors: Map<u64, Color>) -> Seq<(u32, Color)> {
    trailer_entries_upto(ids, colors, ids.len() as int)
}

/// The bytes appended after a BRep payload: nothing when no trailer id has a
/// colour, and otherwise the trailer of those entries.
pub open spec fn written_color_trailer(ids: Seq<u64>, colors: Map<u64, Color>) -> Seq<u8> {
    let entries = trailer_entries_for(ids, colors);
    if entries.len() == 0 {
        Seq::empty()
    } else {
        encoded_color_trailer(entries)
    }
}

/// The colour trailer to append after a BRep payload whose trailer ids (solid
/// ids, then face ids) are `trailer_ids`. A colour whose id is not a trailer
/// id has no index and is left out; an id that repeats is indexed by its last
/// position. Positions are stored as `u32`.
pub fn color_trailer_bytes(trailer_ids: &Vec<u64>, colormap: &HashMap<u64, Color>) -> (bytes: Vec<u8>)
    ensures
        bytes@ == written_color_trailer(trailer_ids@, colormap@),
{
    broadcast use vstd::std_specs::hash::group_hash_axioms;

    let positions = last_positions(trailer_ids);
    let mut entries: Vec<(u32, Color)> = Vec::new();
    let mut i: usize = 0;
    while i < trailer_ids.len()
        invariant
            i <= trailer_ids@.len(),
            forall|id: u64| #[trigger]
                positions@.contains_key(id) <==> last_index_of(trailer_ids@, id) >= 0,
            forall|id: u64| #[trigger]
                positions@.contains_key(id) ==> positions@[id] as int == last_index_of(trailer_ids@, id),
            entries@ == trailer_entries_upto(trailer_ids@, colormap@, i as int),
        decreases trailer_ids.len() - i,
    {
        let id = trailer_ids[i];
        let is_last = match positions.get(&id) {
            Some(position) => *position == i,
            None => false,
        };
        if is_last {
            match colormap.get(&id) {
                Some(color) => {
                    entries.push((i as u32, *color));
                },
                None => {},
            }
        }
        i = i + 1;
    }
    if entries.len() == 0 {
        Vec::new()
    } else {
        encode_color_trailer(&entries)
    }
}

proof fn lemma_trailer_entries_upto_sorted(ids: Seq<u64>, colors: Map<u64, Color>, n: int)
    requires
        0 <= n <= ids.len(),
        ids.len() <= u32::MAX + 1,
    ensures
        ({
            let e = trailer_entries_upto(ids, colors, n);
            &&& forall|a: int, b: int| 0 <= a < b < e.len() ==> e[a].0 < e[b].0
            &&& forall|a: int|
                0 <= a < e.len() ==> {
                    let j = (#[trigger] e[a]).0 as int;
                    &&& j < n
                    &&& last_index_of(ids, ids[j]) == j
                    &&& colors.contains_key(ids[j])
                    &&& e[a].1 == colors[ids[j]]
                }
            &&& forall|j: int|
                0 <= j < n && last_index_of(ids, #[trigger] ids[j]) == j && colors.contains_key(ids[j])
                    ==> exists|a: int| 0 <= a < e.len() && e[a].0 == j
        }),
    decreases n,
{
    if n > 0 {
        lemma_trailer_entries_upto_sorted(ids, colors, n - 1);
        let prev = trailer_entries_upto(ids, colors, n - 1);
        let e = trailer_entries_upto(ids, colors, n);
        let i = n - 1;
        if last_index_of(ids, ids[i]) == i && colors.contains_key(ids[i]) {
            assert(e == prev.push((i as u32, colors[ids[i]])));
            assert(e[prev.len() as int].0 == i);
            assert forall|j: int|
                0 <= j < n && last_index_of(ids, #[trigger] ids[j]) == j && colors.contains_key(ids[j])
                    implies exists|a: int| 0 <= a < e.len() && e[a].0 == j by {
                if j < i {
                    let a = choose|a: int| 0 <= a < prev.len() && prev[a].0 == j;
                    assert(e[a] == prev[a]);
                } else {
                    assert(e[prev.len() as int].0 == j);
                }
            }
        }
    }
}

/// The written entries ascend strictly by trailer index; each names the
/// last position of a trailer id together with that id's colour; and every
/// trailer id with a colour has its entry.
pub proof fn lemma_trailer_entries_sorted_and_complete(ids: Seq<u64>, colors: Map<u64, Color>)
    requires
        ids.len() <= u32::MAX + 1,
    ensures
        ({
            let e = trailer_entries_for(ids, colors);
            &&& forall|a: int, b: int| 0 <= a < b < e.len() ==> e[a].0 < e[b].0
            &&& forall|a: int|
                0 <= a < e.len() ==> {
                    let j = (#[trigger] e[a]).0 as int;
                    &&& j < ids.len()
                    &&& last_index_of(ids, ids[j]) == j
                    &&& colors.contains_key(ids[j])
                    &&& e[a].1 == colors[ids[j]]
                }
            &&& forall|id: u64|
                ids.contains(id) && #[trigger] colors.contains_key(id) ==> exists|a: int|
                    0 <= a < e.len() && e[a] == (last_index_of(ids, id) as u32, colors[id])
        }),
{
    lemma_trailer_entries_upto_sorted(ids, colors, ids.len() as int);
    let e = trailer_entries_for(ids, colors);
    assert forall|id: u64| ids.contains(id) && #[trigger] colors.contains_key(id) implies exists|a: int|
        0 <= a < e.len() && e[a] == (last_index_of(ids, id) as u32, colors[id]) by {
        lemma_last_index_of(ids, id);
        let j = last_index_of(ids, id);
        assert(ids[j] == id);
        let a = choose|a: int| 0 <= a < e.len() && e[a].0 == j;
        assert(e[a].0 as int == j);
    }
}

/// Colours by kernel id for the first `n` trailer ids, from a trailer's map
/// of trailer index to colour. Where an id repeats, its last coloured
/// position wins.
pub open spec fn colors_by_id_upto(ids: Seq<u64>, trailer: Map<u32, Color>, n: int) -> Map<u64, Color>
    decreases n,
{
    if n <= 0 {
        Map::empty()
    } else {
        let prev = colors_by_id_upto(ids, trailer, n - 1);
        let i = n - 1;
        if i <= u32::MAX && trailer.contains_key(i as u32) {
            prev.insert(ids[i], trailer[i as u32])
        } else {
            prev
        }
    }
}

/// Colours by kernel id: each trailer index that names a trailer id gives
/// that id its colour; indices past the trailer ids are dropped.
pub open spec fn colors_by_id(ids: Seq<u64>, trailer: Map<u32, Color>) -> Map<u64, Color> {
    colors_by_id_upto(ids, trailer, ids.len() as int)
}

/// The bytes a BRep parser left after consuming `consumed` bytes of `buf`.
pub open spec fn brep_tail(buf: Seq<u8>, consumed: int) -> Seq<u8> {
    if consumed <= buf.len() {
        buf.skip(consumed)
    } else {
        Seq::empty()
    }
}

/// Turns a trailer's map of trailer index to colour into colours by kernel id.
pub fn resolve_trailer_colors(trailer_ids: &Vec<u64>, trailer: &HashMap<u32, Color>) -> (colormap: HashMap<u64, Color>)
    ensures
        colormap@ == colors_by_id(trailer_ids@, trailer@),
{
    broadcast use vstd::std_specs::hash::group_hash_axioms;

    let mut colormap: HashMap<u64, Color> = HashMap::new();
    let mut i: usize = 0;
    while i < trailer_ids.len()
        invariant
            i <= trailer_ids@.len(),
            colormap@ == colors_by_id_upto(trailer_ids@, trailer@, i as int),
        decreases trailer_ids.len() - i,
    {
        if (i as u64) <= 0xffff_ffffu64 {
            let index = i as u32;
            match trailer.get(&index) {
                Some(color) => {
                    colormap.insert(trailer_ids[i], *color);
                },
                None => {},
            }
        }
        i = i + 1;
    }
    colormap
}

/// Position `i` holds kernel id `id` and is an index of the trailer.
pub open spec fn indexed_at(ids: Seq<u64>, trailer: Map<u32, Color>, id: u64, i: int) -> bool {
    0 <= i < ids.len() && i <= u32::MAX && ids[i] == id && trailer.contains_key(i as u32)
}

#[verifier::spinoff_prover]
proof fn lemma_colors_by_id_upto_meaning(ids: Seq<u64>, trailer: Map<u32, Color>, n: int, id: u64)
    requires
        0 <= n <= ids.len(),
    ensures
        colors_by_id_upto(ids, trailer, n).contains_key(id) <==> exists|i: int|
            i < n && #[trigger] indexed_at(ids, trailer, id, i),
        forall|i: int|
            i < n && #[trigger] indexed_at(ids, trailer, id, i) && (forall|m: int|
                i < m < n ==> !indexed_at(ids, trailer, id, m)) ==> colors_by_id_upto(ids, trailer, n)[id]
                == trailer[i as u32],
    decreases n,
{
    if n > 0 {
        lemma_colors_by_id_upto_meaning(ids, trailer, n - 1, id);
        let i = n - 1;
        let prev = colors_by_id_upto(ids, trailer, n - 1);
        let cur = colors_by_id_upto(ids, trailer, n);
        if indexed_at(ids, trailer, id, i) {
            assert(cur == prev.insert(id, trailer[i as u32]));
            assert forall|j: int|
                j < n && #[trigger] indexed_at(ids, trailer, id, j) && (forall|m: int|
                    j < m < n ==> !indexed_at(ids, trailer, id, m)) implies cur[id] == trailer[j as u32] by {
                if j < i {
                    assert(!indexed_at(ids, trailer, id, i));
                }
            }
        } else {
            if i <= u32::MAX && trailer.contains_key(i as u32) {
                assert(ids[i] != id);
                assert(cur == prev.insert(ids[i], trailer[i as u32]));
            } else {
                assert(cur == prev);
            }
            assert(cur.contains_key(id) == prev.contains_key(id));
            assert(prev.contains_key(id) ==> cur[id] == prev[id]);
            if exists|j: int| j < n && #[trigger] indexed_at(ids, trailer, id, j) {
                let j = choose|j: int| j < n && #[trigger] indexed_at(ids, trailer, id, j);
                assert(j < i);
            }
        }
    }
}

/// Resolving a trailer's indices: an id gets a colour exactly when some
/// position holding it is an index of the trailer, and then the colour of
/// the last such position.
pub proof fn lemma_resolved_colors_meaning(ids: Seq<u64>, trailer: Map<u32, Color>, id: u64)
    ensures
        colors_by_id(ids, trailer).contains_key(id) <==> exists|i: int| #[trigger] indexed_at(ids, trailer, id, i),
        forall|i: int|
            #[trigger] indexed_at(ids, trailer, id, i) && (forall|m: int| i < m ==> !indexed_at(ids, trailer, id, m))
                ==> colors_by_id(ids, trailer)[id] == trailer[i as u32],
{
    lemma_colors_by_id_upto_meaning(ids, trailer, ids.len() as int, id);
}

proof fn lemma_colors_by_id_of_empty(ids: Seq<u64>, n: int)
    ensures
        colors_by_id_upto(ids, Map::<u32, Color>::empty(), n) == Map::<u64, Color>::empty(),
    decreases n,
{
    if n > 0 {
        lemma_colors_by_id_of_empty(ids, n - 1);
    }
}

/// Reads the colours, by kernel id, that a BRep buffer carries after the
/// `consumed` bytes of its payload; the trailer ids are those of the shape
/// read from that payload.
pub fn read_brep_colors(buf: &[u8], consumed: usize, trailer_ids: &Vec<u64>) -> (colormap: HashMap<u64, Color>)
    ensures
        colormap@ == colors_by_id(trailer_ids@, color_trailer_map(brep_tail(buf@, consumed as int))),
{
    if consumed > buf.len() {
        proof {
            lemma_colors_by_id_of_empty(trailer_ids@, trailer_ids@.len() as int);
        }
        return HashMap::new();
    }
    let (_, tail) = buf.split_at(consumed);
    assert(tail@ =~= buf@.skip(consumed as int));
    let trailer = read_color_trailer(tail);
    resolve_trailer_colors(trailer_ids, &trailer)
}

// The colours written after a payload are the colours read back.

/// The map of trailer index to colour that the entries for the first `n`
/// trailer ids describe.
pub open spec fn written_index_colors(ids: Seq<u64>, colors: Map<u64, Color>, n: int) -> Map<u32, Color> {
    Map::new(
        |j: u32| j < n && last_index_of(ids, ids[j as int]) == j && colors.contains_key(ids[j as int]),
        |j: u32| colors[ids[j as int]],
    )
}

proof fn lemma_trailer_entries_map(ids: Seq<u64>, colors: Map<u64, Color>, n: int)
    requires
        0 <= n <= ids.len(),
        ids.len() <= u32::MAX + 1,
    ensures
        trailer_entries_upto(ids, colors, n).len() <= n,
        entries_map(trailer_entries_upto(ids, colors, n)) == written_index_colors(ids, colors, n),
    decreases n,
{
    if n > 0 {
        lemma_trailer_entries_map(ids, colors, n - 1);
        let prev = trailer_entries_upto(ids, colors, n - 1);
        let id = ids[n - 1];
        if last_index_of(ids, id) == n - 1 && colors.contains_key(id) {
            let e = ((n - 1) as u32, colors[id]);
            assert(prev.push(e).drop_last() =~= prev);
        }
        assert(entries_map(trailer_entries_upto(ids, colors, n)) =~= written_index_colors(ids, colors, n));
    }
}

/// The trailer written for trailer ids `ids` reads back, index by index, as
/// the colour of the id whose last position each index is; nothing else.
pub proof fn lemma_written_trailer_reads_back(ids: Seq<u64>, colors: Map<u64, Color>)
    requires
        ids.len() <= u32::MAX,
    ensures
        color_trailer_map(written_color_trailer(ids, colors)) == written_index_colors(ids, colors, ids.len() as int),
{
    let entries = trailer_entries_for(ids, colors);
    let written = written_color_trailer(ids, colors);
    lemma_trailer_entries_map(ids, colors, ids.len() as int);
    if entries.len() == 0 {
        assert(color_trailer_map(written) == entries_map(entries));
    } else {
        lemma_color_trailer_roundtrip(entries, Seq::empty());
        assert(encoded_color_trailer(entries) + Seq::<u8>::empty() =~= written);
    }
}

/// The written trailer is empty when no trailer id has a colour, and
/// otherwise 8 header bytes and 16 bytes per entry.
pub proof fn lemma_written_trailer_length(ids: Seq<u64>, colors: Map<u64, Color>)
    ensures
        written_color_trailer(ids, colors).len() == if trailer_entries_for(ids, colors).len() == 0 {
            0
        } else {
            8 + 16 * trailer_entries_for(ids, colors).len()
        },
{
    lemma_encode_entries_layout(trailer_entries_for(ids, colors));
}

/// The trailer ids up to `n` that are the last position of their id.
spec fn last_positioned_ids(ids: Seq<u64>, n: int) -> Set<u64> {
    Set::new(|x: u64| exists|j: int| 0 <= j < n && ids[j] == x && last_index_of(ids, x) == j)
}

proof fn lemma_colors_by_id_of_written(ids: Seq<u64>, colors: Map<u64, Color>, n: int)
    requires
        0 <= n <= ids.len(),
        ids.len() <= u32::MAX,
    ensures
        colors_by_id_upto(ids, written_index_colors(ids, colors, ids.len() as int), n) == colors.restrict(
            last_positioned_ids(ids, n),
        ),
    decreases n,
{
    let trailer = written_index_colors(ids, colors, ids.len() as int);
    if n == 0 {
        assert(colors.restrict(last_positioned_ids(ids, 0)) =~= Map::empty());
    } else {
        lemma_colors_by_id_of_written(ids, colors, n - 1);
        let i = n - 1;
        let x = ids[i];
        lemma_last_index_of(ids, x);
        assert forall|y: u64| last_positioned_ids(ids, n).contains(y) <==> last_positioned_ids(ids, i).contains(y)
            || (y == x && last_index_of(ids, x) == i) by {
            if last_positioned_ids(ids, n).contains(y) {
                let j = choose|j: int| 0 <= j < n && ids[j] == y && last_index_of(ids, y) == j;
                if j < i {
                    assert(last_positioned_ids(ids, i).contains(y));
                }
            }
        }
        if last_index_of(ids, x) == i {
            assert(forall|y: u64| last_positioned_ids(ids, i).contains(y) ==> y != x);
        }
        assert(colors_by_id_upto(ids, trailer, n) =~= colors.restrict(last_positioned_ids(ids, n)));
    }
}

/// The colours written after a BRep payload are exactly the colours read back
/// from it, keyed by kernel id, for every trailer id that had one: a write
/// followed by a read gives back the colour map restricted to the trailer ids,
/// repeated trailer ids included.
pub proof fn lemma_brep_colors_roundtrip(payload: Seq<u8>, ids: Seq<u64>, colors: Map<u64, Color>)
    requires
        ids.len() <= u32::MAX,
    ensures
        colors_by_id(
            ids,
            color_trailer_map(brep_tail(payload + written_color_trailer(ids, colors), payload.len() as int)),
        ) == colors.restrict(ids.to_set()),
{
    let written = written_color_trailer(ids, colors);
    assert((payload + written).skip(payload.len() as int) =~= written);
    lemma_written_trailer_reads_back(ids, colors);
    lemma_colors_by_id_of_written(ids, colors, ids.len() as int);
    assert forall|x: u64| last_positioned_ids(ids, ids.len() as int).contains(x) <==> ids.to_set().contains(x) by {
        lemma_last_index_of(ids, x);
        if ids.contains(x) {
            assert(ids[last_index_of(ids, x)] == x);
        }
    }
    assert(last_positioned_ids(ids, ids.len() as int) =~= ids.to_set());
}

} // verus!
