use cadrum::{color_trailer_bytes, encode_color_trailer, read_brep_colors, read_color_trailer, resolve_trailer_colors, Color};
use std::collections::HashMap;

fn color(r: f32, g: f32, b: f32) -> Color {
    Color { r: r.to_bits(), g: g.to_bits(), b: b.to_bits() }
}

#[test]
fn trailer_layout_is_little_endian() {
    let bytes = encode_color_trailer(&vec![(0x0102_0304, Color { r: 5, g: 6, b: 0xA0B0_C0D0 })]);
    assert_eq!(
        bytes,
        vec![b'C', b'D', b'C', b'L', 1, 0, 0, 0, 4, 3, 2, 1, 5, 0, 0, 0, 6, 0, 0, 0, 0xD0, 0xC0, 0xB0, 0xA0]
    );
}

#[test]
fn trailer_roundtrips_with_appended_bytes() {
    let entries = vec![(0, color(1.0, 0.0, 0.0)), (3, color(0.25, 0.5, 0.75)), (7, color(0.0, 0.0, 1.0))];
    let mut bytes = encode_color_trailer(&entries);
    assert_eq!(bytes.len(), 8 + 16 * 3);
    let map = read_color_trailer(&bytes);
    assert_eq!(map.len(), 3);
    assert_eq!(map[&3], color(0.25, 0.5, 0.75));
    assert_eq!(f32::from_bits(map[&0].r), 1.0);
    bytes.extend_from_slice(&[9, 9, 9]);
    assert_eq!(read_color_trailer(&bytes), map);
}

#[test]
fn later_entry_for_the_same_index_wins() {
    let bytes = encode_color_trailer(&vec![(2, color(1.0, 0.0, 0.0)), (2, color(0.0, 1.0, 0.0))]);
    let map = read_color_trailer(&bytes);
    assert_eq!(map.len(), 1);
    assert_eq!(map[&2], color(0.0, 1.0, 0.0));
}

#[test]
fn anything_but_a_complete_trailer_reads_empty() {
    let good = encode_color_trailer(&vec![(1, color(1.0, 1.0, 1.0))]);
    assert!(read_color_trailer(&[]).is_empty());
    assert!(read_color_trailer(&good[..7]).is_empty());
    // truncated entry
    assert!(read_color_trailer(&good[..good.len() - 1]).is_empty());
    // wrong magic
    let mut bad = good.clone();
    bad[3] = b'X';
    assert!(read_color_trailer(&bad).is_empty());
    // a count whose byte length does not fit
    let huge = vec![b'C', b'D', b'C', b'L', 0xFF, 0xFF, 0xFF, 0xFF, 0, 0, 0, 0];
    assert!(read_color_trailer(&huge).is_empty());
    // an empty trailer is a valid trailer with no entries
    assert!(read_color_trailer(&encode_color_trailer(&vec![])).is_empty());
    assert_eq!(encode_color_trailer(&vec![]), vec![b'C', b'D', b'C', b'L', 0, 0, 0, 0]);
}

#[test]
fn written_trailer_indexes_colored_ids_by_position() {
    let ids = vec![100, 200, 300];
    let mut colors = HashMap::new();
    colors.insert(300, color(0.0, 0.0, 1.0));
    colors.insert(100, color(1.0, 0.0, 0.0));
    // not a trailer id: dropped
    colors.insert(999, color(0.5, 0.5, 0.5));
    let bytes = color_trailer_bytes(&ids, &colors);
    assert_eq!(bytes, encode_color_trailer(&vec![(0, color(1.0, 0.0, 0.0)), (2, color(0.0, 0.0, 1.0))]));
}

#[test]
fn nothing_is_written_without_colors() {
    let mut colors = HashMap::new();
    colors.insert(5, color(1.0, 0.0, 0.0));
    assert!(color_trailer_bytes(&vec![1, 2, 3], &colors).is_empty());
    assert!(color_trailer_bytes(&vec![1, 2, 3], &HashMap::new()).is_empty());
}

#[test]
fn repeated_trailer_id_is_indexed_by_its_last_position() {
    let mut colors = HashMap::new();
    colors.insert(7, color(1.0, 0.0, 0.0));
    let bytes = color_trailer_bytes(&vec![7, 8, 7], &colors);
    assert_eq!(bytes, encode_color_trailer(&vec![(2, color(1.0, 0.0, 0.0))]));
}

#[test]
fn indices_resolve_to_ids_and_out_of_range_indices_drop() {
    let mut trailer = HashMap::new();
    trailer.insert(1u32, color(1.0, 0.0, 0.0));
    trailer.insert(5u32, color(0.0, 1.0, 0.0));
    let resolved = resolve_trailer_colors(&vec![10, 20, 30], &trailer);
    assert_eq!(resolved.len(), 1);
    assert_eq!(resolved[&20], color(1.0, 0.0, 0.0));
}

#[test]
fn brep_colors_survive_write_then_read() {
    let ids = vec![11, 12, 13, 14];
    let mut colors = HashMap::new();
    colors.insert(11, color(1.0, 0.0, 0.0));
    colors.insert(14, color(0.0, 0.5, 0.0));
    colors.insert(77, color(0.0, 0.0, 1.0));
    let mut buf = vec![0xAB; 40];
    let consumed = buf.len();
    buf.extend(color_trailer_bytes(&ids, &colors));
    let read = read_brep_colors(&buf, consumed, &ids);
    let mut expected = HashMap::new();
    expected.insert(11, color(1.0, 0.0, 0.0));
    expected.insert(14, color(0.0, 0.5, 0.0));
    assert_eq!(read, expected);
}

#[test]
fn brep_without_trailer_or_past_its_end_has_no_colors() {
    let buf = vec![1, 2, 3, 4];
    assert!(read_brep_colors(&buf, 4, &vec![1]).is_empty());
    assert!(read_brep_colors(&buf, 10, &vec![1]).is_empty());
    assert!(read_brep_colors(&buf, 0, &vec![1]).is_empty());
}
