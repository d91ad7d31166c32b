use cadrum::{color_columns, color_trailer_bytes, colors_from_columns, drawable_edges, face_colors, mesh_colormap, read_brep_colors, Color, ShapeColors};
use std::collections::HashMap;

fn color(r: f32, g: f32, b: f32) -> Color {
    Color { r: r.to_bits(), g: g.to_bits(), b: b.to_bits() }
}

#[test]
fn solid_color_reaches_faces_and_face_colors_win() {
    let red = color(1.0, 0.0, 0.0);
    let green = color(0.0, 1.0, 0.0);
    let mut own = HashMap::new();
    own.insert(1, red);
    own.insert(11, green);
    let shapes = vec![ShapeColors { id: 1, face_ids: vec![10, 11, 12], colormap: own }];
    let colors = face_colors(&shapes);
    assert_eq!(colors[&10], red);
    assert_eq!(colors[&11], green);
    assert_eq!(colors[&12], red);
    // the solid's own entry is carried too
    assert_eq!(colors[&1], red);
    assert_eq!(colors.len(), 4);
}

#[test]
fn later_shape_colors_win_and_uncolored_solids_paint_nothing() {
    let red = color(1.0, 0.0, 0.0);
    let blue = color(0.0, 0.0, 1.0);
    let mut first = HashMap::new();
    first.insert(1, red);
    let mut second = HashMap::new();
    second.insert(10, blue);
    let shapes = vec![
        ShapeColors { id: 1, face_ids: vec![10, 11], colormap: first },
        ShapeColors { id: 2, face_ids: vec![20], colormap: second },
        ShapeColors { id: 3, face_ids: vec![30], colormap: HashMap::new() },
    ];
    let colors = face_colors(&shapes);
    assert_eq!(colors[&10], blue);
    assert_eq!(colors[&11], red);
    assert!(!colors.contains_key(&20));
    assert!(!colors.contains_key(&30));
}

#[test]
fn mesh_colormap_keeps_only_meshed_faces() {
    let red = color(1.0, 0.0, 0.0);
    let mut own = HashMap::new();
    own.insert(1, red);
    let shapes = vec![ShapeColors { id: 1, face_ids: vec![10, 11], colormap: own }];
    let map = mesh_colormap(&shapes, &vec![10, 10, 10, 99]);
    assert_eq!(map.len(), 1);
    assert_eq!(map[&10], red);
    assert!(mesh_colormap(&shapes, &vec![]).is_empty());
}

#[test]
fn colour_columns_pair_ids_with_channel_triples() {
    let map = colors_from_columns(&vec![5, 6, 5], &vec![1, 2, 3, 4, 5, 6, 7, 8, 9]);
    assert_eq!(map.len(), 2);
    assert_eq!(map[&5], Color { r: 7, g: 8, b: 9 });
    assert_eq!(map[&6], Color { r: 4, g: 5, b: 6 });
    // an incomplete triple, or a missing id, ends the pairing
    let short = colors_from_columns(&vec![5, 6], &vec![1, 2, 3, 4]);
    assert_eq!(short.len(), 1);
    assert_eq!(short[&5], Color { r: 1, g: 2, b: 3 });
    assert_eq!(colors_from_columns(&vec![5], &vec![1, 2, 3, 4, 5, 6]).len(), 1);
}

#[test]
fn colour_columns_roundtrip() {
    let mut map = HashMap::new();
    map.insert(3, color(0.5, 0.25, 0.125));
    map.insert(9, color(1.0, 1.0, 1.0));
    map.insert(4, color(0.0, 0.0, 0.0));
    let (ids, rgb) = color_columns(&map);
    assert_eq!(ids.len(), 3);
    assert_eq!(rgb.len(), 9);
    assert_eq!(colors_from_columns(&ids, &rgb), map);
    let (ids, rgb) = color_columns(&HashMap::new());
    assert!(ids.is_empty() && rgb.is_empty());
}

#[test]
fn edges_of_fewer_than_two_points_are_not_drawn() {
    assert_eq!(drawable_edges(&vec![6, 3, 0, 9, 5, 12]), vec![0, 3, 5]);
    assert!(drawable_edges(&vec![]).is_empty());
    assert!(drawable_edges(&vec![3, 5]).is_empty());
}

#[test]
fn repeated_trailer_ids_still_roundtrip_their_colors() {
    let ids = vec![7, 8, 7, 9];
    let mut colors = HashMap::new();
    colors.insert(7, color(1.0, 0.0, 0.0));
    colors.insert(9, color(0.0, 0.0, 1.0));
    let mut buf = vec![0u8; 5];
    buf.extend(color_trailer_bytes(&ids, &colors));
    let read = read_brep_colors(&buf, 5, &ids);
    assert_eq!(read, colors);
}
