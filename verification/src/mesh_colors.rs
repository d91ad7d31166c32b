//! Which colour each meshed face is drawn with. A mesh has only a face level,
//! so a solid-level colour is expanded onto the solid's faces; the solid's
//! own face colours are the more specific style and win over it.
use crate::trailer::Color;
use std::collections::HashMap;
use vstd::prelude::*;

verus! {

/// The colour data a meshed shape carries: its kernel id, the kernel ids of
/// its faces, and its authored colours by kernel id.
pub struct ShapeColors {
    pub id: u64,
    pub face_ids: Vec<u64>,
    pub colormap: HashMap<u64, Color>,
}

/// `colors` with every face in `faces` given `color`.
pub open spec fn paint_faces(colors: Map<u64, Color>, faces: Seq<u64>, color: Color) -> Map<u64, Color> {
    colors.union_prefer_right(Map::new(|f: u64| faces.contains(f), |f: u64| color))
}

/// Folds one shape into the face colours gathered so far: its solid colour,
/// if it has one, goes onto all its faces, then all its authored colours
/// are laid over.
pub open spec fn fold_shape_colors(colors: Map<u64, Color>, id: u64, faces: Seq<u64>, own: Map<u64, Color>) -> Map<u64, Color> {
    let painted = if own.contains_key(id) {
        paint_faces(colors, faces, own[id])
    } else {
        colors
    };
    painted.union_prefer_right(own)
}

/// The face colours gathered from the first `n` shapes, in order.
pub open spec fn face_colors_upto(shapes: Seq<ShapeColors>, n: int) -> Map<u64, Color>
    decreases n,
{
    if n <= 0 {
        Map::empty()
    } else {
        fold_shape_colors(
            face_colors_upto(shapes, n - 1),
            shapes[n - 1].id,
            shapes[n - 1].face_ids@,
            shapes[n - 1].colormap@,
        )
    }
}

fn paint(colors: &mut HashMap<u64, Color>, faces: &Vec<u64>, color: Color)
    ensures
        final(colors)@ == paint_faces(old(colors)@, faces@, color),
{
    broadcast use vstd::std_specs::hash::group_hash_axioms;

    let ghost start = colors@;
    let mut j: usize = 0;
    while j < faces.len()
        invariant
            j <= faces@.len(),
            colors@ == paint_faces(start, faces@.take(j as int), color),
        decreases faces.len() - j,
    {
        let ghost before = faces@.take(j as int);
        colors.insert(faces[j], color);
        proof {
            let after = faces@.take(j + 1);
            assert(after =~= before.push(faces@[j as int]));
            assert forall|f: u64| after.contains(f) <==> before.contains(f) || f == faces@[j as int] by {
                if after.contains(f) && f != faces@[j as int] {
                    let k = choose|k: int| 0 <= k < after.len() && after[k] == f;
                    assert(before[k] == f);
                }
                if before.contains(f) {
                    let k = choose|k: int| 0 <= k < before.len() && before[k] == f;
                    assert(after[k] == f);
                }
                if f == faces@[j as int] {
                    assert(after[j as int] == f);
                }
            }
            assert(colors@ =~= paint_faces(start, after, color));
        }
        j = j + 1;
    }
    assert(faces@.take(faces@.len() as int) =~= faces@);
}

fn lay_over(colors: &mut HashMap<u64, Color>, own: &HashMap<u64, Color>)
    ensures
        final(colors)@ == old(colors)@.union_prefer_right(own@),
{
    broadcast use vstd::std_specs::hash::group_hash_axioms;

    let ghost start = colors@;
    for entry in it: own.iter()
        invariant
            forall|k: u64| #[trigger] colors@.contains_key(k) <==> start.contains_key(k) || exists|i: int|
                0 <= i < it.index@ && *it.seq()[i].0 == k,
            forall|k: u64| #[trigger]
                colors@.contains_key(k) ==> colors@[k] == if own@.contains_key(k) && exists|i: int|
                    0 <= i < it.index@ && *it.seq()[i].0 == k {
                    own@[k]
                } else {
                    start[k]
                },
    {
        let (key, value) = entry;
        colors.insert(*key, *value);
    }
    assert(colors@ =~= start.union_prefer_right(own@));
}


/// The face colours gathered over `shapes`, in order: each shape's solid
/// colour, if any, goes onto its faces, then its authored colours are laid
/// over; a later shape's colours win.
pub fn face_colors(shapes: &Vec<ShapeColors>) -> (colors: HashMap<u64, Color>)
    ensures
        colors@ == face_colors_upto(shapes@, shapes@.len() as int),
{
    broadcast use vstd::std_specs::hash::group_hash_axioms;

    let mut colors: HashMap<u64, Color> = HashMap::new();
    let mut k: usize = 0;
    while k < shapes.len()
        invariant
            k <= shapes@.len(),
            colors@ == face_colors_upto(shapes@, k as int),
        decreases shapes.len() - k,
    {
        let shape = &shapes[k];
        match shape.colormap.get(&shape.id) {
            Some(color) => paint(&mut colors, &shape.face_ids, *color),
            None => {},
        }
        lay_over(&mut colors, &shape.colormap);
        k = k + 1;
    }
    colors
}

/// The colour map of a mesh whose triangles carry the face ids
/// `mesh_face_ids`: every meshed face that has a gathered colour, with it.
pub fn mesh_colormap(shapes: &Vec<ShapeColors>, mesh_face_ids: &Vec<u64>) -> (colormap: HashMap<u64, Color>)
    ensures
        colormap@ == face_colors_upto(shapes@, shapes@.len() as int).restrict(mesh_face_ids@.to_set()),
{
    broadcast use vstd::std_specs::hash::group_hash_axioms;

    let colors = face_colors(shapes);
    let mut colormap: HashMap<u64, Color> = HashMap::new();
    let mut i: usize = 0;
    while i < mesh_face_ids.len()
        invariant
            i <= mesh_face_ids@.len(),
            colors@ == face_colors_upto(shapes@, shapes@.len() as int),
            colormap@ == colors@.restrict(mesh_face_ids@.take(i as int).to_set()),
        decreases mesh_face_ids.len() - i,
    {
        let face = mesh_face_ids[i];
        let ghost before = mesh_face_ids@.take(i as int);
        let ghost after = mesh_face_ids@.take(i + 1);
        proof {
            assert(after =~= before.push(face));
            assert forall|f: u64| after.to_set().contains(f) <==> before.to_set().contains(f) || f == face by {
                if after.contains(f) && f != face {
                    let k = choose|k: int| 0 <= k < after.len() && after[k] == f;
                    assert(before[k] == f);
                }
                if before.contains(f) {
                    let k = choose|k: int| 0 <= k < before.len() && before[k] == f;
                    assert(after[k] == f);
                }
                if f == face {
                    assert(after[i as int] == f);
                }
            }
        }
        match colors.get(&face) {
            Some(color) => {
                colormap.insert(face, *color);
            },
            None => {},
        }
        assert(colormap@ =~= colors@.restrict(after.to_set()));
        i = i + 1;
    }
    assert(mesh_face_ids@.take(mesh_face_ids@.len() as int) =~= mesh_face_ids@);
    colormap
}

/// Within one shape, a face's own colour wins over the solid's colour, the
/// solid's colour covers its other faces, and nothing else changes.
pub proof fn lemma_face_color_wins_over_solid_color(
    colors: Map<u64, Color>,
    id: u64,
    faces: Seq<u64>,
    own: Map<u64, Color>,
    f: u64,
)
    ensures
        own.contains_key(f) ==> fold_shape_colors(colors, id, faces, own).contains_key(f)
            && fold_shape_colors(colors, id, faces, own)[f] == own[f],
        !own.contains_key(f) && own.contains_key(id) && faces.contains(f) ==> fold_shape_colors(
            colors,
            id,
            faces,
            own,
        ).contains_key(f) && fold_shape_colors(colors, id, faces, own)[f] == own[id],
        !own.contains_key(f) && !(own.contains_key(id) && faces.contains(f)) ==> (fold_shape_colors(
            colors,
            id,
            faces,
            own,
        ).contains_key(f) == colors.contains_key(f)) && (colors.contains_key(f) ==> fold_shape_colors(
            colors,
            id,
            faces,
            own,
        )[f] == colors[f]),
{
}


/// Whether shape `s` colours face `f`: it has a colour keyed `f`, or it has a
/// solid colour and `f` is one of its faces.
pub open spec fn shape_colors_face(s: ShapeColors, f: u64) -> bool {
    s.colormap@.contains_key(f) || (s.colormap@.contains_key(s.id) && s.face_ids@.contains(f))
}

/// The colour shape `s` gives face `f`: its colour keyed `f` if it has one,
/// otherwise its solid colour.
pub open spec fn shape_color_for(s: ShapeColors, f: u64) -> Color {
    if s.colormap@.contains_key(f) {
        s.colormap@[f]
    } else {
        s.colormap@[s.id]
    }
}

/// Over several shapes, a face has a gathered colour exactly when some shape
/// colours it, and then it is the colour the last such shape gives it: that
/// shape's colour keyed by the face, or else that shape's solid colour.
pub proof fn lemma_face_colors_come_from_last_coloring_shape(shapes: Seq<ShapeColors>, n: int, f: u64)
    requires
        0 <= n <= shapes.len(),
    ensures
        face_colors_upto(shapes, n).contains_key(f) <==> exists|k: int|
            0 <= k < n && shape_colors_face(#[trigger] shapes[k], f),
        forall|k: int|
            0 <= k < n && shape_colors_face(#[trigger] shapes[k], f) && (forall|j: int|
                k < j < n ==> !shape_colors_face(#[trigger] shapes[j], f)) ==> face_colors_upto(shapes, n)[f]
                == shape_color_for(shapes[k], f),
    decreases n,
{
    if n > 0 {
        lemma_face_colors_come_from_last_coloring_shape(shapes, n - 1, f);
        let last = shapes[n - 1];
        let prev = face_colors_upto(shapes, n - 1);
        lemma_face_color_wins_over_solid_color(prev, last.id, last.face_ids@, last.colormap@, f);
        if shape_colors_face(last, f) {
            assert forall|k: int|
                0 <= k < n && shape_colors_face(#[trigger] shapes[k], f) && (forall|j: int|
                    k < j < n ==> !shape_colors_face(#[trigger] shapes[j], f)) implies face_colors_upto(shapes, n)[f]
                == shape_color_for(shapes[k], f) by {
                if k < n - 1 {
                    assert(!shape_colors_face(shapes[n - 1], f));
                }
            }
        } else {
            assert forall|k: int|
                0 <= k < n && shape_colors_face(#[trigger] shapes[k], f) && (forall|j: int|
                    k < j < n ==> !shape_colors_face(#[trigger] shapes[j], f)) implies face_colors_upto(shapes, n)[f]
                == shape_color_for(shapes[k], f) by {
                assert(k < n - 1);
                assert(forall|j: int| k < j < n - 1 ==> !shape_colors_face(#[trigger] shapes[j], f));
            }
            if exists|k: int| 0 <= k < n && shape_colors_face(#[trigger] shapes[k], f) {
                let k = choose|k: int| 0 <= k < n && shape_colors_face(#[trigger] shapes[k], f);
                assert(k < n - 1);
            }
        }
    }
}

/// A mesh's colour map holds only meshed faces; a meshed face has a colour
/// exactly when some input shape colours it, and then it is the colour the
/// last such shape gives it (a face colour winning over its solid's colour).
pub proof fn lemma_mesh_face_color(shapes: Seq<ShapeColors>, mesh_face_ids: Seq<u64>, f: u64)
    ensures
        ({
            let m = face_colors_upto(shapes, shapes.len() as int).restrict(mesh_face_ids.to_set());
            &&& m.contains_key(f) ==> mesh_face_ids.contains(f)
            &&& mesh_face_ids.contains(f) ==> (m.contains_key(f) <==> exists|k: int|
                0 <= k < shapes.len() && shape_colors_face(#[trigger] shapes[k], f))
            &&& forall|k: int|
                mesh_face_ids.contains(f) && 0 <= k < shapes.len() && shape_colors_face(#[trigger] shapes[k], f)
                    && (forall|j: int| k < j < shapes.len() ==> !shape_colors_face(#[trigger] shapes[j], f))
                    ==> m[f] == shape_color_for(shapes[k], f)
        }),
{
    lemma_face_colors_come_from_last_coloring_shape(shapes, shapes.len() as int, f);
}

} // verus!
