//! Display-only bodies recovered by a STEP import, and the bounded
//! tessellation presets they are meshed with.
use crate::error::Error;
use crate::trailer::Color;
use std::collections::HashMap;
use vstd::prelude::*;

verus! {

/// Bounded tessellation presets for a display-only [`StepVisualBody`].
///
/// Arbitrary chord tolerances are deliberately not accepted: a tiny tolerance
/// on untrusted exchange geometry can request an impractically large mesh.
/// Presets use absolute kernel millimetres, and each carries a hard output
/// budget. These meshes remain visual evidence only.
#[derive(Clone, Copy, Debug, PartialEq, Eq, Hash, Structural)]
pub enum StepVisualTessellation {
    Preview,
    Standard,
    High,
}

impl Default for StepVisualTessellation {
    fn default() -> (preset: Self)
        ensures
            preset == StepVisualTessellation::Standard,
    {
        StepVisualTessellation::Standard
    }
}

/// Kernel tessellation parameters held in exact integer units.
#[derive(Clone, Copy, Debug, PartialEq, Eq, Hash, Structural)]
pub struct Tessellation {
    /// Absolute chord deflection in micrometres (thousandths of a kernel millimetre).
    pub deflection_linear_um: u32,
    /// Angular deflection in milliradians.
    pub deflection_angular_mrad: u32,
    /// Whether the linear deflection is relative to the shape size.
    pub relative_linear: bool,
}

/// The parameters of a preset: tessellation, maximum vertex count, maximum
/// triangle count.
pub open spec fn preset_parameters(preset: StepVisualTessellation) -> (Tessellation, usize, usize) {
    match preset {
        StepVisualTessellation::Preview => (
            Tessellation { deflection_linear_um: 1000, deflection_angular_mrad: 750, relative_linear: false },
            300_000,
            100_000,
        ),
        StepVisualTessellation::Standard => (
            Tessellation { deflection_linear_um: 100, deflection_angular_mrad: 250, relative_linear: false },
            1_500_000,
            500_000,
        ),
        StepVisualTessellation::High => (
            Tessellation { deflection_linear_um: 10, deflection_angular_mrad: 100, relative_linear: false },
            6_000_000,
            2_000_000,
        ),
    }
}

/// The outcome of the output-size check for a mesh of `vertices` vertices and
/// `indices` triangle indices (three per triangle) under `preset`.
pub open spec fn mesh_budget_check(preset: StepVisualTessellation, vertices: usize, indices: usize) -> Result<(), Error> {
    let (_, max_vertices, max_triangles) = preset_parameters(preset);
    let triangles = indices / 3;
    if vertices > max_vertices || triangles > max_triangles {
        Err(Error::VisualMeshBudgetExceeded { vertices, triangles: triangles as usize, max_vertices, max_triangles })
    } else {
        Ok(())
    }
}

impl StepVisualTessellation {
    /// The preset's tessellation parameters and its vertex and triangle budgets.
    pub fn parameters(self) -> (parameters: (Tessellation, usize, usize))
        ensures
            parameters == preset_parameters(self),
            !parameters.0.relative_linear,
            parameters.1 == 3 * parameters.2,
            self == StepVisualTessellation::Preview ==> parameters.0.deflection_linear_um == 1000
                && parameters.0.deflection_angular_mrad == 750 && parameters.2 == 100_000,
            self == StepVisualTessellation::Standard ==> parameters.0.deflection_linear_um == 100
                && parameters.0.deflection_angular_mrad == 250 && parameters.2 == 500_000,
            self == StepVisualTessellation::High ==> parameters.0.deflection_linear_um == 10
                && parameters.0.deflection_angular_mrad == 100 && parameters.2 == 2_000_000,
    {
        match self {
            StepVisualTessellation::Preview => (
                Tessellation { deflection_linear_um: 1000, deflection_angular_mrad: 750, relative_linear: false },
                300_000,
                100_000,
            ),
            StepVisualTessellation::Standard => (
                Tessellation { deflection_linear_um: 100, deflection_angular_mrad: 250, relative_linear: false },
                1_500_000,
                500_000,
            ),
            StepVisualTessellation::High => (
                Tessellation { deflection_linear_um: 10, deflection_angular_mrad: 100, relative_linear: false },
                6_000_000,
                2_000_000,
            ),
        }
    }

    /// Accepts a mesh of `vertices` vertices and `indices` triangle indices
    /// only when it fits the preset's vertex and triangle budgets.
    pub fn check_mesh_budget(self, vertices: usize, indices: usize) -> (outcome: Result<(), Error>)
        ensures
            outcome == mesh_budget_check(self, vertices, indices),
            outcome is Ok <==> vertices <= preset_parameters(self).1 && indices / 3 <= preset_parameters(self).2,
            outcome is Err ==> outcome == Err::<(), Error>(
                Error::VisualMeshBudgetExceeded {
                    vertices,
                    triangles: indices / 3,
                    max_vertices: preset_parameters(self).1,
                    max_triangles: preset_parameters(self).2,
                },
            ),
    {
        let (_, max_vertices, max_triangles) = self.parameters();
        let triangles = indices / 3;
        if vertices > max_vertices || triangles > max_triangles {
            return Err(Error::VisualMeshBudgetExceeded { vertices, triangles, max_vertices, max_triangles });
        }
        Ok(())
    }
}

/// The colour a colour map gives to a kernel id, if any.
pub open spec fn color_of(colors: Map<u64, Color>, id: u64) -> Option<Color> {
    if colors.contains_key(id) {
        Some(colors[id])
    } else {
        None
    }
}

/// A neutral, display-only body recovered during a STEP import.
///
/// It makes no source-ownership or physical-solid claim and exposes only its
/// kernel identity, opaque face views and read-only colour queries.
pub struct StepVisualBody {
    id: u64,
    face_ids: Vec<u64>,
    colormap: HashMap<u64, Color>,
}

/// One opaque face view owned by a display-only STEP body: a source-selection
/// identity and an effective display colour, nothing that could build geometry.
#[derive(Clone, Copy)]
pub struct StepVisualFace<'a> {
    body: &'a StepVisualBody,
    id: u64,
}

impl StepVisualBody {
    /// The body's kernel `TShape` identity.
    pub closed spec fn kernel_id(&self) -> u64 {
        self.id
    }

    /// The kernel ids of the body's faces, in topology order.
    pub closed spec fn face_id_seq(&self) -> Seq<u64> {
        self.face_ids@
    }

    /// The body's authored colours by kernel id (its own and its faces').
    pub closed spec fn color_map(&self) -> Map<u64, Color> {
        self.colormap@
    }

    /// A display-only body with kernel id `id`, faces `face_ids` and colours `colormap`.
    pub fn new(id: u64, face_ids: Vec<u64>, colormap: HashMap<u64, Color>) -> (body: Self)
        ensures
            body.kernel_id() == id,
            body.face_id_seq() == face_ids@,
            body.color_map() == colormap@,
    {
        StepVisualBody { id, face_ids, colormap }
    }

    /// Import-local kernel `TShape` identity for display selection and binding lookup.
    pub fn id(&self) -> (id: u64)
        ensures
            id == self.kernel_id(),
    {
        self.id
    }

    /// The body's opaque display faces, in topology order.
    pub fn iter_face(&self) -> (faces: Vec<StepVisualFace<'_>>)
        ensures
            faces@.len() == self.face_id_seq().len(),
            forall|i: int|
                0 <= i < faces@.len() ==> (#[trigger] faces@[i]).face_id() == self.face_id_seq()[i]
                    && faces@[i].owner() == *self,
    {
        let mut faces: Vec<StepVisualFace<'_>> = Vec::new();
        let mut i: usize = 0;
        while i < self.face_ids.len()
            invariant
                i <= self.face_ids@.len(),
                faces@.len() == i,
                forall|j: int|
                    0 <= j < i ==> (#[trigger] faces@[j]).face_id() == self.face_ids@[j]
                        && faces@[j].owner() == *self,
            decreases self.face_ids.len() - i,
        {
            faces.push(StepVisualFace { body: self, id: self.face_ids[i] });
            i = i + 1;
        }
        faces
    }

    /// Authored body-level display colour, before any face-specific override.
    pub fn color(&self) -> (color: Option<Color>)
        ensures
            color == color_of(self.color_map(), self.kernel_id()),
            self.color_map().contains_key(self.kernel_id()) ==> color == Some(self.color_map()[self.kernel_id()]),
            !self.color_map().contains_key(self.kernel_id()) ==> color is None,
    {
        broadcast use vstd::std_specs::hash::group_hash_axioms;

        match self.colormap.get(&self.id) {
            Some(color) => Some(*color),
            None => None,
        }
    }
}

impl<'a> StepVisualFace<'a> {
    /// The face's kernel `TShape` identity.
    pub closed spec fn face_id(&self) -> u64 {
        self.id
    }

    /// The display-only body the face belongs to.
    pub closed spec fn owner(&self) -> StepVisualBody {
        *self.body
    }

    /// Import-local kernel identity of the face.
    pub fn id(&self) -> (id: u64)
        ensures
            id == self.face_id(),
    {
        self.id
    }

    /// Effective display colour: a face colour overrides its body's colour.
    pub fn color(&self) -> (color: Option<Color>)
        ensures
            color == (match color_of(self.owner().color_map(), self.face_id()) {
                Some(own) => Some(own),
                None => color_of(self.owner().color_map(), self.owner().kernel_id()),
            }),
            self.owner().color_map().contains_key(self.face_id()) ==> color == Some(
                self.owner().color_map()[self.face_id()],
            ),
            !self.owner().color_map().contains_key(self.face_id()) && self.owner().color_map().contains_key(
                self.owner().kernel_id(),
            ) ==> color == Some(self.owner().color_map()[self.owner().kernel_id()]),
            !self.owner().color_map().contains_key(self.face_id()) && !self.owner().color_map().contains_key(
                self.owner().kernel_id(),
            ) ==> color is None,
    {
        broadcast use vstd::std_specs::hash::group_hash_axioms;

        match self.body.colormap.get(&self.id) {
            Some(color) => Some(*color),
            None => self.body.color(),
        }
    }
}

/// Every preset refuses exactly the meshes over its vertex budget or its
/// triangle budget (three indices per triangle), reporting the sizes and the
/// budgets; every other mesh is accepted.
pub proof fn lemma_oversized_meshes_are_refused(preset: StepVisualTessellation, vertices: usize, indices: usize)
    ensures
        mesh_budget_check(preset, vertices, indices) is Ok <==> vertices <= preset_parameters(preset).1 && indices
            / 3 <= preset_parameters(preset).2,
        mesh_budget_check(preset, vertices, indices) is Err ==> mesh_budget_check(preset, vertices, indices)
            == Err::<(), Error>(
            Error::VisualMeshBudgetExceeded {
                vertices,
                triangles: indices / 3,
                max_vertices: preset_parameters(preset).1,
                max_triangles: preset_parameters(preset).2,
            },
        ),
{
}

/// Finer presets allow larger meshes and ask for smaller tolerances; all are
/// absolute, and each allows three vertices per allowed triangle.
pub proof fn lemma_presets_are_ordered()
    ensures
        ({
            let p = preset_parameters(StepVisualTessellation::Preview);
            let s = preset_parameters(StepVisualTessellation::Standard);
            let h = preset_parameters(StepVisualTessellation::High);
            &&& p.1 < s.1 < h.1
            &&& p.2 < s.2 < h.2
            &&& p.0.deflection_linear_um > s.0.deflection_linear_um > h.0.deflection_linear_um
            &&& p.0.deflection_angular_mrad > s.0.deflection_angular_mrad > h.0.deflection_angular_mrad
            &&& !p.0.relative_linear && !s.0.relative_linear && !h.0.relative_linear
        }),
{
}

/// A colour map gives an id exactly the colour it holds for it, whatever its
/// channels, and nothing when it holds none.
pub proof fn lemma_color_of_is_the_held_color(colors: Map<u64, Color>, id: u64)
    ensures
        colors.contains_key(id) ==> color_of(colors, id) == Some(colors[id]),
        !colors.contains_key(id) ==> color_of(colors, id) is None,
{
}

} // verus!
