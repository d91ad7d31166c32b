use vstd::prelude::*;

verus! {

/// Failures of the STEP/BRep reading, writing and meshing paths.
#[derive(Clone, Copy, Debug, PartialEq, Eq, Structural)]
pub enum Error {
    StepReadFailed,
    StepWriteFailed,
    BrepReadFailed,
    BrepWriteFailed,
    TriangulationFailed,
    /// A display-only mesh exceeded the output budget of its preset.
    VisualMeshBudgetExceeded { vertices: usize, triangles: usize, max_vertices: usize, max_triangles: usize },
}

} // verus!
