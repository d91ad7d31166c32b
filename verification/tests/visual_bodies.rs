use cadrum::{Color, Error, StepVisualBody, StepVisualTessellation};
use std::collections::HashMap;

#[test]
fn visual_step_profiles_are_explicit_absolute_kernel_millimetres() {
    let (preview, _, _) = StepVisualTessellation::Preview.parameters();
    let (standard, _, _) = StepVisualTessellation::Standard.parameters();
    let (high, _, _) = StepVisualTessellation::High.parameters();
    let millimetres = |um: u32| um as f64 / 1000.0;
    let radians = |mrad: u32| mrad as f64 / 1000.0;
    assert_eq!((millimetres(preview.deflection_linear_um), radians(preview.deflection_angular_mrad), preview.relative_linear), (1.0, 0.75, false));
    assert_eq!((millimetres(standard.deflection_linear_um), radians(standard.deflection_angular_mrad), standard.relative_linear), (0.1, 0.25, false));
    assert_eq!((millimetres(high.deflection_linear_um), radians(high.deflection_angular_mrad), high.relative_linear), (0.01, 0.1, false));
}

#[test]
fn presets_carry_output_budgets_and_standard_is_default() {
    assert_eq!(StepVisualTessellation::default(), StepVisualTessellation::Standard);
    let (_, v, t) = StepVisualTessellation::Preview.parameters();
    assert_eq!((v, t), (300_000, 100_000));
    let (_, v, t) = StepVisualTessellation::Standard.parameters();
    assert_eq!((v, t), (1_500_000, 500_000));
    let (_, v, t) = StepVisualTessellation::High.parameters();
    assert_eq!((v, t), (6_000_000, 2_000_000));
}

#[test]
fn mesh_budget_accepts_up_to_the_limits() {
    assert_eq!(StepVisualTessellation::Preview.check_mesh_budget(300_000, 300_002), Ok(()));
    assert_eq!(StepVisualTessellation::Preview.check_mesh_budget(0, 0), Ok(()));
}

#[test]
fn mesh_budget_rejects_oversized_meshes() {
    assert_eq!(
        StepVisualTessellation::Preview.check_mesh_budget(300_001, 30),
        Err(Error::VisualMeshBudgetExceeded { vertices: 300_001, triangles: 10, max_vertices: 300_000, max_triangles: 100_000 })
    );
    assert_eq!(
        StepVisualTessellation::Standard.check_mesh_budget(10, 1_500_003),
        Err(Error::VisualMeshBudgetExceeded { vertices: 10, triangles: 500_001, max_vertices: 1_500_000, max_triangles: 500_000 })
    );
    assert_eq!(StepVisualTessellation::High.check_mesh_budget(6_000_000, 6_000_000), Ok(()));
}

fn color(r: f32, g: f32, b: f32) -> Color {
    Color { r: r.to_bits(), g: g.to_bits(), b: b.to_bits() }
}

#[test]
fn visual_faces_expose_identity_and_effective_color() {
    let mut colors = HashMap::new();
    colors.insert(1, color(1.0, 0.0, 0.0));
    colors.insert(11, color(0.0, 1.0, 0.0));
    let body = StepVisualBody::new(1, vec![10, 11], colors);
    assert_eq!(body.id(), 1);
    assert_eq!(body.color(), Some(color(1.0, 0.0, 0.0)));
    let faces = body.iter_face();
    assert_eq!(faces.iter().map(|face| face.id()).collect::<Vec<_>>(), vec![10, 11]);
    // no face colour: the body's colour shows
    assert_eq!(faces[0].color(), Some(color(1.0, 0.0, 0.0)));
    // a face colour overrides the body's
    assert_eq!(faces[1].color(), Some(color(0.0, 1.0, 0.0)));
}

#[test]
fn uncolored_visual_body_has_no_colors() {
    let body = StepVisualBody::new(3, vec![4], HashMap::new());
    assert_eq!(body.color(), None);
    assert!(body.iter_face().iter().all(|face| face.color().is_none()));
    assert!(StepVisualBody::new(5, vec![], HashMap::new()).iter_face().is_empty());
}
