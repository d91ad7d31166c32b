use cadrum::{
    binding_columns_are_decodable, classify_bodies, decode_step_bindings, definition_indices, StepBodyClass,
    StepEntityKind, StepTopologyBinding, StepTopologyBindingTarget, StepTopologyKind, StepTopologyUnboundReason,
};

#[test]
fn decodes_every_exact_solid_entity_kind_without_collapsing_faceted_voids() {
    let bindings = decode_step_bindings(vec![10, 11, 12, 13], vec![1, 2, 4, 5], vec![1, 1, 1, 1], vec![1, 1, 1, 1], vec![100, 101, 102, 103]);
    assert_eq!(
        bindings.iter().map(|binding| binding.entity_kind).collect::<Vec<_>>(),
        [StepEntityKind::ManifoldSolidBrep, StepEntityKind::BrepWithVoids, StepEntityKind::FacetedBrep, StepEntityKind::FacetedBrepWithVoids,]
    );
}

#[test]
fn decodes_faces_statuses_and_keeps_physical_entity_numbers() {
    let bindings = decode_step_bindings(vec![197, 198, 199], vec![3, 3, 3], vec![2, 2, 2], vec![1, 2, 3], vec![500, 501, 502]);
    assert_eq!(bindings.len(), 3);
    assert_eq!(
        bindings[0],
        StepTopologyBinding {
            entity_number: 197,
            entity_kind: StepEntityKind::AdvancedFace,
            topology_kind: StepTopologyKind::Face,
            target: StepTopologyBindingTarget::Exact { kernel_tshape_id: 500 },
        }
    );
    assert_eq!(bindings[1].entity_number, 198);
    assert_eq!(bindings[1].target, StepTopologyBindingTarget::Unbound { reason: StepTopologyUnboundReason::NoExpectedTransferResult });
    assert_eq!(bindings[2].target, StepTopologyBindingTarget::Unbound { reason: StepTopologyUnboundReason::NotRetainedInReturnedTopology });
    assert_eq!(bindings[0].kernel_tshape_id(), Some(500));
    assert_eq!(bindings[1].kernel_tshape_id(), None);
    assert_eq!(bindings[2].kernel_tshape_id(), None);
}

#[test]
fn empty_columns_decode_to_no_bindings() {
    assert!(binding_columns_are_decodable(&vec![], &vec![], &vec![], &vec![], &vec![]));
    assert!(decode_step_bindings(vec![], vec![], vec![], vec![], vec![]).is_empty());
}

#[test]
fn undecodable_columns_are_detected() {
    assert!(binding_columns_are_decodable(&vec![1, 2], &vec![1, 5], &vec![1, 2], &vec![1, 3], &vec![7, 8]));
    // length mismatch in any column
    assert!(!binding_columns_are_decodable(&vec![1, 2], &vec![1], &vec![1, 2], &vec![1, 3], &vec![7, 8]));
    assert!(!binding_columns_are_decodable(&vec![1, 2], &vec![1, 2], &vec![1, 2], &vec![1, 3], &vec![7]));
    // unknown codes
    assert!(!binding_columns_are_decodable(&vec![1], &vec![6], &vec![1], &vec![1], &vec![7]));
    assert!(!binding_columns_are_decodable(&vec![1], &vec![0], &vec![1], &vec![1], &vec![7]));
    assert!(!binding_columns_are_decodable(&vec![1], &vec![1], &vec![3], &vec![1], &vec![7]));
    assert!(!binding_columns_are_decodable(&vec![1], &vec![1], &vec![1], &vec![4], &vec![7]));
}

fn binding(entity_number: u32, entity_kind: StepEntityKind, topology_kind: StepTopologyKind, target: StepTopologyBindingTarget) -> StepTopologyBinding {
    StepTopologyBinding { entity_number, entity_kind, topology_kind, target }
}

#[test]
fn classification_follows_exact_bindings() {
    let bindings = vec![
        binding(13, StepEntityKind::ManifoldSolidBrep, StepTopologyKind::Solid, StepTopologyBindingTarget::Exact { kernel_tshape_id: 1 }),
        binding(197, StepEntityKind::AdvancedFace, StepTopologyKind::Face, StepTopologyBindingTarget::Exact { kernel_tshape_id: 20 }),
        binding(198, StepEntityKind::AdvancedFace, StepTopologyKind::Face, StepTopologyBindingTarget::Exact { kernel_tshape_id: 21 }),
        binding(199, StepEntityKind::AdvancedFace, StepTopologyKind::Face, StepTopologyBindingTarget::Unbound { reason: StepTopologyUnboundReason::NotRetainedInReturnedTopology }),
        // a face binding that happens to target a body id does not make it a solid
        binding(200, StepEntityKind::AdvancedFace, StepTopologyKind::Face, StepTopologyBindingTarget::Exact { kernel_tshape_id: 4 }),
    ];
    let body_ids = vec![1, 2, 3, 4, 5];
    let body_faces = vec![vec![10, 11], vec![20, 21], vec![20, 22], vec![30], vec![]];
    let classes = classify_bodies(&bindings, &body_ids, &body_faces);
    assert_eq!(classes, vec![StepBodyClass::ExactSolid, StepBodyClass::Recovered, StepBodyClass::Unbound, StepBodyClass::Unbound, StepBodyClass::Unbound]);
}

#[test]
fn surface_recovery_never_becomes_a_solid_definition() {
    // Only face bindings: the body made from those faces is recovered, not a solid.
    let bindings = vec![
        binding(197, StepEntityKind::AdvancedFace, StepTopologyKind::Face, StepTopologyBindingTarget::Exact { kernel_tshape_id: 20 }),
        binding(198, StepEntityKind::AdvancedFace, StepTopologyKind::Face, StepTopologyBindingTarget::Exact { kernel_tshape_id: 21 }),
    ];
    let classes = classify_bodies(&bindings, &vec![20], &vec![vec![20, 21]]);
    assert_eq!(classes, vec![StepBodyClass::Recovered]);
}

#[test]
fn occurrences_find_the_last_definition_with_their_id() {
    let indices = definition_indices(&vec![7, 8, 7], &vec![7, 8, 9]);
    assert_eq!(indices, vec![Some(2), Some(1), None]);
    assert!(definition_indices(&vec![], &vec![1]).iter().all(|index| index.is_none()));
    assert!(definition_indices(&vec![1], &vec![]).is_empty());
}
