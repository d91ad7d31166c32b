use crate::index::{last_index_of, last_positions, lemma_last_index_of};
use std::collections::HashSet;
use vstd::prelude::*;

verus! {

/// STEP entity types for which the kernel exposes a direct topological transfer result.
#[derive(Clone, Copy, Debug, PartialEq, Eq, Hash, Structural)]
pub enum StepEntityKind {
    /// `MANIFOLD_SOLID_BREP` exactly, excluding its more specific subtypes.
    ManifoldSolidBrep,
    /// `BREP_WITH_VOIDS` exactly.
    BrepWithVoids,
    /// `FACETED_BREP` exactly.
    FacetedBrep,
    /// Complex `FACETED_BREP_AND_BREP_WITH_VOIDS`.
    FacetedBrepWithVoids,
    /// `ADVANCED_FACE` exactly.
    AdvancedFace,
}

/// The kernel topology category expected from a STEP entity transfer.
#[derive(Clone, Copy, Debug, PartialEq, Eq, Hash, Structural)]
pub enum StepTopologyKind {
    Solid,
    Face,
}

/// Why a source entity has no exact identity in the returned topology.
#[derive(Clone, Copy, Debug, PartialEq, Eq, Hash, Structural)]
pub enum StepTopologyUnboundReason {
    /// The kernel did not produce the entity's expected solid or face result.
    NoExpectedTransferResult,
    /// Import recovery rebuilt or discarded the transfer result.
    NotRetainedInReturnedTopology,
}

/// Exact kernel identity, or an explicit reason that no exact binding exists.
///
/// An exact identity names topology, not an assembly occurrence: locations are
/// deliberately excluded, so repeated occurrences may share one id.
#[derive(Clone, Copy, Debug, PartialEq, Eq, Hash, Structural)]
pub enum StepTopologyBindingTarget {
    Exact { kernel_tshape_id: u64 },
    Unbound { reason: StepTopologyUnboundReason },
}

/// Correspondence from a physical STEP `#id` to imported kernel topology.
#[derive(Clone, Copy, Debug, PartialEq, Eq, Hash, Structural)]
pub struct StepTopologyBinding {
    pub entity_number: u32,
    pub entity_kind: StepEntityKind,
    pub topology_kind: StepTopologyKind,
    pub target: StepTopologyBindingTarget,
}

/// The kernel identity a binding targets, if it is exact.
pub open spec fn exact_target(target: StepTopologyBindingTarget) -> Option<u64> {
    match target {
        StepTopologyBindingTarget::Exact { kernel_tshape_id } => Some(kernel_tshape_id),
        StepTopologyBindingTarget::Unbound { .. } => None,
    }
}

impl StepTopologyBinding {
    /// The exact kernel `TShape` identity, or `None` for an unbound entity.
    pub fn kernel_tshape_id(&self) -> (id: Option<u64>)
        ensures
            id == exact_target(self.target),
            id is Some <==> self.target is Exact,
            self.target matches StepTopologyBindingTarget::Exact { kernel_tshape_id } ==> id == Some(
                kernel_tshape_id,
            ),
    {
        match self.target {
            StepTopologyBindingTarget::Exact { kernel_tshape_id } => Some(kernel_tshape_id),
            StepTopologyBindingTarget::Unbound { .. } => None,
        }
    }
}


// Column encodings produced by the kernel's bound STEP reader.

/// Entity-kind code of the reader's binding columns.
pub open spec fn entity_kind_of_code(code: u8) -> Option<StepEntityKind> {
    if code == 1 {
        Some(StepEntityKind::ManifoldSolidBrep)
    } else if code == 2 {
        Some(StepEntityKind::BrepWithVoids)
    } else if code == 3 {
        Some(StepEntityKind::AdvancedFace)
    } else if code == 4 {
        Some(StepEntityKind::FacetedBrep)
    } else if code == 5 {
        Some(StepEntityKind::FacetedBrepWithVoids)
    } else {
        None
    }
}

/// Topology-kind code of the reader's binding columns.
pub open spec fn topology_kind_of_code(code: u8) -> Option<StepTopologyKind> {
    if code == 1 {
        Some(StepTopologyKind::Solid)
    } else if code == 2 {
        Some(StepTopologyKind::Face)
    } else {
        None
    }
}

/// Binding-status code of the reader's binding columns, with the `TShape` id
/// that an exact status carries.
pub open spec fn target_of_code(code: u8, tshape_id: u64) -> Option<StepTopologyBindingTarget> {
    if code == 1 {
        Some(StepTopologyBindingTarget::Exact { kernel_tshape_id: tshape_id })
    } else if code == 2 {
        Some(
            StepTopologyBindingTarget::Unbound {
                reason: StepTopologyUnboundReason::NoExpectedTransferResult,
            },
        )
    } else if code == 3 {
        Some(
            StepTopologyBindingTarget::Unbound {
                reason: StepTopologyUnboundReason::NotRetainedInReturnedTopology,
            },
        )
    } else {
        None
    }
}

/// The five columns all have the same length and every code in them is known.
pub open spec fn binding_columns_decodable(
    entity_numbers: Seq<u32>,
    entity_kinds: Seq<u8>,
    topology_kinds: Seq<u8>,
    binding_statuses: Seq<u8>,
    tshape_ids: Seq<u64>,
) -> bool {
    &&& entity_kinds.len() == entity_numbers.len()
    &&& topology_kinds.len() == entity_numbers.len()
    &&& binding_statuses.len() == entity_numbers.len()
    &&& tshape_ids.len() == entity_numbers.len()
    &&& forall|i: int| 0 <= i < entity_kinds.len() ==> #[trigger] entity_kind_of_code(entity_kinds[i]) is Some
    &&& forall|i: int| 0 <= i < topology_kinds.len() ==> #[trigger] topology_kind_of_code(topology_kinds[i]) is Some
    &&& forall|i: int|
        0 <= i < binding_statuses.len() ==> #[trigger] target_of_code(binding_statuses[i], 0) is Some
}

/// The binding decoded from row `i` of the columns.
pub open spec fn decoded_row(
    entity_numbers: Seq<u32>,
    entity_kinds: Seq<u8>,
    topology_kinds: Seq<u8>,
    binding_statuses: Seq<u8>,
    tshape_ids: Seq<u64>,
    i: int,
) -> StepTopologyBinding {
    StepTopologyBinding {
        entity_number: entity_numbers[i],
        entity_kind: entity_kind_of_code(entity_kinds[i]).unwrap(),
        topology_kind: topology_kind_of_code(topology_kinds[i]).unwrap(),
        target: target_of_code(binding_statuses[i], tshape_ids[i]).unwrap(),
    }
}

fn decode_entity_kind(code: u8) -> (kind: StepEntityKind)
    requires
        entity_kind_of_code(code) is Some,
    ensures
        Some(kind) == entity_kind_of_code(code),
{
    match code {
        1 => StepEntityKind::ManifoldSolidBrep,
        2 => StepEntityKind::BrepWithVoids,
        3 => StepEntityKind::AdvancedFace,
        4 => StepEntityKind::FacetedBrep,
        _ => StepEntityKind::FacetedBrepWithVoids,
    }
}

fn decode_topology_kind(code: u8) -> (kind: StepTopologyKind)
    requires
        topology_kind_of_code(code) is Some,
    ensures
        Some(kind) == topology_kind_of_code(code),
{
    match code {
        1 => StepTopologyKind::Solid,
        _ => StepTopologyKind::Face,
    }
}

fn decode_target(code: u8, tshape_id: u64) -> (target: StepTopologyBindingTarget)
    requires
        target_of_code(code, 0) is Some,
    ensures
        Some(target) == target_of_code(code, tshape_id),
{
    match code {
        1 => StepTopologyBindingTarget::Exact { kernel_tshape_id: tshape_id },
        2 => StepTopologyBindingTarget::Unbound {
            reason: StepTopologyUnboundReason::NoExpectedTransferResult,
        },
        _ => StepTopologyBindingTarget::Unbound {
            reason: StepTopologyUnboundReason::NotRetainedInReturnedTopology,
        },
    }
}

/// Whether the reader's binding columns can be decoded: equal lengths and
/// only known codes. [`decode_step_bindings`] requires exactly this.
pub fn binding_columns_are_decodable(
    entity_numbers: &Vec<u32>,
    entity_kinds: &Vec<u8>,
    topology_kinds: &Vec<u8>,
    binding_statuses: &Vec<u8>,
    tshape_ids: &Vec<u64>,
) -> (ok: bool)
    ensures
        ok == binding_columns_decodable(
            entity_numbers@,
            entity_kinds@,
            topology_kinds@,
            binding_statuses@,
            tshape_ids@,
        ),
        ok <==> {
            &&& entity_kinds@.len() == entity_numbers@.len()
            &&& topology_kinds@.len() == entity_numbers@.len()
            &&& binding_statuses@.len() == entity_numbers@.len()
            &&& tshape_ids@.len() == entity_numbers@.len()
            &&& forall|i: int|
                0 <= i < entity_numbers@.len() ==> 1 <= #[trigger] entity_kinds@[i] <= 5 && 1
                    <= topology_kinds@[i] <= 2 && 1 <= binding_statuses@[i] <= 3
        },
{
    let len = entity_numbers.len();
    if entity_kinds.len() != len || topology_kinds.len() != len || binding_statuses.len() != len
        || tshape_ids.len() != len {
        return false;
    }
    let mut i: usize = 0;
    while i < len
        invariant
            i <= len,
            len == entity_kinds.len(),
            len == topology_kinds.len(),
            len == binding_statuses.len(),
            forall|j: int|
                0 <= j < i ==> 1 <= #[trigger] entity_kinds@[j] <= 5 && 1 <= topology_kinds@[j] <= 2 && 1
                    <= binding_statuses@[j] <= 3,
        decreases len - i,
    {
        let e = entity_kinds[i];
        let t = topology_kinds[i];
        let b = binding_statuses[i];
        if e < 1 || e > 5 || t < 1 || t > 2 || b < 1 || b > 3 {
            proof {
                lemma_only_known_codes_decode(e, 0);
                lemma_only_known_codes_decode(t, 0);
                lemma_only_known_codes_decode(b, 0);
            }
            return false;
        }
        i = i + 1;
    }
    proof {
        assert forall|j: int| 0 <= j < len implies #[trigger] entity_kind_of_code(entity_kinds@[j]) is Some
            && topology_kind_of_code(topology_kinds@[j]) is Some && target_of_code(binding_statuses@[j], 0) is Some by {
            lemma_only_known_codes_decode(entity_kinds@[j], 0);
            lemma_only_known_codes_decode(topology_kinds@[j], 0);
            lemma_only_known_codes_decode(binding_statuses@[j], 0);
        }
        assert forall|j: int| 0 <= j < len implies #[trigger] topology_kind_of_code(topology_kinds@[j]) is Some by {
            assert(entity_kind_of_code(entity_kinds@[j]) is Some);
        }
        assert forall|j: int| 0 <= j < len implies #[trigger] target_of_code(binding_statuses@[j], 0) is Some by {
            assert(entity_kind_of_code(entity_kinds@[j]) is Some);
        }
    }
    true
}

/// Decodes the bound STEP reader's parallel columns into bindings, row by row.
pub fn decode_step_bindings(
    entity_numbers: Vec<u32>,
    entity_kinds: Vec<u8>,
    topology_kinds: Vec<u8>,
    binding_statuses: Vec<u8>,
    tshape_ids: Vec<u64>,
) -> (bindings: Vec<StepTopologyBinding>)
    requires
        binding_columns_decodable(
            entity_numbers@,
            entity_kinds@,
            topology_kinds@,
            binding_statuses@,
            tshape_ids@,
        ),
    ensures
        bindings@.len() == entity_numbers@.len(),
        forall|i: int|
            0 <= i < bindings@.len() ==> #[trigger] bindings@[i] == decoded_row(
                entity_numbers@,
                entity_kinds@,
                topology_kinds@,
                binding_statuses@,
                tshape_ids@,
                i,
            ),
        forall|i: int|
            0 <= i < bindings@.len() ==> row_decodes_as_tables_say(
                #[trigger] bindings@[i],
                entity_numbers@[i],
                entity_kinds@[i],
                topology_kinds@[i],
                binding_statuses@[i],
                tshape_ids@[i],
            ),
{
    let len = entity_numbers.len();
    let mut bindings: Vec<StepTopologyBinding> = Vec::new();
    let mut index: usize = 0;
    while index < len
        invariant
            index <= len,
            len == entity_numbers@.len(),
            binding_columns_decodable(
                entity_numbers@,
                entity_kinds@,
                topology_kinds@,
                binding_statuses@,
                tshape_ids@,
            ),
            bindings@.len() == index,
            forall|i: int|
                0 <= i < index ==> #[trigger] bindings@[i] == decoded_row(
                    entity_numbers@,
                    entity_kinds@,
                    topology_kinds@,
                    binding_statuses@,
                    tshape_ids@,
                    i,
                ),
        decreases len - index,
    {
        assert(entity_kind_of_code(entity_kinds@[index as int]) is Some);
        assert(topology_kind_of_code(topology_kinds@[index as int]) is Some);
        assert(target_of_code(binding_statuses@[index as int], 0) is Some);
        let entity_kind = decode_entity_kind(entity_kinds[index]);
        let topology_kind = decode_topology_kind(topology_kinds[index]);
        let target = decode_target(binding_statuses[index], tshape_ids[index]);
        bindings.push(
            StepTopologyBinding {
                entity_number: entity_numbers[index],
                entity_kind,
                topology_kind,
                target,
            },
        );
        index = index + 1;
    }
    proof {
        assert forall|i: int| 0 <= i < bindings@.len() implies row_decodes_as_tables_say(
            #[trigger] bindings@[i],
            entity_numbers@[i],
            entity_kinds@[i],
            topology_kinds@[i],
            binding_statuses@[i],
            tshape_ids@[i],
        ) by {
            lemma_code_tables(entity_kinds@[i], tshape_ids@[i]);
            lemma_code_tables(topology_kinds@[i], tshape_ids@[i]);
            lemma_code_tables(binding_statuses@[i], tshape_ids@[i]);
        }
    }
    bindings
}

/// The binding decoded from one row of codes is, field by field: the row's
/// physical entity number; entity kind 1 `MANIFOLD_SOLID_BREP`, 2
/// `BREP_WITH_VOIDS`, 3 `ADVANCED_FACE`, 4 `FACETED_BREP`, 5
/// `FACETED_BREP_AND_BREP_WITH_VOIDS`; topology 1 solid, 2 face; status 1
/// exact on the row's `TShape` id, 2 unbound for want of a transfer result, 3
/// unbound because recovery did not retain it.
pub open spec fn row_decodes_as_tables_say(
    binding: StepTopologyBinding,
    entity_number: u32,
    entity_kind: u8,
    topology_kind: u8,
    binding_status: u8,
    tshape_id: u64,
) -> bool {
    &&& binding.entity_number == entity_number
    &&& (entity_kind == 1 ==> binding.entity_kind == StepEntityKind::ManifoldSolidBrep)
    &&& (entity_kind == 2 ==> binding.entity_kind == StepEntityKind::BrepWithVoids)
    &&& (entity_kind == 3 ==> binding.entity_kind == StepEntityKind::AdvancedFace)
    &&& (entity_kind == 4 ==> binding.entity_kind == StepEntityKind::FacetedBrep)
    &&& (entity_kind == 5 ==> binding.entity_kind == StepEntityKind::FacetedBrepWithVoids)
    &&& (topology_kind == 1 <==> binding.topology_kind == StepTopologyKind::Solid)
    &&& (topology_kind == 2 <==> binding.topology_kind == StepTopologyKind::Face)
    &&& (binding_status == 1 ==> binding.target == (StepTopologyBindingTarget::Exact { kernel_tshape_id: tshape_id }))
    &&& (binding_status == 2 ==> binding.target == (StepTopologyBindingTarget::Unbound {
        reason: StepTopologyUnboundReason::NoExpectedTransferResult,
    }))
    &&& (binding_status == 3 ==> binding.target == (StepTopologyBindingTarget::Unbound {
        reason: StepTopologyUnboundReason::NotRetainedInReturnedTopology,
    }))
}

/// What each code means: the entity-kind, topology-kind and binding-status
/// tables of the bound reader's columns.
pub proof fn lemma_code_tables(code: u8, id: u64)
    ensures
        code == 1 ==> entity_kind_of_code(code) == Some(StepEntityKind::ManifoldSolidBrep),
        code == 2 ==> entity_kind_of_code(code) == Some(StepEntityKind::BrepWithVoids),
        code == 3 ==> entity_kind_of_code(code) == Some(StepEntityKind::AdvancedFace),
        code == 4 ==> entity_kind_of_code(code) == Some(StepEntityKind::FacetedBrep),
        code == 5 ==> entity_kind_of_code(code) == Some(StepEntityKind::FacetedBrepWithVoids),
        code == 1 <==> topology_kind_of_code(code) == Some(StepTopologyKind::Solid),
        code == 2 <==> topology_kind_of_code(code) == Some(StepTopologyKind::Face),
        code == 1 <==> target_of_code(code, id) == Some(StepTopologyBindingTarget::Exact { kernel_tshape_id: id }),
        code == 2 <==> target_of_code(code, id) == Some(
            StepTopologyBindingTarget::Unbound { reason: StepTopologyUnboundReason::NoExpectedTransferResult },
        ),
        code == 3 <==> target_of_code(code, id) == Some(
            StepTopologyBindingTarget::Unbound { reason: StepTopologyUnboundReason::NotRetainedInReturnedTopology },
        ),
{
}

/// Only the known codes decode: an unknown code is never taken for a default
/// kind or target.
pub proof fn lemma_only_known_codes_decode(code: u8, id: u64)
    ensures
        entity_kind_of_code(code) is Some <==> 1 <= code <= 5,
        topology_kind_of_code(code) is Some <==> 1 <= code <= 2,
        target_of_code(code, id) is Some <==> 1 <= code <= 3,
{
}

/// Distinct entity-kind codes never decode to the same kind: in particular
/// the faceted and voided solid kinds stay apart.
pub proof fn lemma_entity_kind_codes_do_not_collapse(a: u8, b: u8)
    requires
        entity_kind_of_code(a) is Some,
        entity_kind_of_code(a) == entity_kind_of_code(b),
    ensures
        a == b,
{
}

/// Every entity kind is the decoding of some code.
pub proof fn lemma_every_entity_kind_has_a_code(kind: StepEntityKind)
    ensures
        exists|code: u8| entity_kind_of_code(code) == Some(kind),
{
    match kind {
        StepEntityKind::ManifoldSolidBrep => assert(entity_kind_of_code(1) == Some(kind)),
        StepEntityKind::BrepWithVoids => assert(entity_kind_of_code(2) == Some(kind)),
        StepEntityKind::AdvancedFace => assert(entity_kind_of_code(3) == Some(kind)),
        StepEntityKind::FacetedBrep => assert(entity_kind_of_code(4) == Some(kind)),
        StepEntityKind::FacetedBrepWithVoids => assert(entity_kind_of_code(5) == Some(kind)),
    }
}

/// Distinct binding-status codes never decode to the same target, and only
/// the exact status carries the kernel id.
pub proof fn lemma_binding_status_codes_do_not_collapse(a: u8, b: u8, id: u64)
    requires
        target_of_code(a, id) is Some,
        target_of_code(a, id) == target_of_code(b, id),
    ensures
        a == b,
        exact_target(target_of_code(a, id).unwrap()) == (if a == 1 { Some(id) } else { None::<u64> }),
{
}


// Sorting decomposed bodies by what the bindings prove about them.

/// Where an imported body belongs, by what the bindings prove about it.
#[derive(Clone, Copy, Debug, PartialEq, Eq, Hash, Structural)]
pub enum StepBodyClass {
    /// An exact source solid definition: a solid binding targets the body itself.
    ExactSolid,
    /// Display-only: not a bound solid, but every one of its (at least one)
    /// faces is the exact target of a face binding.
    Recovered,
    /// Display-only: its source topology could not be proven exactly.
    Unbound,
}

/// The kernel ids that bindings of topology `kind` target exactly.
pub open spec fn exact_ids_of_kind(bindings: Seq<StepTopologyBinding>, kind: StepTopologyKind) -> Set<u64> {
    Set::new(
        |id: u64|
            exists|i: int|
                0 <= i < bindings.len() && #[trigger] bindings[i].topology_kind == kind
                    && exact_target(bindings[i].target) == Some(id),
    )
}

/// The class of a body with kernel id `body_id` and face ids `faces`.
pub open spec fn body_class(bindings: Seq<StepTopologyBinding>, body_id: u64, faces: Seq<u64>) -> StepBodyClass {
    if exact_ids_of_kind(bindings, StepTopologyKind::Solid).contains(body_id) {
        StepBodyClass::ExactSolid
    } else if faces.len() > 0 && (forall|j: int|
        0 <= j < faces.len() ==> exact_ids_of_kind(bindings, StepTopologyKind::Face).contains(
            #[trigger] faces[j],
        )) {
        StepBodyClass::Recovered
    } else {
        StepBodyClass::Unbound
    }
}

/// Extending the bindings by one adds that binding's exact id when it has the
/// kind, and nothing otherwise.
proof fn lemma_exact_ids_push(bindings: Seq<StepTopologyBinding>, binding: StepTopologyBinding, kind: StepTopologyKind)
    ensures
        exact_ids_of_kind(bindings.push(binding), kind) == if binding.topology_kind == kind
            && exact_target(binding.target) is Some {
            exact_ids_of_kind(bindings, kind).insert(exact_target(binding.target).unwrap())
        } else {
            exact_ids_of_kind(bindings, kind)
        },
{
    let next = bindings.push(binding);
    let grown = if binding.topology_kind == kind && exact_target(binding.target) is Some {
        exact_ids_of_kind(bindings, kind).insert(exact_target(binding.target).unwrap())
    } else {
        exact_ids_of_kind(bindings, kind)
    };
    assert forall|x: u64| exact_ids_of_kind(next, kind).contains(x) implies grown.contains(x) by {
        let j = choose|j: int|
            0 <= j < next.len() && #[trigger] next[j].topology_kind == kind && exact_target(next[j].target)
                == Some(x);
        if j < bindings.len() {
            assert(bindings[j] == next[j]);
        }
    }
    assert forall|x: u64| grown.contains(x) implies exact_ids_of_kind(next, kind).contains(x) by {
        if exact_ids_of_kind(bindings, kind).contains(x) {
            let j = choose|j: int|
                0 <= j < bindings.len() && #[trigger] bindings[j].topology_kind == kind
                    && exact_target(bindings[j].target) == Some(x);
            assert(next[j] == bindings[j]);
        } else {
            assert(next[bindings.len() as int] == binding);
        }
    }
    assert(exact_ids_of_kind(next, kind) =~= grown);
}

fn exact_ids(bindings: &Vec<StepTopologyBinding>, kind: StepTopologyKind) -> (ids: HashSet<u64>)
    ensures
        ids@ == exact_ids_of_kind(bindings@, kind),
{
    broadcast use vstd::std_specs::hash::group_hash_axioms;

    let mut ids: HashSet<u64> = HashSet::new();
    let mut i: usize = 0;
    while i < bindings.len()
        invariant
            i <= bindings.len(),
            ids@ == exact_ids_of_kind(bindings@.take(i as int), kind),
        decreases bindings.len() - i,
    {
        let binding = bindings[i];
        proof {
            assert(bindings@.take(i + 1) =~= bindings@.take(i as int).push(binding));
            lemma_exact_ids_push(bindings@.take(i as int), binding, kind);
        }
        if binding.topology_kind == kind {
            match binding.kernel_tshape_id() {
                Some(id) => {
                    ids.insert(id);
                },
                None => {},
            }
        }
        i = i + 1;
    }
    assert(bindings@.take(bindings@.len() as int) =~= bindings@);
    ids
}

fn classify_body(solid_ids: &HashSet<u64>, face_ids: &HashSet<u64>, body_id: u64, faces: &Vec<u64>) -> (class: StepBodyClass)
    ensures
        class == (if solid_ids@.contains(body_id) {
            StepBodyClass::ExactSolid
        } else if faces@.len() > 0 && (forall|j: int| 0 <= j < faces@.len() ==> face_ids@.contains(#[trigger] faces@[j])) {
            StepBodyClass::Recovered
        } else {
            StepBodyClass::Unbound
        }),
{
    broadcast use vstd::std_specs::hash::group_hash_axioms;

    if solid_ids.contains(&body_id) {
        return StepBodyClass::ExactSolid;
    }
    if faces.len() == 0 {
        return StepBodyClass::Unbound;
    }
    let mut j: usize = 0;
    while j < faces.len()
        invariant
            j <= faces@.len(),
            faces@.len() > 0,
            !solid_ids@.contains(body_id),
            forall|k: int| 0 <= k < j ==> face_ids@.contains(#[trigger] faces@[k]),
        decreases faces.len() - j,
    {
        if !face_ids.contains(&faces[j]) {
            assert(!face_ids@.contains(faces@[j as int]));
            return StepBodyClass::Unbound;
        }
        j = j + 1;
    }
    StepBodyClass::Recovered
}

/// Classifies each decomposed body (kernel id `body_ids[k]`, face ids
/// `body_face_ids[k]`): exact solid, recovered, or unbound.
pub fn classify_bodies(
    bindings: &Vec<StepTopologyBinding>,
    body_ids: &Vec<u64>,
    body_face_ids: &Vec<Vec<u64>>,
) -> (classes: Vec<StepBodyClass>)
    requires
        body_face_ids@.len() == body_ids@.len(),
    ensures
        classes@.len() == body_ids@.len(),
        forall|k: int|
            0 <= k < classes@.len() ==> #[trigger] classes@[k] == body_class(
                bindings@,
                body_ids@[k],
                body_face_ids@[k]@,
            ),
        forall|k: int|
            0 <= k < classes@.len() ==> class_meaning(bindings@, body_ids@[k], body_face_ids@[k]@, #[trigger] classes@[k]),
{
    let solid_ids = exact_ids(bindings, StepTopologyKind::Solid);
    let face_ids = exact_ids(bindings, StepTopologyKind::Face);
    let mut classes: Vec<StepBodyClass> = Vec::new();
    let mut k: usize = 0;
    while k < body_ids.len()
        invariant
            k <= body_ids@.len(),
            body_face_ids@.len() == body_ids@.len(),
            solid_ids@ == exact_ids_of_kind(bindings@, StepTopologyKind::Solid),
            face_ids@ == exact_ids_of_kind(bindings@, StepTopologyKind::Face),
            classes@.len() == k,
            forall|m: int|
                0 <= m < k ==> #[trigger] classes@[m] == body_class(
                    bindings@,
                    body_ids@[m],
                    body_face_ids@[m]@,
                ),
        decreases body_ids.len() - k,
    {
        let class = classify_body(&solid_ids, &face_ids, body_ids[k], &body_face_ids[k]);
        classes.push(class);
        k = k + 1;
    }
    proof {
        assert forall|k: int| 0 <= k < classes@.len() implies class_meaning(
            bindings@,
            body_ids@[k],
            body_face_ids@[k]@,
            #[trigger] classes@[k],
        ) by {
            lemma_body_class_meaning(bindings@, body_ids@[k], body_face_ids@[k]@);
        }
    }
    classes
}

/// Some binding of topology `kind` targets kernel id `id` exactly.
pub open spec fn bound_exactly(bindings: Seq<StepTopologyBinding>, kind: StepTopologyKind, id: u64) -> bool {
    exists|i: int|
        0 <= i < bindings.len() && #[trigger] bindings[i].topology_kind == kind && bindings[i].target
            == (StepTopologyBindingTarget::Exact { kernel_tshape_id: id })
}

/// What a class says of a body, in terms of the bindings: exact solid when a
/// solid binding targets the body; recovered when none does but the body has
/// faces and every one is targeted by a face binding; unbound otherwise.
pub open spec fn class_meaning(
    bindings: Seq<StepTopologyBinding>,
    body_id: u64,
    faces: Seq<u64>,
    class: StepBodyClass,
) -> bool {
    &&& (class == StepBodyClass::ExactSolid <==> bound_exactly(bindings, StepTopologyKind::Solid, body_id))
    &&& (class == StepBodyClass::Recovered <==> !bound_exactly(bindings, StepTopologyKind::Solid, body_id)
        && faces.len() > 0 && forall|j: int|
        0 <= j < faces.len() ==> bound_exactly(bindings, StepTopologyKind::Face, #[trigger] faces[j]))
    &&& (class == StepBodyClass::Unbound <==> !bound_exactly(bindings, StepTopologyKind::Solid, body_id) && !(
    faces.len() > 0 && forall|j: int|
        0 <= j < faces.len() ==> bound_exactly(bindings, StepTopologyKind::Face, #[trigger] faces[j])))
}

proof fn lemma_exact_ids_are_bound(bindings: Seq<StepTopologyBinding>, kind: StepTopologyKind, id: u64)
    ensures
        exact_ids_of_kind(bindings, kind).contains(id) <==> bound_exactly(bindings, kind, id),
{
    if exact_ids_of_kind(bindings, kind).contains(id) {
        let i = choose|i: int|
            0 <= i < bindings.len() && #[trigger] bindings[i].topology_kind == kind && exact_target(
                bindings[i].target,
            ) == Some(id);
        assert(bindings[i].target == (StepTopologyBindingTarget::Exact { kernel_tshape_id: id }));
    }
    if bound_exactly(bindings, kind, id) {
        let i = choose|i: int|
            0 <= i < bindings.len() && #[trigger] bindings[i].topology_kind == kind && bindings[i].target
                == (StepTopologyBindingTarget::Exact { kernel_tshape_id: id });
        assert(exact_target(bindings[i].target) == Some(id));
    }
}

/// The class of every body means what its name says: exact solid exactly when
/// a solid binding targets the body itself; recovered exactly when no solid
/// binding does, the body has at least one face, and every face is the exact
/// target of a face binding; unbound otherwise.
pub proof fn lemma_body_class_meaning(bindings: Seq<StepTopologyBinding>, body_id: u64, faces: Seq<u64>)
    ensures
        class_meaning(bindings, body_id, faces, body_class(bindings, body_id, faces)),
{
    lemma_exact_ids_are_bound(bindings, StepTopologyKind::Solid, body_id);
    assert forall|j: int| 0 <= j < faces.len() implies (exact_ids_of_kind(bindings, StepTopologyKind::Face).contains(
        #[trigger] faces[j],
    ) <==> bound_exactly(bindings, StepTopologyKind::Face, faces[j])) by {
        lemma_exact_ids_are_bound(bindings, StepTopologyKind::Face, faces[j]);
    }
}

/// A body that no solid binding targets, with at least one face and every
/// face exactly bound as a face, is recovered.
pub proof fn lemma_fully_bound_faces_are_recovered(
    bindings: Seq<StepTopologyBinding>,
    body_id: u64,
    faces: Seq<u64>,
)
    requires
        !bound_exactly(bindings, StepTopologyKind::Solid, body_id),
        faces.len() > 0,
        forall|j: int| 0 <= j < faces.len() ==> bound_exactly(bindings, StepTopologyKind::Face, #[trigger] faces[j]),
    ensures
        body_class(bindings, body_id, faces) == StepBodyClass::Recovered,
{
    lemma_body_class_meaning(bindings, body_id, faces);
}

/// A body becomes an exact solid definition only when some solid binding
/// targets its own kernel id; reader recovery never does.
pub proof fn lemma_exact_solid_needs_a_solid_binding(
    bindings: Seq<StepTopologyBinding>,
    body_id: u64,
    faces: Seq<u64>,
)
    ensures
        body_class(bindings, body_id, faces) == StepBodyClass::ExactSolid <==> exists|i: int|
            0 <= i < bindings.len() && #[trigger] bindings[i].topology_kind == StepTopologyKind::Solid
                && bindings[i].target == (StepTopologyBindingTarget::Exact { kernel_tshape_id: body_id }),
{
    if body_class(bindings, body_id, faces) == StepBodyClass::ExactSolid {
        let i = choose|i: int|
            0 <= i < bindings.len() && #[trigger] bindings[i].topology_kind == StepTopologyKind::Solid
                && exact_target(bindings[i].target) == Some(body_id);
        assert(bindings[i].target == (StepTopologyBindingTarget::Exact { kernel_tshape_id: body_id }));
    }
    if exists|i: int|
        0 <= i < bindings.len() && #[trigger] bindings[i].topology_kind == StepTopologyKind::Solid
            && bindings[i].target == (StepTopologyBindingTarget::Exact { kernel_tshape_id: body_id }) {
        let i = choose|i: int|
            0 <= i < bindings.len() && #[trigger] bindings[i].topology_kind == StepTopologyKind::Solid
                && bindings[i].target == (StepTopologyBindingTarget::Exact { kernel_tshape_id: body_id });
        assert(exact_target(bindings[i].target) == Some(body_id));
        assert(exact_ids_of_kind(bindings, StepTopologyKind::Solid).contains(body_id));
    }
}

/// A recovered body has at least one face, and each of its faces is the exact
/// target of some face binding.
pub proof fn lemma_recovered_faces_are_exactly_bound(
    bindings: Seq<StepTopologyBinding>,
    body_id: u64,
    faces: Seq<u64>,
    j: int,
)
    requires
        body_class(bindings, body_id, faces) == StepBodyClass::Recovered,
        0 <= j < faces.len(),
    ensures
        faces.len() > 0,
        exists|i: int|
            0 <= i < bindings.len() && #[trigger] bindings[i].topology_kind == StepTopologyKind::Face
                && bindings[i].target == (StepTopologyBindingTarget::Exact { kernel_tshape_id: faces[j] }),
{
    assert(exact_ids_of_kind(bindings, StepTopologyKind::Face).contains(faces[j]));
    let i = choose|i: int|
        0 <= i < bindings.len() && #[trigger] bindings[i].topology_kind == StepTopologyKind::Face
            && exact_target(bindings[i].target) == Some(faces[j]);
    assert(bindings[i].target == (StepTopologyBindingTarget::Exact { kernel_tshape_id: faces[j] }));
}

// Occurrence placement scopes.

/// The index of the solid definition an occurrence of kernel id `id` refers
/// to: the last solid with that id, if any.
pub open spec fn definition_index_of(solid_ids: Seq<u64>, id: u64) -> Option<usize> {
    if last_index_of(solid_ids, id) >= 0 {
        Some(last_index_of(solid_ids, id) as usize)
    } else {
        None
    }
}

/// For each occurrence kernel id, the index into the solid definitions
/// (kernel ids `solid_ids`) that it places, if it places a supported one.
pub fn definition_indices(solid_ids: &Vec<u64>, occurrence_ids: &Vec<u64>) -> (indices: Vec<Option<usize>>)
    ensures
        indices@.len() == occurrence_ids@.len(),
        forall|k: int|
            0 <= k < indices@.len() ==> #[trigger] indices@[k] == definition_index_of(
                solid_ids@,
                occurrence_ids@[k],
            ),
        forall|k: int|
            0 <= k < indices@.len() ==> ((#[trigger] indices@[k] is None) <==> !solid_ids@.contains(occurrence_ids@[k])),
        forall|k: int|
            0 <= k < indices@.len() && #[trigger] indices@[k] is Some ==> {
                let j = indices@[k]->0 as int;
                &&& j < solid_ids@.len()
                &&& solid_ids@[j] == occurrence_ids@[k]
                &&& forall|m: int| j < m < solid_ids@.len() ==> solid_ids@[m] != occurrence_ids@[k]
            },
{
    broadcast use vstd::std_specs::hash::group_hash_axioms;

    let by_id = last_positions(solid_ids);
    let mut indices: Vec<Option<usize>> = Vec::new();
    let mut k: usize = 0;
    while k < occurrence_ids.len()
        invariant
            k <= occurrence_ids@.len(),
            forall|id: u64| #[trigger] by_id@.contains_key(id) <==> last_index_of(solid_ids@, id) >= 0,
            forall|id: u64| #[trigger]
                by_id@.contains_key(id) ==> by_id@[id] as int == last_index_of(solid_ids@, id),
            indices@.len() == k,
            forall|m: int|
                0 <= m < k ==> #[trigger] indices@[m] == definition_index_of(
                    solid_ids@,
                    occurrence_ids@[m],
                ),
        decreases occurrence_ids.len() - k,
    {
        let found = match by_id.get(&occurrence_ids[k]) {
            Some(index) => Some(*index),
            None => None,
        };
        indices.push(found);
        k = k + 1;
    }
    proof {
        assert(solid_ids@.len() == solid_ids.len());
        assert forall|k: int| 0 <= k < indices@.len() implies ((#[trigger] indices@[k] is None) <==> !solid_ids@.contains(
            occurrence_ids@[k],
        )) && (indices@[k] is Some ==> {
            let j = indices@[k]->0 as int;
            &&& j < solid_ids@.len()
            &&& solid_ids@[j] == occurrence_ids@[k]
            &&& forall|m: int| j < m < solid_ids@.len() ==> solid_ids@[m] != occurrence_ids@[k]
        }) by {
            lemma_definition_index_names_that_solid(solid_ids@, occurrence_ids@[k]);
        }
    }
    indices
}

/// An occurrence that refers to a definition refers to a solid with its own
/// kernel id, and to the last such solid.
pub proof fn lemma_definition_index_names_that_solid(solid_ids: Seq<u64>, id: u64)
    requires
        solid_ids.len() <= usize::MAX,
    ensures
        definition_index_of(solid_ids, id) is Some <==> solid_ids.contains(id),
        definition_index_of(solid_ids, id) matches Some(index) ==> {
            &&& index < solid_ids.len()
            &&& solid_ids[index as int] == id
            &&& forall|j: int| index < j < solid_ids.len() ==> solid_ids[j] != id
        },
{
    lemma_last_index_of(solid_ids, id);
}

} // verus!
