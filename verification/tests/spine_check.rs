use cv_core::object::ObjectId;
use cv_core::handle::Handle;
use cv_core::mission::Rule;
use cv_core::mission_graph::MissionGraph;
use cv_core::scope_graph::{Node, NodeGraph};
use cv_core::spine::{GrantSpec, SlotContents, SlotRole, SlotShape, SpineError, Strictness, UnlockRef};
use cv_core::spine_budget::{plan_slots, SlotPlan};
use cv_core::spine_budget::{SegmentBounds, SlotBinding};
use cv_core::node::NodeKind;
use cv_core::spine_check::{
    capacity_of, conflicting_required, grant_pick, instantiate_one, tightest_capacity, validate_all, wire_roles,
    SpineInstance, TemplateHeader, TemplateShape,
};

fn oid(ns: &str, name: &str) -> ObjectId {
    ObjectId::derived(ns, name)
}

/// A slot as validation reads it: its binding, topology and contents.
struct Slot {
    binding: SlotBinding,
    shape: SlotShape,
    contents: SlotContents,
    role: SlotRole,
}

fn slot(name: &str) -> Slot {
    Slot {
        binding: SlotBinding { name: name.into(), strictness: None },
        shape: SlotShape::default(),
        contents: SlotContents::default(),
        role: SlotRole::Interior,
    }
}

fn template(id: ObjectId, slots: Vec<Slot>, segments: Vec<(SegmentBounds, Option<UnlockRef>)>) -> TemplateShape {
    let mut t = TemplateShape {
        id,
        applies_to: NodeKind::Reach,
        strictness: Strictness::Required,
        slots: Vec::new(),
        shapes: Vec::new(),
        contents: Vec::new(),
        segments: Vec::new(),
        gates: Vec::new(),
        roles: Vec::new(),
    };
    for s in slots {
        t.slots.push(s.binding);
        t.shapes.push(s.shape);
        t.contents.push(s.contents);
        t.roles.push(s.role);
    }
    for (s, g) in segments {
        t.segments.push(s);
        t.gates.push(g);
    }
    t
}

fn seg(from: &str, to: &str, soft_min: u32, hard_max: u32) -> (SegmentBounds, Option<UnlockRef>) {
    (SegmentBounds { from: from.into(), to: to.into(), soft_min, hard_max }, None)
}

/// Start, then a capstone holding the boss, then a terminal holding the beacon and adjacent to
/// the capstone; one to four scopes between start and capstone, and a direct exit.
fn example_spine() -> TemplateShape {
    let mut capstone = slot("capstone");
    capstone.contents.must_contain = vec![oid("actor", "boss")];
    let mut terminal = slot("terminal");
    terminal.contents.must_contain = vec![oid("actor", "beacon")];
    terminal.shape.adjacent_to = vec!["capstone".into()];
    template(
        oid("spine", "reach_loop"),
        vec![slot("start"), capstone, terminal],
        vec![seg("start", "capstone", 1, 4), seg("capstone", "terminal", 0, 0)],
    )
}

#[test]
fn validation_reports_a_budget_shortfall_with_the_arithmetic() {
    let registry = vec![oid("actor", "boss"), oid("actor", "beacon")];
    let spine = example_spine();
    let v = spine.validate(&registry, 2);
    assert!(!v.is_ok());
    let message = v.errors[0].to_string();
    assert!(message.contains("needs 4 scopes"), "{message}");
    assert!(message.contains("2 are available"), "{message}");
    assert_eq!(v.errors, vec![SpineError::BudgetTooSmall { needed: 4, available: 2 }]);
    assert!(spine.validate(&registry, 4).is_ok());
}

#[test]
fn validation_catches_missing_content_and_bad_references() {
    let v = example_spine().validate(&[], 10);
    assert!(v.errors.iter().any(|e| matches!(e, SpineError::ContentUnavailable { .. })));
    assert_eq!(
        v.errors,
        vec![
            SpineError::ContentUnavailable { slot: "capstone".into(), content: oid("actor", "boss") },
            SpineError::ContentUnavailable { slot: "terminal".into(), content: oid("actor", "beacon") },
        ]
    );

    let mut a = slot("a");
    a.shape.adjacent_to = vec!["nowhere".into()];
    let dangling = template(oid("spine", "x"), vec![a], vec![]);
    let v = dangling.validate(&[], 10);
    assert!(v.errors.iter().any(|e| matches!(e, SpineError::UnknownSlot { .. })));
    assert_eq!(
        v.errors,
        vec![SpineError::UnknownSlot { referenced_by: "a".into(), name: "nowhere".into() }]
    );

    let duplicate = template(oid("spine", "y"), vec![slot("a"), slot("a")], vec![]);
    assert!(duplicate
        .validate(&[], 10)
        .errors
        .iter()
        .any(|e| matches!(e, SpineError::DuplicateSlot { .. })));

    assert!(template(oid("spine", "z"), vec![], vec![])
        .validate(&[], 10)
        .errors
        .contains(&SpineError::Empty));
}

#[test]
fn a_requirement_granted_only_later_is_rejected() {
    let mut start = slot("start");
    start.contents.requires = Some(UnlockRef::GrantedBy("capstone".into()));
    let mut capstone = slot("capstone");
    capstone.contents.grants = Some(GrantSpec::any_of(&[oid("unlock", "dash")]));
    let backwards = template(oid("spine", "cycle"), vec![start, capstone], vec![]);
    let v = backwards.validate(&[], 10);
    assert!(v.errors.iter().any(|e| matches!(e, SpineError::GrantOrderViolation { .. })));

    let mut precursor = slot("precursor");
    precursor.contents.grants = Some(GrantSpec::any_of(&[oid("unlock", "dash")]));
    let mut capstone = slot("capstone");
    capstone.contents.requires = Some(UnlockRef::GrantedBy("precursor".into()));
    let forwards = template(oid("spine", "ok"), vec![precursor, capstone], vec![]);
    assert!(forwards.validate(&[], 10).is_ok());
}

#[test]
fn soft_slots_warn_rather_than_fail() {
    let mut landmark = slot("landmark");
    landmark.binding.strictness = Some(Strictness::Preferred);
    landmark.contents.must_contain = vec![oid("actor", "absent")];
    let spine = template(oid("spine", "soft"), vec![slot("start"), landmark], vec![]);
    let v = spine.validate(&[], 10);
    assert!(v.is_ok(), "a soft slot must not block generation");
    assert!(!v.warnings.is_empty(), "but it must be surfaced while authoring");
    assert!(v.warnings[0].to_string().contains("landmark"));
    assert_eq!(
        v.warnings[0].detail,
        format!("{} is not registered; this slot will be dropped", oid("actor", "absent").to_string())
    );
}

#[test]
fn more_declared_slots_than_scopes_warns_when_the_required_ones_fit() {
    let mut soft = slot("soft");
    soft.binding.strictness = Some(Strictness::Optional);
    let spine = template(oid("spine", "tight"), vec![slot("a"), soft], vec![]);
    let v = spine.validate(&[], 1);
    assert!(v.is_ok());
    assert_eq!(v.warnings.len(), 1);
    assert_eq!(v.warnings[0].subject, oid("spine", "tight").to_string());
    assert_eq!(
        v.warnings[0].detail,
        "2 slots declared but only 1 scopes available; softer slots will be dropped and reported"
    );
}

#[test]
fn a_ceiling_that_cannot_hold_what_the_slot_asks_is_a_contradiction() {
    let mut hub = slot("hub");
    hub.shape.max_degree = Some(1);
    hub.shape.min_degree = Some(2);
    hub.shape.adjacent_to = vec!["d".into()];
    let spine = template(
        oid("spine", "deg"),
        vec![slot("a"), slot("b"), hub, slot("d"), slot("e")],
        vec![],
    );
    let v = spine.validate(&[], 3);
    assert_eq!(
        v.errors,
        vec![
            SpineError::BudgetTooSmall { needed: 5, available: 3 },
            SpineError::DegreeContradiction {
                slot: "hub".into(),
                max: 1,
                required: 2,
                because: "min_degree".into(),
            },
        ],
        "the adjacency to the next slot rides the chain and costs nothing extra"
    );
    let mut far = slot("far");
    far.shape.max_degree = Some(1);
    far.shape.adjacent_to = vec!["a".into()];
    let spine = template(oid("spine", "deg2"), vec![slot("a"), slot("b"), far], vec![]);
    let v = spine.validate(&[], 10);
    assert_eq!(
        v.errors,
        vec![SpineError::DegreeContradiction {
            slot: "far".into(),
            max: 1,
            required: 2,
            because: "1 route in + 1 declared adjacency".into(),
        }]
    );
}

#[test]
fn a_binding_slot_needing_more_neighbours_than_scopes_is_infeasible() {
    let mut hub = slot("hub");
    hub.shape.min_degree = Some(4);
    let v = template(oid("spine", "inf"), vec![hub], vec![]).validate(&[], 4);
    assert_eq!(
        v.errors,
        vec![SpineError::DegreeInfeasible { slot: "hub".into(), needed: 4, available: 3 }]
    );
}

#[test]
fn an_empty_slot_told_to_hold_something_names_each_demand() {
    let mut vault = slot("vault");
    vault.contents.empty = true;
    vault.contents.must_contain = vec![oid("actor", "boss")];
    vault.contents.grants = Some(GrantSpec::default());
    let v = template(oid("spine", "empty"), vec![vault], vec![]).validate(&[oid("actor", "boss")], 10);
    assert_eq!(
        v.errors,
        vec![
            SpineError::EmptyContradiction { slot: "vault".into(), because: "must_contain".into() },
            SpineError::EmptyContradiction { slot: "vault".into(), because: "grants".into() },
        ]
    );
}

#[test]
fn segments_must_join_slots_that_exist_and_be_gated_by_an_earlier_one() {
    let (bounds, _) = seg("a", "b", 0, 0);
    let gated = (bounds, Some(UnlockRef::GrantedBy("c".into())));
    let v = template(
        oid("spine", "segs"),
        vec![slot("a"), slot("b"), slot("c")],
        vec![gated, seg("a", "ghost", 0, 0)],
    )
    .validate(&[], 10);
    assert_eq!(
        v.errors,
        vec![
            SpineError::GrantOrderViolation { slot: "segment a→b".into(), granted_by: "c".into() },
            SpineError::UnknownSlot { referenced_by: "segment a→ghost".into(), name: "ghost".into() },
        ]
    );
}

#[derive(Clone, Copy, Debug, PartialEq)]
struct Bounds;

type Scope = Handle<Node<Bounds>>;

/// A Reach of `n` Spaces.
fn rooms(n: usize) -> (Scope, Vec<Scope>) {
    let mut g: NodeGraph<Bounds> = NodeGraph::new(1.0f64.to_bits(), 1);
    let reach = g.add_child(g.root(), "reach").unwrap();
    let area = g.add_child(reach, "area").unwrap();
    let spaces = (0..n).map(|i| g.add_child(area, &format!("space_{i}")).unwrap()).collect();
    (reach, spaces)
}

#[test]
fn slots_take_scopes_in_order_after_their_gaps_and_never_spend_the_last_on_filler() {
    let plans = plan_slots(&[true, false, true, true], &[2, 5], 5);
    assert_eq!(
        plans,
        vec![
            SlotPlan::Placed { filler_from: 0, filler_to: 0, scope: 0 },
            SlotPlan::Dropped,
            SlotPlan::Placed { filler_from: 1, filler_to: 3, scope: 3 },
            SlotPlan::Placed { filler_from: 4, filler_to: 4, scope: 4 },
        ]
    );
    assert_eq!(plan_slots(&[true, true], &[0], 1), vec![
        SlotPlan::Placed { filler_from: 0, filler_to: 0, scope: 0 },
        SlotPlan::NoRoom,
    ]);
}

#[test]
fn a_grant_is_the_drawn_candidate_or_nothing() {
    let spec = GrantSpec::any_of(&[oid("unlock", "dash"), oid("unlock", "hook")]);
    assert_eq!(grant_pick(&Some(spec.clone()), 1), Some(oid("unlock", "hook")));
    assert_eq!(grant_pick(&Some(GrantSpec::default()), 0), None);
    assert_eq!(grant_pick(&None, 0), None);
}

#[test]
fn instantiation_places_every_kept_slot_and_chains_them() {
    let (reach, spaces) = rooms(5);
    let mut capstone = slot("capstone");
    capstone.contents.grants = Some(GrantSpec::any_of(&[oid("unlock", "dash")]));
    let mut vault = slot("vault");
    vault.contents.empty = true;
    vault.role = SlotRole::Goal;
    let mut start = slot("start");
    start.role = SlotRole::Start;
    let mut finale = slot("finale");
    finale.binding.strictness = Some(Strictness::Optional);
    let mut t = template(
        oid("spine", "loop"),
        vec![start, capstone, vault, finale],
        vec![seg("start", "capstone", 1, 1)],
    );
    t.gates[0] = Some(UnlockRef::GrantedBy("capstone".into()));
    let mut mission = MissionGraph::new(spaces[0]);
    let inst = instantiate_one(
        &t,
        reach,
        &[true, true, true, false],
        &["", "", "", "optional at adherence 0.00"].map(String::from),
        &[None, Some(oid("unlock", "dash")), None, None],
        &spaces,
        &mut mission,
    );
    assert_eq!(inst.template, oid("spine", "loop"));
    assert_eq!(inst.scope, reach);
    let placed: Vec<(String, Scope)> = inst.assignments.iter().map(|a| (a.slot.clone(), a.scope)).collect();
    assert_eq!(
        placed,
        vec![("start".into(), spaces[0]), ("capstone".into(), spaces[2]), ("vault".into(), spaces[3])],
        "one connective scope between start and capstone, as the segment asks"
    );
    assert_eq!(inst.assignments[1].granted, Some(oid("unlock", "dash")));
    assert_eq!(inst.relaxations.len(), 1);
    assert_eq!(inst.relaxations[0].slot, "finale");
    assert_eq!(inst.relaxations[0].reason, "optional at adherence 0.00");
    assert!(mission.connects(spaces[0], spaces[1]));
    assert!(mission.connects(spaces[1], spaces[2]));
    assert!(mission.connects(spaces[2], spaces[3]));
    assert_eq!(mission.edges().len(), 3);
    assert_eq!(mission.edges()[0].rule, Rule::Has(oid("unlock", "dash")), "the segment's gate resolves to the grant");
    assert_eq!(inst.empty, vec![spaces[3]]);
    assert!(mission.excludes_content(spaces[3]));
    assert_eq!(inst.start, Some(spaces[0]));
    assert_eq!(inst.goal, Some(spaces[3]));
}

#[test]
fn degree_floors_are_met_and_caps_over_the_limit_are_reported() {
    let (reach, spaces) = rooms(4);
    let mut hub = slot("hub");
    hub.shape.min_degree = Some(3);
    let mut tip = slot("tip");
    tip.shape.max_degree = Some(1);
    tip.shape.adjacent_to = vec!["hub".into()];
    let t = template(oid("spine", "hub"), vec![hub, tip], vec![]);
    let mut mission = MissionGraph::new(spaces[0]);
    let inst = instantiate_one(
        &t,
        reach,
        &[true, true],
        &[String::new(), String::new()],
        &[None, None],
        &spaces,
        &mut mission,
    );
    assert_eq!(inst.assignments[0].scope, spaces[0]);
    assert_eq!(inst.assignments[1].scope, spaces[1]);
    assert_eq!(mission.degree(spaces[0]), 3, "the hub reaches its floor");
    assert_eq!(mission.degree(spaces[1]), 1);
    assert!(inst.relaxations.is_empty());
    assert_eq!(mission.degree_cap(spaces[1]), Some(1));
}

fn header(name: &str, applies_to: NodeKind, strictness: Strictness) -> TemplateHeader {
    TemplateHeader { id: oid("spine", name), applies_to, strictness }
}

#[test]
fn two_required_spines_over_one_scope_kind_is_refused() {
    let clash = conflicting_required(&[
        header("a", NodeKind::Reach, Strictness::Required),
        header("b", NodeKind::Reach, Strictness::Required),
    ]);
    assert!(clash.iter().any(|e| matches!(e, SpineError::ConflictingRequiredSpines { .. })));
    assert_eq!(
        clash,
        vec![SpineError::ConflictingRequiredSpines {
            kind: NodeKind::Reach,
            first: oid("spine", "a"),
            second: oid("spine", "b"),
        }]
    );
    let composed = conflicting_required(&[
        header("a", NodeKind::Reach, Strictness::Required),
        header("b", NodeKind::Area, Strictness::Required),
    ]);
    assert!(composed.is_empty());
    let softened = conflicting_required(&[
        header("a", NodeKind::Reach, Strictness::Required),
        header("b", NodeKind::Reach, Strictness::Preferred),
    ]);
    assert!(softened.is_empty());
}

#[test]
fn a_third_required_spine_is_told_which_came_first() {
    let clash = conflicting_required(&[
        header("a", NodeKind::Reach, Strictness::Preferred),
        header("b", NodeKind::Reach, Strictness::Required),
        header("c", NodeKind::Reach, Strictness::Required),
        header("d", NodeKind::Reach, Strictness::Required),
    ]);
    assert_eq!(clash.len(), 2);
    assert!(clash.iter().all(|e| matches!(e, SpineError::ConflictingRequiredSpines { first, .. } if *first == oid("spine", "b"))));
}

fn instance(scope: Scope, start: Option<Scope>, goal: Option<Scope>) -> SpineInstance<Bounds> {
    SpineInstance {
        template: oid("spine", "loop"),
        scope,
        assignments: Vec::new(),
        relaxations: Vec::new(),
        empty: Vec::new(),
        start,
        goal,
    }
}

#[test]
fn the_world_begins_at_the_first_start_and_ends_at_the_last_goal() {
    let (reach, spaces) = rooms(4);
    let mut mission = MissionGraph::new(spaces[3]);
    wire_roles(
        &mut mission,
        &[
            instance(reach, None, Some(spaces[0])),
            instance(reach, Some(spaces[1]), Some(spaces[2])),
            instance(reach, Some(spaces[3]), None),
        ],
    );
    assert_eq!(mission.start(), spaces[1]);
    assert_eq!(mission.goal(), Some(spaces[2]));
    let mut untouched = MissionGraph::new(spaces[0]);
    wire_roles(&mut untouched, &[instance(reach, None, None)]);
    assert_eq!(untouched.start(), spaces[0]);
    assert_eq!(untouched.goal(), None);
}

#[test]
fn instantiator_validation_uses_the_tightest_instance_as_the_budget() {
    let mut g: NodeGraph<Bounds> = NodeGraph::new(1.0f64.to_bits(), 1);
    let mut reaches = Vec::new();
    for (r, spaces) in [8usize, 8, 2].into_iter().enumerate() {
        let reach = g.add_child(g.root(), &format!("reach_{r}")).unwrap();
        let area = g.add_child(reach, &format!("area_{r}")).unwrap();
        for s in 0..spaces {
            g.add_child(area, &format!("space_{r}_{s}")).unwrap();
        }
        reaches.push(reach);
    }
    assert_eq!(capacity_of(&g, reaches[0]), 8);
    assert_eq!(capacity_of(&g, reaches[2]), 2);
    assert_eq!(tightest_capacity(&g, NodeKind::Reach), 2);
    assert_eq!(tightest_capacity(&g, NodeKind::Spatial), 0, "no instance, no budget");
    let registry = vec![oid("actor", "boss"), oid("actor", "beacon")];
    let v = validate_all(&g, &[example_spine()], &registry);
    assert!(v.errors.iter().any(|e| matches!(e, SpineError::BudgetTooSmall { available: 2, .. })));
}
