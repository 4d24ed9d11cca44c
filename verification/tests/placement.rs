use cv_core::node::NodeKind;
use cv_core::object::ObjectId;
use cv_core::placement::{BudgetRef, Constraint, ItemClass, Role, RoleEvidence};
use cv_core::tag::TagQuery;

#[test]
fn forgetting_to_classify_makes_the_solver_more_careful_not_less() {
    assert_eq!(ItemClass::default(), ItemClass::Progression);
    assert!(ItemClass::default().may_gate());
}

#[test]
fn only_progression_may_appear_in_logic() {
    assert!(ItemClass::Progression.may_gate());
    for c in [ItemClass::Useful, ItemClass::Bonus, ItemClass::Filler] {
        assert!(!c.may_gate(), "{c:?} must never gate");
    }
}

#[test]
fn role_is_derived_from_what_the_search_ran_into() {
    assert_eq!(RoleEvidence::default().role(), Role::Decoration);
    assert_eq!(
        RoleEvidence { carried_a_route: true, ..Default::default() }.role(),
        Role::Traversal
    );
    assert_eq!(RoleEvidence { navigated_by: true, ..Default::default() }.role(), Role::Landmark);
}

#[test]
fn a_thing_that_both_gates_and_obstructs_is_reported_as_a_gate() {
    let e = RoleEvidence {
        gated_something: true,
        obstructed_a_route: true,
        carried_a_route: true,
        navigated_by: true,
    };
    assert_eq!(e.role(), Role::Gate);
}

#[test]
fn a_thing_with_no_mechanical_consequence_is_decoration() {
    assert_eq!(RoleEvidence::default().role(), Role::Decoration);
}

#[test]
fn the_door_states_key_to_lock_distance_because_the_key_cannot() {
    let tether = ObjectId::derived("actor", "tether");
    let c = Constraint::MinDistanceFrom { kind: tether, budget: BudgetRef(None) };
    assert_eq!(c.to_string(), format!("far from {}", tether.to_string()));
}

// ---- further cases ----

#[test]
fn an_obstacle_is_only_an_obstacle() {
    assert_eq!(RoleEvidence { obstructed_a_route: true, ..Default::default() }.role(), Role::Obstacle);
    assert_eq!(
        Constraint::SpherePin { min: 3, max: 12 }.to_string(),
        "in spheres 3–12"
    );
    assert_eq!(
        Constraint::WithinScope { scope: NodeKind::Area }.to_string(),
        "within a Area"
    );
    assert_eq!(Constraint::MountedOn { accepts: TagQuery::inherited("Surface.Roof") }.to_string(), "mounted on a matching socket");
}
