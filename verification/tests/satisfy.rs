use cv_core::node::NodeKind;
use cv_core::object::ObjectId;
use cv_core::path::ClassPath;
use cv_core::placement::{BudgetRef, Constraint};
use cv_core::satisfy::{veto, Situation};
use cv_core::tag::{Tag, TagQuery};

fn plain() -> Situation {
    Situation::default()
}

#[test]
fn alone_in_scope_vetoes_only_an_occupied_scope_of_its_kind() {
    let c = Constraint::AloneInScope { scope: NodeKind::Space };
    let mut occupied = plain();
    occupied.occupants = vec![ClassPath::new("/Content/Props/Statue").unwrap()];
    let v = veto(&c, Some(NodeKind::Space), &occupied).expect("an occupied room is out");
    assert_eq!(v.by, "AloneInScope");
    assert_eq!(v.because, "1 already here");
    assert_eq!(v.to_string(), "AloneInScope: 1 already here");
    assert_eq!(veto(&c, Some(NodeKind::Space), &plain()), None);
    assert_eq!(veto(&c, Some(NodeKind::Area), &occupied), None, "another kind of scope is not its concern");
}

#[test]
fn within_scope_vetoes_every_other_kind_and_names_both() {
    let c = Constraint::WithinScope { scope: NodeKind::Space };
    assert_eq!(veto(&c, Some(NodeKind::Space), &plain()), None);
    let v = veto(&c, Some(NodeKind::World), &plain()).unwrap();
    assert_eq!(v.by, "WithinScope");
    assert_eq!(v.because, "this is a Some(World), not a Space");
    let v = veto(&c, None, &plain()).unwrap();
    assert_eq!(v.because, "this is a None, not a Space");
}

#[test]
fn not_within_scope_vetoes_only_its_kind() {
    let c = Constraint::NotWithinScope { scope: NodeKind::Space };
    let v = veto(&c, Some(NodeKind::Space), &plain()).unwrap();
    assert_eq!(v.by, "NotWithinScope");
    assert_eq!(v.because, "this is a Space");
    assert_eq!(veto(&c, Some(NodeKind::World), &plain()), None);
    assert_eq!(veto(&c, None, &plain()), None);
}

#[test]
fn mounted_on_needs_a_surface_whose_tags_the_query_matches() {
    let c = Constraint::MountedOn { accepts: TagQuery::inherited("Surface.Roof") };
    let mut roof = plain();
    roof.surface_tags = vec![vec![Tag::new("Surface.Stone")], vec![Tag::new("Surface.Roof.Shingle")]];
    assert_eq!(veto(&c, Some(NodeKind::Space), &roof), None);
    let mut stone = plain();
    stone.surface_tags = vec![vec![Tag::new("Surface.Stone")]];
    let v = veto(&c, Some(NodeKind::Space), &stone).unwrap();
    assert_eq!(v.by, "MountedOn");
    assert_eq!(v.because, "no matching socket here");
    assert!(veto(&c, Some(NodeKind::Space), &plain()).is_some(), "no surface at all matches nothing");
}

#[test]
fn sphere_pin_vetoes_outside_its_range_only() {
    let c = Constraint::SpherePin { min: 3, max: 5 };
    for sp in 0..8u32 {
        let mut s = plain();
        s.sphere = Some(sp);
        let v = veto(&c, Some(NodeKind::Space), &s);
        assert_eq!(v.is_none(), (3..=5).contains(&sp));
    }
    let mut s = plain();
    s.sphere = Some(12);
    let v = veto(&c, Some(NodeKind::Space), &s).unwrap();
    assert_eq!(v.by, "SpherePin");
    assert_eq!(v.because, "sphere 12 is outside 3..=5");
    assert_eq!(veto(&c, Some(NodeKind::Space), &plain()), None, "an unknown sphere is not held against it");
}

#[test]
fn distance_constraints_never_veto() {
    let door = ObjectId::derived("item", "door");
    let near = Constraint::MaxDistanceFrom { kind: door, budget: BudgetRef(None) };
    let far = Constraint::MinDistanceFrom { kind: door, budget: BudgetRef(None) };
    let mut s = plain();
    s.hops_to_lock = Some(0);
    assert_eq!(veto(&near, Some(NodeKind::Space), &s), None);
    assert_eq!(veto(&far, Some(NodeKind::Space), &s), None);
}
