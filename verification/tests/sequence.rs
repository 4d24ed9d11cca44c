use cv_core::object::ObjectId;
use cv_core::placement::ScheduleRule;
use cv_core::sequence::{Held, Placed, Relaxations, Sequencer};
use cv_core::spine::Strictness;

fn oid(s: &str) -> ObjectId {
    ObjectId::derived("item", s)
}

/// A pool in key order, as a sorted map would hold it.
fn pool(entries: &[(&str, Vec<ScheduleRule>)]) -> Vec<(ObjectId, Vec<ScheduleRule>)> {
    let mut v: Vec<(ObjectId, Vec<ScheduleRule>)> =
        entries.iter().map(|(n, r)| (oid(n), r.clone())).collect();
    v.sort_by_key(|(id, _)| id.to_raw());
    v
}

#[test]
fn placed_after_holds_an_item_until_its_target_is_in() {
    let rules = vec![ScheduleRule::PlacedAfter { target: oid("key"), gap: (1, 3) }];
    let s = Sequencer::new();
    let mut placed = Placed::new();
    assert_eq!(
        s.holds(oid("door"), &rules, &placed, 2),
        Some(Held::AwaitingTarget { target: oid("key") })
    );
    placed.record(oid("key"), 1);
    assert_eq!(s.holds(oid("door"), &rules, &placed, 2), None);
}

#[test]
fn placed_after_enforces_the_gap_at_both_ends() {
    let rules = vec![ScheduleRule::PlacedAfter { target: oid("key"), gap: (2, 3) }];
    let s = Sequencer::new();
    let mut placed = Placed::new();
    placed.record(oid("key"), 1);
    assert!(matches!(s.holds(oid("door"), &rules, &placed, 2), Some(Held::GapNotMet { .. })));
    assert_eq!(s.holds(oid("door"), &rules, &placed, 3), None);
    assert!(matches!(s.holds(oid("door"), &rules, &placed, 9), Some(Held::GapNotMet { .. })));
}

#[test]
fn exclusive_with_removes_the_other_once_one_is_in() {
    let rules = vec![ScheduleRule::ExclusiveWith { other: oid("beam") }];
    let s = Sequencer::new();
    let mut placed = Placed::new();
    assert_eq!(s.holds(oid("wave"), &rules, &placed, 0), None);
    placed.record(oid("beam"), 0);
    assert_eq!(s.holds(oid("wave"), &rules, &placed, 0), Some(Held::ExcludedBy { other: oid("beam") }));
}

#[test]
fn supersedes_retires_the_base_and_is_asked_of_the_base() {
    let mut s = Sequencer::new();
    s.learn(oid("longshot"), &[ScheduleRule::Supersedes { base: oid("hookshot") }]);
    let mut placed = Placed::new();
    assert_eq!(
        s.holds(oid("hookshot"), &[], &placed, 0),
        None,
        "before the upgrade lands, the base is perfectly placeable"
    );
    placed.record(oid("longshot"), 2);
    assert_eq!(
        s.holds(oid("hookshot"), &[], &placed, 3),
        Some(Held::Superseded { by: oid("longshot") }),
        "a Longshot beside a Hookshot is one pickup too many, not variety"
    );
}

#[test]
fn sphere_pin_excludes_outside_its_range() {
    let rules = vec![ScheduleRule::SpherePin { min: 3, max: 5 }];
    let s = Sequencer::new();
    let placed = Placed::new();
    assert!(matches!(s.holds(oid("capstone"), &rules, &placed, 1), Some(Held::OutsideSpherePin { .. })));
    assert_eq!(s.holds(oid("capstone"), &rules, &placed, 4), None);
    assert!(matches!(s.holds(oid("capstone"), &rules, &placed, 6), Some(Held::OutsideSpherePin { .. })));
}

#[test]
fn a_permanent_hold_is_reported_ahead_of_a_temporary_one() {
    let mut s = Sequencer::new();
    s.learn(oid("up"), &[ScheduleRule::Supersedes { base: oid("base") }]);
    let mut placed = Placed::new();
    placed.record(oid("up"), 1);
    let rules = vec![ScheduleRule::PlacedAfter { target: oid("never"), gap: (1, 1) }];
    assert_eq!(s.holds(oid("base"), &rules, &placed, 2), Some(Held::Superseded { by: oid("up") }));
}

#[test]
fn permanence_separates_not_yet_from_never() {
    assert!(Held::Superseded { by: oid("x") }.is_permanent());
    assert!(Held::ExcludedBy { other: oid("x") }.is_permanent());
    assert!(!Held::AwaitingTarget { target: oid("x") }.is_permanent());
    assert!(!Held::OutsideSpherePin { min: 1, max: 2, sphere: 0 }.is_permanent());
}

#[test]
fn the_pool_shrinks_and_the_retirements_are_visible() {
    let mut s = Sequencer::new();
    s.learn(oid("up"), &[ScheduleRule::Supersedes { base: oid("base") }]);
    let p = pool(&[
        ("base", vec![]),
        ("up", vec![]),
        ("other", vec![ScheduleRule::SpherePin { min: 9, max: 9 }]),
    ]);
    let mut placed = Placed::new();
    assert_eq!(s.placeable(&p, &placed, 0).len(), 2, "base and up; not other");
    placed.record(oid("up"), 0);
    assert_eq!(s.placeable(&p, &placed, 1).len(), 1);
    let retired = s.retired(&p, &placed, 1);
    assert_eq!(retired.len(), 1);
    assert!(retired.iter().any(|(id, _)| *id == oid("base")));
    assert!(!retired.iter().any(|(id, _)| *id == oid("other")), "a sphere pin is not yet, not never");
}

#[test]
fn every_hold_explains_itself() {
    let holds = [
        Held::AwaitingTarget { target: oid("x") },
        Held::GapNotMet { target: oid("x"), gap: (1, 2) },
        Held::ExcludedBy { other: oid("x") },
        Held::Superseded { by: oid("x") },
        Held::OutsideSpherePin { min: 1, max: 2, sphere: 5 },
    ];
    for h in holds {
        assert!(!h.to_string().is_empty());
    }
}

#[test]
fn placements_are_tracked_per_item_rather_than_as_one_current_sphere() {
    let mut p = Placed::new();
    assert!(p.is_empty());
    p.record(oid("a"), 0);
    p.record(oid("b"), 4);
    assert_eq!(p.sphere_of(oid("a")), Some(0));
    assert_eq!(p.sphere_of(oid("b")), Some(4));
    assert_eq!(p.sphere_of(oid("c")), None);
    assert_eq!(p.len(), 2);
    assert!(p.contains(oid("a")));
}

// ---- further cases ----

#[test]
fn recording_an_item_again_moves_it_rather_than_counting_it_twice() {
    let mut p = Placed::new();
    p.record(oid("a"), 1);
    p.record(oid("a"), 5);
    assert_eq!(p.len(), 1);
    assert_eq!(p.sphere_of(oid("a")), Some(5));
}

#[test]
fn an_item_below_its_targets_sphere_is_held() {
    let key = ObjectId::derived("item", "key");
    let door = ObjectId::derived("item", "door");
    let rules = vec![ScheduleRule::PlacedAfter { target: key, gap: (0, 3) }];
    let s = Sequencer::new();
    let mut placed = Placed::new();
    placed.record(key, 5);
    assert_eq!(s.holds(door, &rules, &placed, 2), Some(Held::GapNotMet { target: key, gap: (0, 3) }));
    assert_eq!(s.holds(door, &rules, &placed, 5), None);
    assert_eq!(
        Held::OutsideSpherePin { min: 2, max: 4, sphere: 7 }.to_string(),
        "sphere 7 is outside its pin of 2..4"
    );
}

#[test]
fn a_preferred_relaxation_is_recorded_and_an_optional_one_is_not() {
    let mut r: Relaxations<&str> = Relaxations::new();
    assert!(r.honour(Strictness::Preferred, "nearest available"));
    assert_eq!(r.len(), 1);
    assert!(r.honour(Strictness::Optional, "skipped"), "dropping an optional one is legal");
    assert_eq!(r.len(), 1, "but an optional one is never promised, so it is not reported");
    assert_eq!(r.rows(), &["nearest available"]);
}

#[test]
fn a_required_strictness_is_never_relaxed_nor_recorded() {
    let mut r: Relaxations<&str> = Relaxations::default();
    assert!(!r.honour(Strictness::Required, "anything"));
    assert!(r.is_empty());
    assert!(!Strictness::Required.is_relaxable());
    assert!(Strictness::Optional.is_relaxable());
    assert!(Strictness::Preferred.relaxation_is_reportable());
    assert!(!Strictness::Optional.relaxation_is_reportable());
}

#[test]
fn nothing_is_both_placeable_and_retired_and_both_come_in_key_order() {
    let mut s = Sequencer::new();
    s.learn(oid("up"), &[ScheduleRule::Supersedes { base: oid("base") }]);
    let p = pool(&[
        ("base", vec![]),
        ("up", vec![]),
        ("other", vec![ScheduleRule::SpherePin { min: 9, max: 9 }]),
        ("free", vec![]),
    ]);
    let mut placed = Placed::new();
    placed.record(oid("up"), 0);
    let open = s.placeable(&p, &placed, 1);
    let retired = s.retired(&p, &placed, 1);
    assert!(open.iter().all(|id| !retired.iter().any(|(r, _)| r == id)));
    assert!(open.windows(2).all(|w| w[0] < w[1]));
    assert!(retired.windows(2).all(|w| w[0].0 < w[1].0));
    assert_eq!(open.len() + retired.len(), 3, "up, free and base; other is only held for now");
}
