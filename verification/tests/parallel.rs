use cv_core::parallel::{NotSeriesParallel, ParallelGroup, SeriesParallel, SlotOrder};

/// Precursor, then { wing_a, wing_b }, then capstone.
fn wings() -> SeriesParallel {
    SeriesParallel::new().slot("precursor").slot("capstone").group(ParallelGroup::new(
        "wings",
        "precursor",
        "capstone",
        &["wing_a", "wing_b"],
    ))
}

fn size_of(sp: &SeriesParallel, name: &str) -> usize {
    sp.group_sizes().into_iter().find(|(n, _)| n == name).map(|(_, s)| s).unwrap()
}

#[test]
fn a_two_wing_group_with_a_shared_capstone_is_series_parallel() {
    let sp = wings();
    assert_eq!(sp.validate(), Ok(()));
    assert_eq!(sp.slots(), vec!["precursor", "wing_a", "wing_b", "capstone"]);
}

#[test]
fn neither_wing_is_ordered_against_the_other_and_that_is_stated() {
    let sp = wings();
    assert_eq!(sp.order("wing_a", "wing_b"), SlotOrder::Unordered);
    assert_eq!(sp.order("wing_b", "wing_a"), SlotOrder::Unordered);
}

#[test]
fn both_wings_follow_the_precursor_and_precede_the_capstone() {
    let sp = wings();
    for wing in ["wing_a", "wing_b"] {
        assert_eq!(sp.order(wing, "precursor"), SlotOrder::After, "{wing}");
        assert_eq!(sp.order(wing, "capstone"), SlotOrder::Before, "{wing}");
        assert_eq!(sp.order("precursor", wing), SlotOrder::Before, "{wing}");
    }
}

#[test]
fn every_pair_is_orderable_which_is_what_symbolic_grants_need() {
    assert_eq!(wings().every_pair_is_orderable(), Ok(()));
}

#[test]
fn a_permutable_run_is_a_parallel_group_of_length_n() {
    let sp = SeriesParallel::new().slot("start").slot("end").group(ParallelGroup::new(
        "any_order",
        "start",
        "end",
        &["a", "b", "c"],
    ));
    assert_eq!(sp.validate(), Ok(()));
    for (a, b) in [("a", "b"), ("b", "c"), ("a", "c")] {
        assert_eq!(sp.order(a, b), SlotOrder::Unordered);
    }
    assert_eq!(size_of(&sp, "any_order"), 3);
}

#[test]
fn a_slot_in_two_groups_is_rejected_by_name() {
    let sp = SeriesParallel::new()
        .slot("a")
        .slot("b")
        .slot("c")
        .group(ParallelGroup::new("g1", "a", "b", &["x"]))
        .group(ParallelGroup::new("g2", "b", "c", &["x"]));
    assert_eq!(sp.validate(), Err(NotSeriesParallel::SlotInTwoGroups { slot: "x".into() }));
}

#[test]
fn a_group_bounded_by_its_own_member_is_rejected() {
    let sp = SeriesParallel::new()
        .slot("a")
        .slot("b")
        .group(ParallelGroup::new("g", "a", "b", &["a", "x"]));
    assert!(matches!(sp.validate(), Err(NotSeriesParallel::SelfBounded { .. })));
}

#[test]
fn a_group_bounded_by_a_slot_that_does_not_exist_is_rejected() {
    let sp = SeriesParallel::new().slot("a").group(ParallelGroup::new("g", "a", "nowhere", &["x"]));
    assert_eq!(sp.validate(), Err(NotSeriesParallel::UnknownSlot { slot: "nowhere".into() }));
}

#[test]
fn interleaved_groups_are_rejected_with_the_explanation_the_editor_shows() {
    let sp = SeriesParallel::new()
        .slot("a")
        .slot("b")
        .slot("c")
        .slot("d")
        .group(ParallelGroup::new("g1", "a", "c", &["x"]))
        .group(ParallelGroup::new("g2", "b", "d", &["y"]));
    let err = sp.validate().unwrap_err();
    assert!(matches!(err, NotSeriesParallel::Interleaved { .. }));
    let text = err.to_string();
    assert!(text.contains("general graph"));
    assert!(text.contains("symbolic grants"), "the rejection must say why the restriction exists: {text}");
}

#[test]
fn nested_groups_are_fine_and_disjoint_ones_are_too() {
    let nested = SeriesParallel::new()
        .slot("a")
        .slot("b")
        .slot("c")
        .slot("d")
        .group(ParallelGroup::new("outer", "a", "d", &["x"]))
        .group(ParallelGroup::new("inner", "b", "c", &["y"]));
    assert_eq!(nested.validate(), Ok(()));

    let disjoint = SeriesParallel::new()
        .slot("a")
        .slot("b")
        .slot("c")
        .slot("d")
        .group(ParallelGroup::new("g1", "a", "b", &["x"]))
        .group(ParallelGroup::new("g2", "c", "d", &["y"]));
    assert_eq!(disjoint.validate(), Ok(()));
}

#[test]
fn unordered_and_incomparable_are_different_answers() {
    assert_ne!(SlotOrder::Unordered, SlotOrder::Incomparable);
    assert!(SlotOrder::Incomparable.to_string().contains("not series-parallel"));
    assert!(SlotOrder::Unordered.to_string().contains("parallel group"));
}

#[test]
fn a_group_that_relaxed_down_to_one_member_stops_claiming_to_be_a_fork() {
    let g = ParallelGroup::new("wings", "a", "b", &["only"]);
    assert!(g.is_degenerate());
    assert!(!ParallelGroup::new("wings", "a", "b", &["x", "y"]).is_degenerate());
}

#[test]
fn a_slot_nobody_declared_is_incomparable_rather_than_silently_ordered() {
    let sp = wings();
    assert_eq!(sp.order("ghost", "capstone"), SlotOrder::Incomparable);
    assert_eq!(sp.order("precursor", "ghost"), SlotOrder::Incomparable);
}

#[test]
fn a_plain_series_spine_orders_every_pair() {
    let sp = SeriesParallel::new().slot("a").slot("b").slot("c");
    assert_eq!(sp.validate(), Ok(()));
    assert_eq!(sp.order("a", "c"), SlotOrder::Before);
    assert_eq!(sp.order("c", "a"), SlotOrder::After);
    assert_eq!(sp.every_pair_is_orderable(), Ok(()));
}

// ---- further cases ----

#[test]
fn asking_the_other_way_round_gives_the_converse() {
    let sp = wings();
    let slots = sp.slots();
    for a in &slots {
        for b in &slots {
            let there = sp.order(a, b);
            let back = sp.order(b, a);
            let expected = match there {
                SlotOrder::Before => SlotOrder::After,
                SlotOrder::After => SlotOrder::Before,
                other => other,
            };
            assert_eq!(back, expected, "{a} / {b}");
        }
    }
}

#[test]
fn a_slot_outside_any_validated_spine_is_reported_as_the_first_incomparable_pair() {
    // A group whose predecessor is not on the line leaves its members unanchored.
    let sp = SeriesParallel::new().slot("a").slot("b").group(ParallelGroup::new("g", "zz", "b", &["m"]));
    assert_eq!(
        sp.validate(),
        Err(NotSeriesParallel::UnknownSlot { slot: "zz".into() })
    );
    assert_eq!(sp.slots(), vec!["a", "b"]);
    assert_eq!(sp.every_pair_is_orderable(), Ok(()));
    assert_eq!(sp.order("m", "a"), SlotOrder::Incomparable);
}

#[test]
fn group_sizes_are_keyed_by_name_in_sorted_order_and_the_last_group_wins() {
    let sp = SeriesParallel::new()
        .slot("a")
        .slot("b")
        .slot("c")
        .group(ParallelGroup::new("zeta", "a", "b", &["x", "y"]))
        .group(ParallelGroup::new("alpha", "b", "c", &["z"]))
        .group(ParallelGroup::new("zeta", "a", "b", &["w"]));
    assert_eq!(sp.group_sizes(), vec![("alpha".to_string(), 1), ("zeta".to_string(), 1)]);
}

#[test]
fn each_rejection_names_what_it_is_about() {
    assert_eq!(
        NotSeriesParallel::SlotInTwoGroups { slot: "x".into() }.to_string(),
        "slot \"x\" is in two parallel groups"
    );
    assert_eq!(NotSeriesParallel::UnknownSlot { slot: "n".into() }.to_string(), "no slot named \"n\"");
    assert_eq!(
        NotSeriesParallel::SelfBounded { group: "g".into(), slot: "a".into() }.to_string(),
        "group \"g\" is bounded by \"a\", which is inside it"
    );
}

#[test]
fn group_of_finds_the_group_that_holds_a_member() {
    let sp = wings();
    assert_eq!(sp.group_of("wing_b").map(|g| g.name.clone()), Some("wings".to_string()));
    assert!(sp.group_of("precursor").is_none());
    assert_eq!(sp.line().len(), 2);
    assert_eq!(sp.groups().len(), 1);
}
