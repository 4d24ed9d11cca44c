use cv_core::node::NodeKind;
use cv_core::object::ObjectId;
use cv_core::spine::{Relaxation, SpineError, SpineValidation, SpineWarning, Strictness};
use cv_core::spine_budget::{
    effective_strictness, required_minimum, segment_lengths, SegmentBounds, SlotBinding, UNBOUNDED,
};

fn seg(from: &str, to: &str, soft_min: u32, hard_max: u32) -> SegmentBounds {
    SegmentBounds { from: from.into(), to: to.into(), soft_min, hard_max }
}

fn slot(name: &str) -> SlotBinding {
    SlotBinding { name: name.into(), strictness: None }
}

fn names(v: &[&str]) -> Vec<String> {
    v.iter().map(|s| s.to_string()).collect()
}

#[test]
fn the_budget_floor_is_the_slots_plus_segment_minimums() {
    let slots = [slot("start"), slot("capstone"), slot("terminal")];
    let segments = [seg("start", "capstone", 1, 4), seg("capstone", "terminal", 0, 0)];
    // 3 slots + segment minimums (1 for start to capstone, 0 for the direct exit).
    assert_eq!(required_minimum(&slots, Strictness::Required, &segments), 4);
}

#[test]
fn surplus_spreads_across_segments_by_declared_headroom() {
    let segments = [seg("a", "b", 1, 4), seg("b", "c", 1, 2)];
    let kept = names(&["a", "b", "c"]);
    // Exactly the floor: 3 slots + 2 minimums.
    assert_eq!(segment_lengths(&segments, &kept, 5), vec![1, 1]);
    // Four spare, split 3:1 by headroom, and neither segment exceeds its hard_max.
    assert_eq!(segment_lengths(&segments, &kept, 9), vec![4, 2]);
    // More capacity than the declared ceilings can absorb: the extra is simply not used.
    assert_eq!(segment_lengths(&segments, &kept, 40), vec![4, 2]);
    // Below the floor, nothing is inflated.
    assert_eq!(segment_lengths(&segments, &kept, 2), vec![1, 1]);
}

// ---- further cases ----

#[test]
fn leftover_scopes_go_to_the_largest_remainders_and_ties_to_the_earlier_gap() {
    let segments = [seg("a", "b", 0, 3), seg("b", "c", 0, 3), seg("c", "d", 0, 3)];
    let kept = names(&["a", "b", "c", "d"]);
    // Two spare among equal rooms: the shares are zero, the two leftovers go to the first two.
    assert_eq!(segment_lengths(&segments, &kept, 6), vec![1, 1, 0]);
    // Five spare among rooms 3, 3, 3: shares 1, 1, 1 and two leftovers.
    assert_eq!(segment_lengths(&segments, &kept, 9), vec![2, 2, 1]);
    let uneven = [seg("a", "b", 0, 1), seg("b", "c", 0, 5), seg("c", "d", 0, 4)];
    // Three spare among rooms 1, 5, 4 (total 10): shares 0, 1, 1; remainders 3, 5, 2 take one.
    assert_eq!(segment_lengths(&uneven, &kept, 7), vec![0, 2, 1]);
}

#[test]
fn a_gap_without_a_segment_stays_direct_and_fewer_than_two_slots_have_no_gaps() {
    let segments = [seg("a", "b", 2, 5)];
    let kept = names(&["a", "b", "c"]);
    assert_eq!(segment_lengths(&segments, &kept, 100), vec![5, 0]);
    assert!(segment_lengths(&segments, &names(&["a"]), 100).is_empty());
    assert!(segment_lengths(&segments, &[], 100).is_empty());
}

#[test]
fn a_free_segment_takes_whatever_is_spare() {
    let free = seg("a", "b", 0, UNBOUNDED);
    assert!(free.is_free());
    assert!(!seg("a", "b", 0, 4).is_free());
    assert_eq!(segment_lengths(&[free], &names(&["a", "b"]), 50), vec![48]);
    assert_eq!(seg("x", "y", 7, 3).min_length(), 3);
}

#[test]
fn only_required_slots_and_the_segments_between_them_count_toward_the_floor() {
    let slots = [
        slot("start"),
        SlotBinding { name: "side".into(), strictness: Some(Strictness::Preferred) },
        slot("end"),
    ];
    let segments = [seg("start", "side", 5, 9), seg("side", "end", 2, 3), seg("start", "end", 1, 1)];
    assert_eq!(required_minimum(&slots, Strictness::Required, &segments), 3);
    assert_eq!(required_minimum(&slots, Strictness::Optional, &segments), 0);
    assert_eq!(effective_strictness(None, Strictness::Optional), Strictness::Optional);
    assert_eq!(effective_strictness(Some(Strictness::Required), Strictness::Optional), Strictness::Required);
}

#[test]
fn spine_reports_read_with_their_arithmetic_and_names() {
    let e = SpineError::BudgetTooSmall { needed: 4, available: 2 };
    let message = e.to_string();
    assert!(message.contains("needs 4 scopes"), "{message}");
    assert!(message.contains("2 are available"), "{message}");
    assert_eq!(
        SpineError::DuplicateSlot { name: "hub".into() }.to_string(),
        "two slots are named \"hub\"; references would be ambiguous"
    );
    assert_eq!(
        SpineError::ConflictingRequiredSpines {
            kind: NodeKind::Reach,
            first: ObjectId::from_raw(1),
            second: ObjectId::from_raw(2),
        }
        .to_string(),
        "spines #0000000000000001 and #0000000000000002 are both Required on Reach; two contracts for one scope cannot both be honoured — soften one, or move it to a different scope level"
    );
    assert_eq!(
        SpineWarning { subject: "loop".into(), detail: "unlikely".into() }.to_string(),
        "loop: unlikely"
    );
    assert_eq!(
        Relaxation { slot: "treasury".into(), reason: "no room".into() }.to_string(),
        "spine slot \"treasury\" skipped: no room"
    );
    let v = SpineValidation { errors: vec![], warnings: vec![] };
    assert!(v.is_ok());
}
