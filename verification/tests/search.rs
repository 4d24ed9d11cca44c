use cv_core::search::{Heuristic, Move, SearchPolicy};
use cv_core::trivalent::Trivalent;

#[test]
fn every_heuristic_carries_the_guardrail_that_bounds_it() {
    for h in Heuristic::all() {
        assert!(
            !h.guardrail().is_empty(),
            "{} is a silent restriction on the design space without one",
            h.to_string()
        );
        assert!(h.is_optional(), "{} would otherwise define a valid world", h.to_string());
    }
    assert_eq!(Heuristic::all().len(), 5);
}

#[test]
fn the_ladder_is_ordered_cheapest_first_by_the_type_itself() {
    assert!(Move::PushOut < Move::Defer);
    assert!(Move::Defer < Move::TightenProxy);
    assert_eq!(
        Move::ladder().iter().min(),
        Some(&Move::PushOut),
        "without the ordering the solver reaches for the expensive option first"
    );
    for m in Move::ladder() {
        assert!(!m.cost().is_empty());
    }
}

#[test]
fn an_ambiguous_answer_resolves_with_the_cheapest_admissible_move() {
    let p = SearchPolicy::new();
    assert_eq!(p.resolve(Trivalent::Ambiguous), Some(Move::PushOut));
}

#[test]
fn a_decided_answer_has_nothing_to_resolve() {
    let p = SearchPolicy::new();
    assert_eq!(p.resolve(Trivalent::Yes), None);
    assert_eq!(
        p.resolve(Trivalent::No),
        None,
        "nudging a definite answer is what the push-it-out guardrail forbids"
    );
}

#[test]
fn disabling_push_it_out_falls_to_the_next_rung_rather_than_to_nothing() {
    let p = SearchPolicy::new().without(Heuristic::PushItOut);
    assert!(!p.enabled(Heuristic::PushItOut));
    assert_eq!(p.resolve(Trivalent::Ambiguous), Some(Move::Defer));
}

#[test]
fn a_policy_that_can_only_afford_the_expensive_move_still_has_one() {
    let p = SearchPolicy::new().affording(&[Move::TightenProxy]);
    assert_eq!(p.resolve(Trivalent::Ambiguous), Some(Move::TightenProxy));
}

// ---- further cases ----

#[test]
fn a_policy_that_affords_nothing_resolves_nothing() {
    let p = SearchPolicy::new().affording(&[]);
    assert_eq!(p.resolve(Trivalent::Ambiguous), None);
    let q = SearchPolicy::new().affording(&[Move::TightenProxy, Move::Defer]);
    assert_eq!(q.resolve(Trivalent::Ambiguous), Some(Move::Defer));
}
