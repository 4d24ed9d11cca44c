use cv_core::mission::{LocationId, Rule};
use cv_core::object::ObjectId;
use cv_core::serialize::{from_bytes, to_bytes, SerError, Writer};

fn cap(name: &str) -> ObjectId {
    ObjectId::derived("unlock", name)
}

#[test]
fn rules_evaluate_and_compose() {
    let dash = cap("dash");
    let grapple = cap("grapple");
    let held = [dash];

    assert!(Rule::Always.is_satisfied(&held));
    assert!(!Rule::Never.is_satisfied(&held));
    assert!(Rule::has(dash).is_satisfied(&held));
    assert!(!Rule::has(grapple).is_satisfied(&held));

    // Alternate routes: either traversal works.
    assert!(Rule::any_of(&[dash, grapple]).is_satisfied(&held));
    // Both required: not yet.
    assert!(!Rule::all_of(&[dash, grapple]).is_satisfied(&held));
    assert!(Rule::Not(Box::new(Rule::has(grapple))).is_satisfied(&held));
}

#[test]
fn degenerate_rule_sets_mean_what_they_say() {
    assert_eq!(Rule::all_of(&[]), Rule::Always);
    assert_eq!(Rule::any_of(&[]), Rule::Never);
    assert_eq!(Rule::all_of(&[cap("a")]), Rule::Has(cap("a")));
}

#[test]
fn rules_report_what_they_depend_on() {
    let rule = Rule::All(vec![
        Rule::has(cap("dash")),
        Rule::Any(vec![Rule::has(cap("grapple")), Rule::has(cap("blink"))]),
    ]);
    assert_eq!(rule.unlocks().len(), 3);
    assert!(rule.unlocks().contains(&cap("blink")));
    assert_eq!(rule.depth(), 3);
    assert_eq!(Rule::Always.depth(), 1);
}

#[test]
fn rules_read_well_in_a_trace() {
    let rule = Rule::Any(vec![Rule::has(cap("dash")), Rule::has(cap("grapple"))]);
    let text = rule.to_string();
    assert!(text.contains(" or "), "{text}");
    assert_eq!(Rule::Always.to_string(), "open");
    assert_eq!(Rule::Never.to_string(), "sealed");
}

// ---- further cases ----

#[test]
fn a_rule_reads_exactly_as_it_composes() {
    let a = ObjectId::from_raw(1);
    let b = ObjectId::from_raw(2);
    let rule = Rule::All(vec![Rule::has(a), Rule::Not(Box::new(Rule::has(b)))]);
    assert_eq!(rule.to_string(), "(#0000000000000001 and not #0000000000000002)");
    assert_eq!(LocationId(7).to_string(), "loc[7]");
}

#[test]
fn unlocks_are_sorted_and_listed_once() {
    let a = ObjectId::from_raw(5);
    let b = ObjectId::from_raw(2);
    let rule = Rule::Any(vec![Rule::has(a), Rule::All(vec![Rule::has(b), Rule::has(a)])]);
    assert_eq!(rule.unlocks(), vec![b, a]);
    assert!(!rule.is_open());
    assert!(Rule::Always.is_open());
    assert!(Rule::Not(Box::new(Rule::Never)).is_satisfied(&[]));
}

#[test]
fn nested_rules_round_trip_on_the_wire() {
    let rule = Rule::All(vec![
        Rule::has(cap("dash")),
        Rule::Any(vec![
            Rule::has(cap("a")),
            Rule::Not(Box::new(Rule::has(cap("b")))),
        ]),
    ]);
    assert_eq!(from_bytes::<Rule>(&to_bytes(&rule)).unwrap(), rule);
    for leaf in [Rule::Always, Rule::Never, Rule::All(vec![]), Rule::Any(vec![])] {
        assert_eq!(from_bytes::<Rule>(&to_bytes(&leaf)).unwrap(), leaf);
    }
}

#[test]
fn rule_bytes_are_a_tag_then_the_contents() {
    let mut w = Writer::new();
    w.write(&Rule::Not(Box::new(Rule::Any(vec![Rule::Never, Rule::has(ObjectId::from_raw(9))]))));
    assert_eq!(
        w.finish(),
        vec![5, 4, 2, 0, 0, 0, 1, 2, 9, 0, 0, 0, 0, 0, 0, 0]
    );
}

#[test]
fn unknown_rule_tags_and_short_lists_are_refused() {
    let mut w = Writer::with_envelope();
    w.u8(6);
    assert_eq!(
        from_bytes::<Rule>(&w.finish()),
        Err(SerError::InvalidValue("unknown Rule tag"))
    );
    // A list that promises two rules but holds one.
    let mut w = Writer::with_envelope();
    w.u8(3);
    w.u32(2);
    w.u8(0);
    assert!(matches!(
        from_bytes::<Rule>(&w.finish()),
        Err(SerError::UnexpectedEof { .. })
    ));
}
