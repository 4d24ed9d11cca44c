use cv_core::state::{Finding, StateGraph};

/// The door latch, which satisfies the softlock rule.
fn door_latch() -> StateGraph {
    StateGraph::new("door_latch")
        .state("closed", true)
        .state("open", false)
        .transition("closed", "open", &[], "plate")
        .transition("open", "closed", &[], "plate")
}

/// The water level, whose `high` needs Iron Boots to leave.
fn water_level() -> StateGraph {
    StateGraph::new("water_level")
        .state("low", true)
        .state("mid", false)
        .state("high", false)
        .transition("low", "mid", &[], "plaque")
        .transition("mid", "low", &[], "plaque")
        .transition("mid", "high", &[], "plaque")
        .transition("high", "mid", &["Iron Boots"], "plaque")
}

fn degree(g: &StateGraph, name: &str) -> usize {
    g.out_degree().into_iter().find(|(n, _)| n == name).map(|(_, d)| d).unwrap()
}

#[test]
fn the_scenarios_own_graph_satisfies_p15() {
    let g = door_latch();
    assert!(g.check().is_empty(), "{:?}", g.check());
    assert!(g.satisfies_p15());
    assert!(g.check().is_empty(), "nothing to report is the passing shape");
}

#[test]
fn the_p15_check_fires_on_a_deliberately_broken_variant() {
    let broken = StateGraph::new("door_latch")
        .state("closed", true)
        .state("open", false)
        .transition("closed", "open", &[], "plate");

    let findings = broken.check();
    assert_eq!(findings, vec![Finding::DeadEnd { state: "open".into() }]);
    assert!(!broken.satisfies_p15());
    assert!(findings[0].to_string().contains("strands the variable"));
}

#[test]
fn a_gated_way_back_is_the_warning_the_design_draws() {
    let findings = water_level().check();
    assert_eq!(
        findings,
        vec![Finding::ExitGated {
            state: "high".into(),
            requires: vec!["Iron Boots".into()],
            paths_affected: 1,
        }]
    );
    let line = findings[0].to_string();
    assert!(line.contains("Iron Boots"));
    assert!(line.contains("potential softlock"));
    assert!(line.contains("1 path(s) affected"));
}

#[test]
fn a_gated_exit_warns_without_blocking_because_it_is_a_design_decision() {
    let g = water_level();
    assert!(!g.check().is_empty());
    assert!(g.satisfies_p15(), "a gated way back is legitimate");
    assert!(!g.check()[0].blocks());
}

#[test]
fn re_enterability_is_the_question_rather_than_accessibility() {
    let g = StateGraph::new("v")
        .state("a", true)
        .state("b", false)
        .transition("a", "b", &[], "x")
        .transition("b", "a", &["Key"], "x");
    assert!(
        g.check().iter().any(|f| matches!(f, Finding::ExitGated { .. })),
        "accessibility alone would have called this fine"
    );
}

#[test]
fn a_state_nothing_reaches_is_a_different_finding_from_one_nobody_leaves() {
    let g = StateGraph::new("v").state("a", true).state("orphan", false).transition("a", "a", &[], "x");
    assert_eq!(g.check(), vec![Finding::Inaccessible { state: "orphan".into() }]);
    assert!(g.check()[0].blocks());
}

#[test]
fn a_control_that_is_itself_state_gated_shows_as_a_cycle_that_does_not_close() {
    let g = StateGraph::new("v")
        .state("start", true)
        .state("locked", false)
        .transition("start", "locked", &[], "lever")
        .transition("locked", "start", &["OnlyFoundBeyondLocked"], "lever");
    let findings = g.check();
    assert_eq!(
        findings,
        vec![Finding::ExitGated {
            state: "locked".into(),
            requires: vec!["OnlyFoundBeyondLocked".into()],
            paths_affected: 1,
        }]
    );
}

#[test]
fn no_initial_state_or_two_is_one_finding_and_stops_the_rest() {
    let none = StateGraph::new("v").state("a", false).state("b", false);
    assert_eq!(none.check(), vec![Finding::InitialUnclear { count: 0 }]);

    let two = StateGraph::new("v").state("a", true).state("b", true);
    assert_eq!(two.check(), vec![Finding::InitialUnclear { count: 2 }]);
    assert!(two.check()[0].blocks());
}

#[test]
fn a_transition_naming_a_state_that_does_not_exist_is_named() {
    let g = StateGraph::new("v").state("a", true).transition("a", "ghost", &[], "x");
    assert!(g.check().iter().any(|f| matches!(f, Finding::UnknownState { .. })));
}

#[test]
fn a_long_free_path_home_counts_as_re_enterable() {
    let g = StateGraph::new("v")
        .state("a", true)
        .state("b", false)
        .state("c", false)
        .transition("a", "b", &[], "x")
        .transition("b", "c", &[], "x")
        .transition("c", "a", &[], "x");
    assert!(g.check().is_empty(), "{:?}", g.check());
}

#[test]
fn a_finding_names_states_rather_than_indices() {
    for f in water_level().check() {
        let text = f.to_string();
        assert!(text.contains('`'), "{text}");
        assert!(!text.contains("state["), "{text}");
    }
}

#[test]
fn the_drawing_knows_how_many_ways_leave_each_state() {
    let graph = water_level();
    assert_eq!(degree(&graph, "low"), 1);
    assert_eq!(degree(&graph, "mid"), 2);
    assert_eq!(degree(&graph, "high"), 1);
}

#[test]
fn the_initial_state_is_never_reported_for_being_hard_to_leave() {
    let g = StateGraph::new("v").state("only", true).transition("only", "only", &["Key"], "x");
    assert!(g.check().is_empty(), "{:?}", g.check());
}

// ---- further cases ----

#[test]
fn findings_come_back_sorted_by_how_they_read() {
    let g = StateGraph::new("v")
        .state("start", true)
        .state("zed", false)
        .state("alpha", false)
        .state("island", false)
        .transition("start", "zed", &[], "x")
        .transition("start", "alpha", &[], "x");
    let findings = g.check();
    assert_eq!(
        findings,
        vec![
            Finding::DeadEnd { state: "alpha".into() },
            Finding::Inaccessible { state: "island".into() },
            Finding::DeadEnd { state: "zed".into() },
        ]
    );
    let texts: Vec<String> = findings.iter().map(|f| f.to_string()).collect();
    let mut sorted = texts.clone();
    sorted.sort();
    assert_eq!(texts, sorted);
}

#[test]
fn an_unknown_state_is_named_by_its_transition_and_stays_first_without_a_start() {
    let g = StateGraph::new("v").state("a", false).transition("a", "ghost", &[], "x");
    assert_eq!(
        g.check(),
        vec![
            Finding::UnknownState { transition: "a → ghost".into(), missing: "ghost".into() },
            Finding::InitialUnclear { count: 0 },
        ]
    );
    assert_eq!(
        g.check()[0].to_string(),
        "transition a → ghost names `ghost`, which is not a state"
    );
}

#[test]
fn every_requirement_of_every_exit_is_listed_once_and_sorted() {
    let g = StateGraph::new("v")
        .state("home", true)
        .state("pit", false)
        .transition("home", "pit", &[], "fall")
        .transition("pit", "home", &["Rope", "Boots"], "climb")
        .transition("pit", "home", &["Boots"], "jump");
    assert_eq!(
        g.check(),
        vec![Finding::ExitGated {
            state: "pit".into(),
            requires: vec!["Boots".into(), "Rope".into()],
            paths_affected: 2,
        }]
    );
    assert_eq!(
        g.check()[0].to_string(),
        "`pit` is accessible but leaving it needs [Boots, Rope] — potential softlock, 2 path(s) affected"
    );
}

#[test]
fn a_component_that_closes_on_itself_is_a_dead_end() {
    let g = StateGraph::new("v")
        .state("a", true)
        .state("b", false)
        .state("c", false)
        .transition("a", "b", &[], "x")
        .transition("b", "c", &[], "x")
        .transition("c", "b", &[], "x");
    assert_eq!(
        g.check(),
        vec![Finding::DeadEnd { state: "b".into() }, Finding::DeadEnd { state: "c".into() }]
    );
    assert_eq!(
        Finding::InitialUnclear { count: 3 }.to_string(),
        "3 states are marked initial — exactly one must be, or where the variable starts has no answer"
    );
}

#[test]
fn the_initial_state_is_named_only_when_exactly_one_is_marked() {
    assert_eq!(water_level().initial(), Some("low"));
    assert_eq!(StateGraph::new("v").state("a", true).state("b", true).initial(), None);
    assert_eq!(StateGraph::new("v").initial(), None);
}
