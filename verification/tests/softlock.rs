use cv_core::handle::Handle;
use cv_core::mission::{LocationId, Rule};
use cv_core::mission_graph::{Location, MissionEdge, MissionGraph};
use cv_core::object::ObjectId;
use cv_core::scope_graph::{Node, NodeGraph};
use cv_core::softlock::{combinations, AnalysisLimit, Repair, SoftlockAnalyzer, SoftlockKind};

/// The host's bounds type; the analysis never looks inside it.
#[derive(Clone, Copy, Debug, PartialEq)]
struct Bounds;

type Scope = Handle<Node<Bounds>>;
type Placements = Vec<(LocationId, ObjectId)>;
type Grants = Vec<(ObjectId, Vec<ObjectId>)>;

fn cap(name: &str) -> ObjectId {
    ObjectId::derived("capability", name)
}

fn item(name: &str) -> ObjectId {
    ObjectId::derived("item", name)
}

/// `n` rooms in one area.
fn rooms(n: usize) -> (NodeGraph<Bounds>, Vec<Scope>) {
    let mut g = NodeGraph::new(1.0f64.to_bits(), 1);
    let reach = g.add_child(g.root(), "reach").unwrap();
    let area = g.add_child(reach, "area").unwrap();
    let rooms: Vec<Scope> = (0..n).map(|i| g.add_child(area, &format!("room_{i}")).unwrap()).collect();
    (g, rooms)
}

/// The canonical trap: the key sits before a one-way drop, and the goal beyond it needs the key.
fn trap_world() -> (NodeGraph<Bounds>, MissionGraph<Bounds>, Placements, Grants) {
    let (g, r) = rooms(4);
    let mut m = MissionGraph::new(r[0]);
    m.add_edge(MissionEdge::open(r[0], r[1]));
    m.add_edge(MissionEdge::open(r[1], r[2]).one_way());
    m.add_edge(MissionEdge::gated(r[2], r[3], Rule::has(cap("key"))));
    m.set_goal(r[3]);
    m.add_location(LocationId(0), Location { scope: r[1], slot: 0 });
    let placements = vec![(LocationId(0), item("key"))];
    let grants = vec![(item("key"), vec![cap("key")])];
    (g, m, placements, grants)
}

#[test]
fn a_solvable_world_can_still_be_soft_locked() {
    let (_, mission, placements, grants) = trap_world();

    let sweep = mission.sweep(&[], &placements, &grants);
    assert!(sweep.accessible(mission.goal().unwrap()), "the goal is reachable");
    assert!(sweep.held.contains(&cap("key")));

    let analysis = SoftlockAnalyzer::new(&mission, &placements, &grants).analyze();
    assert!(!analysis.is_un_softlockable(), "the stronger property must fail here");
    assert_eq!(analysis.hazards.len(), 1);
    let hazard = &analysis.hazards[0];
    assert!(hazard.holding.is_empty(), "the trap is crossing with nothing");
    assert_eq!(hazard.kind, SoftlockKind::GoalUnreachable);
}

#[test]
fn taking_the_key_first_is_correctly_not_a_hazard() {
    let (_, mission, placements, grants) = trap_world();
    let analysis = SoftlockAnalyzer::new(&mission, &placements, &grants).analyze();
    assert!(
        !analysis.hazards.iter().any(|h| h.holding.contains(&cap("key"))),
        "crossing with the key is fine and must not be reported"
    );
}

#[test]
fn moving_the_key_past_the_drop_makes_the_world_safe() {
    let (_, r) = rooms(4);
    let mut m = MissionGraph::new(r[0]);
    m.add_edge(MissionEdge::open(r[0], r[1]));
    m.add_edge(MissionEdge::open(r[1], r[2]).one_way());
    m.add_edge(MissionEdge::gated(r[2], r[3], Rule::has(cap("key"))));
    m.set_goal(r[3]);
    m.add_location(LocationId(0), Location { scope: r[2], slot: 0 });

    let placements = vec![(LocationId(0), item("key"))];
    let grants = vec![(item("key"), vec![cap("key")])];

    let analysis = SoftlockAnalyzer::new(&m, &placements, &grants).analyze();
    assert!(analysis.is_un_softlockable(), "{:?}", analysis.hazards);
}

#[test]
fn a_recovery_point_rescues_an_otherwise_trapping_drop() {
    let (_, mut mission, placements, grants) = trap_world();
    assert!(!SoftlockAnalyzer::new(&mission, &placements, &grants).analyze().is_un_softlockable());

    let landing = mission.edges()[1].to;
    mission.add_recovery(landing);

    let analysis = SoftlockAnalyzer::new(&mission, &placements, &grants).analyze();
    assert!(analysis.is_un_softlockable(), "reaching a recovery point un-strands the player");
}

#[test]
fn repair_removes_every_hazard() {
    let (_, mut mission, placements, grants) = trap_world();
    let before = SoftlockAnalyzer::new(&mission, &placements, &grants).analyze();
    assert!(!before.is_un_softlockable());

    let repairs = before.repair(&mut mission);
    assert_eq!(repairs, vec![Repair::MadeReversible { edge: 1 }]);

    let after = SoftlockAnalyzer::new(&mission, &placements, &grants).analyze();
    assert!(after.is_un_softlockable(), "the repair must actually fix it");
    assert_eq!(after.commits_checked, 0, "there are no one-way commits left");
}

#[test]
fn a_world_with_no_one_way_edges_is_trivially_safe() {
    let (_, r) = rooms(4);
    let mut m = MissionGraph::new(r[0]);
    for w in r.windows(2) {
        m.add_edge(MissionEdge::open(w[0], w[1]));
    }
    m.set_goal(r[3]);
    let analysis = SoftlockAnalyzer::new(&m, &[], &[]).analyze();
    assert!(analysis.is_un_softlockable());
    assert_eq!(analysis.commits_checked, 0);
    assert_eq!(analysis.states_examined, 0);
}

#[test]
fn an_incomplete_analysis_is_not_reported_as_safe() {
    let (_, r) = rooms(3);
    let mut m = MissionGraph::new(r[0]);
    m.add_edge(MissionEdge::open(r[0], r[1]).one_way());
    m.set_goal(r[2]);

    let mut no_goal = MissionGraph::new(r[0]);
    no_goal.add_edge(MissionEdge::open(r[0], r[1]).one_way());
    let a = SoftlockAnalyzer::new(&no_goal, &[], &[]).analyze();
    assert_eq!(a.limit, Some(AnalysisLimit::NoGoal));
    assert!(!a.is_un_softlockable(), "no goal means undefined, never safe");

    let mut placements = Vec::new();
    let mut grants = Vec::new();
    for i in 0..5 {
        m.add_location(LocationId(i), Location { scope: r[1], slot: i });
        placements.push((LocationId(i), item(&format!("i{i}"))));
        grants.push((item(&format!("i{i}")), vec![cap(&format!("c{i}"))]));
    }
    let limited = SoftlockAnalyzer::new(&m, &placements, &grants).with_max_capabilities(2);
    let a = limited.analyze();
    assert!(matches!(a.limit, Some(AnalysisLimit::TooManyCapabilities { .. })));
    assert!(!a.is_un_softlockable());
    assert!(a.limit.unwrap().to_string().contains("exceeds the analysis bound"));
}

#[test]
fn safety_pruning_keeps_the_cost_down() {
    let (_, r) = rooms(5);
    let mut m = MissionGraph::new(r[0]);
    m.add_edge(MissionEdge::open(r[0], r[1]));
    m.add_edge(MissionEdge::open(r[1], r[2]).one_way());
    m.add_edge(MissionEdge::open(r[2], r[3]));
    m.add_edge(MissionEdge::open(r[3], r[4]));
    m.set_goal(r[4]);

    let mut placements = Vec::new();
    let mut grants = Vec::new();
    for i in 0..6u32 {
        m.add_location(LocationId(i), Location { scope: r[0], slot: i });
        placements.push((LocationId(i), item(&format!("i{i}"))));
        grants.push((item(&format!("i{i}")), vec![cap(&format!("c{i}"))]));
    }

    let analysis = SoftlockAnalyzer::new(&m, &placements, &grants).analyze();
    assert!(analysis.is_un_softlockable());
    assert!(
        analysis.states_examined <= 2,
        "pruning should collapse the lattice, examined {}",
        analysis.states_examined
    );
}

#[test]
fn hazards_carry_a_reproduction_case() {
    let (_, mission, placements, grants) = trap_world();
    let analysis = SoftlockAnalyzer::new(&mission, &placements, &grants).analyze();
    let hazard = &analysis.hazards[0];
    assert_eq!(hazard.edge, 1);
    assert_eq!(hazard.from, mission.edges()[1].from);
    assert_eq!(hazard.to, mission.edges()[1].to);
    assert!(hazard.to_string().contains("one-way edge 1"));
}

#[test]
fn analysis_is_deterministic() {
    let (_, mission, placements, grants) = trap_world();
    let a = SoftlockAnalyzer::new(&mission, &placements, &grants).analyze();
    let b = SoftlockAnalyzer::new(&mission, &placements, &grants).analyze();
    assert_eq!(a, b);
}

#[test]
fn combinations_are_complete_and_ordered() {
    let items = [1u32, 2, 3, 4];
    assert_eq!(combinations(&items, 0).len(), 1);
    assert_eq!(combinations(&items, 1).len(), 4);
    assert_eq!(combinations(&items, 2).len(), 6);
    assert_eq!(combinations(&items, 4).len(), 1);
    assert_eq!(combinations(&items, 5).len(), 0);
    assert_eq!(combinations(&items, 2)[0], vec![1, 2]);
    // Deterministic across calls.
    assert_eq!(combinations(&items, 3), combinations(&items, 3));
}

// ---- further cases ----

#[test]
fn combinations_come_in_lexicographic_index_order() {
    let items = ['a', 'b', 'c', 'd'];
    assert_eq!(
        combinations(&items, 2),
        vec![
            vec!['a', 'b'],
            vec!['a', 'c'],
            vec!['a', 'd'],
            vec!['b', 'c'],
            vec!['b', 'd'],
            vec!['c', 'd'],
        ]
    );
    assert_eq!(combinations::<u8>(&[], 0), vec![Vec::<u8>::new()]);
    assert!(combinations::<u8>(&[], 1).is_empty());
    assert_eq!(combinations(&[9u8, 9], 2), vec![vec![9, 9]]);
}

#[test]
fn a_hazard_kind_reads_plainly() {
    assert_eq!(SoftlockKind::GoalUnreachable.to_string(), "goal unreachable");
    assert_eq!(SoftlockKind::NoRecovery.to_string(), "no recovery available");
}

#[test]
fn a_hazard_reads_with_its_edge_count_and_kind() {
    let (_, mission, placements, grants) = trap_world();
    let analysis = SoftlockAnalyzer::new(&mission, &placements, &grants).analyze();
    assert_eq!(
        analysis.hazards[0].to_string(),
        "one-way edge 1 strands a player holding 0 capabilities: goal unreachable"
    );
    assert_eq!(analysis.hazardous_edges(), vec![1]);
    assert_eq!(analysis.commits_checked, 1);
}

#[test]
fn a_starting_capability_is_held_at_every_crossing() {
    let (_, mission, placements, grants) = trap_world();
    let analysis = SoftlockAnalyzer::new(&mission, &placements, &grants).with_initial(&[cap("key")]).analyze();
    assert!(analysis.is_un_softlockable(), "starting with the key, the drop is safe");
}

#[test]
fn with_a_recovery_point_the_kind_says_no_recovery() {
    let (_, mut mission, placements, grants) = trap_world();
    mission.add_recovery(mission.start());
    let analysis = SoftlockAnalyzer::new(&mission, &placements, &grants).analyze();
    assert_eq!(analysis.hazards.len(), 1);
    assert_eq!(analysis.hazards[0].kind, SoftlockKind::NoRecovery);
}
