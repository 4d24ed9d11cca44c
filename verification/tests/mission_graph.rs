use cv_core::handle::Handle;
use cv_core::mission::{LocationId, Rule};
use cv_core::mission_graph::{Location, MissionEdge, MissionGraph};
use cv_core::object::ObjectId;
use cv_core::satisfy::hops_to_locks;
use cv_core::serialize::{from_bytes, to_bytes};
use cv_core::solver::Solution;
use cv_core::scope_graph::{Node, NodeGraph};

/// The host's bounds type; the mission graph never looks inside it.
#[derive(Clone, Copy, Debug, PartialEq)]
struct Bounds;

type Scope = Handle<Node<Bounds>>;

fn cap(name: &str) -> ObjectId {
    ObjectId::derived("unlock", name)
}

fn graph() -> NodeGraph<Bounds> {
    NodeGraph::new(1.0f64.to_bits(), 1)
}

/// A four-room chain: start → a → b → c.
fn chain() -> (NodeGraph<Bounds>, MissionGraph<Bounds>, Vec<Scope>) {
    let mut g = graph();
    let reach = g.add_child(g.root(), "reach").unwrap();
    let area = g.add_child(reach, "area").unwrap();
    let rooms: Vec<Scope> = (0..4).map(|i| g.add_child(area, &format!("room_{i}")).unwrap()).collect();
    for w in rooms.windows(2) {
        g.connect(w[0], w[1]).unwrap();
    }
    let mission = MissionGraph::from_scopes(&g, rooms[0]);
    (g, mission, rooms)
}

fn distance(d: &[(Scope, u32)], h: Scope) -> u32 {
    d.iter().find(|(k, _)| *k == h).map(|(_, v)| *v).unwrap()
}

#[test]
fn the_base_topology_comes_from_spatial_adjacency() {
    let (_, mission, rooms) = chain();
    assert_eq!(mission.edges().len(), 3, "three links in a four-room chain");
    assert!(mission.connects(rooms[0], rooms[1]));
    assert!(!mission.connects(rooms[0], rooms[2]));
    assert_eq!(mission.gated_count(), 0, "connections start open; gating is a later decision");
}

#[test]
fn a_gate_splits_the_world_into_spheres() {
    let (_, mut mission, rooms) = chain();
    let key = ObjectId::derived("item", "key");
    let dash = cap("dash");

    // Gate the last hop, and put the key in room 1.
    let last = mission.edges().len() - 1;
    mission.gate_edge(last, Rule::has(dash));
    mission.add_location(LocationId(0), Location { scope: rooms[1], slot: 0 });

    let grants = [(key, vec![dash])];
    let placements = [(LocationId(0), key)];

    let r = mission.sweep(&[], &placements, &grants);
    assert!(r.accessible(rooms[3]), "with the key in hand the last room is reachable");
    assert_eq!(r.depth(), 2, "one sphere before the key, one after");
    assert_eq!(r.sphere_of(rooms[0]), Some(0));
    assert_eq!(r.sphere_of(rooms[3]), Some(1));
    assert_eq!(r.spheres[0].granted, vec![dash]);
}

#[test]
fn a_key_behind_its_own_gate_is_unreachable() {
    // The circular dependency the solver exists to prevent. Sweeping must notice, not loop.
    let (_, mut mission, rooms) = chain();
    let key = ObjectId::derived("item", "key");
    let dash = cap("dash");
    let last = mission.edges().len() - 1;
    mission.gate_edge(last, Rule::has(dash));
    // The only location holding the key lies past the locked edge.
    mission.add_location(LocationId(0), Location { scope: rooms[3], slot: 0 });

    let grants = [(key, vec![dash])];
    let placements = [(LocationId(0), key)];

    let r = mission.sweep(&[], &placements, &grants);
    assert!(!r.accessible(rooms[3]), "unreachable, and the sweep terminates rather than spinning");
    assert!(r.held.is_empty());
    assert_eq!(r.depth(), 1);
}

#[test]
fn one_way_edges_are_only_walkable_forwards() {
    let mut g = graph();
    let reach = g.add_child(g.root(), "reach").unwrap();
    let area = g.add_child(reach, "area").unwrap();
    let a = g.add_child(area, "a").unwrap();
    let b = g.add_child(area, "b").unwrap();

    let mut forward = MissionGraph::new(a);
    forward.add_edge(MissionEdge::open(a, b).one_way());
    assert!(forward.sweep(&[], &[], &[]).accessible(b));

    // Starting at the far end, the same edge is impassable.
    let mut backward = MissionGraph::new(b);
    backward.add_edge(MissionEdge::open(a, b).one_way());
    assert!(!backward.sweep(&[], &[], &[]).accessible(a));
}

#[test]
fn distance_ignores_gating() {
    // Locality is about spatial separation; whether you can currently walk it is a different
    // question, and conflating them would make a gated-but-adjacent room look far away.
    let (_, mut mission, rooms) = chain();
    let last = mission.edges().len() - 1;
    mission.gate_edge(last, Rule::has(cap("dash")));
    let d = mission.distances_from(rooms[0]);
    assert_eq!(distance(&d, rooms[3]), 3, "still three hops, gated or not");
    assert_eq!(distance(&d, rooms[0]), 0);
}

#[test]
fn sweeping_is_deterministic() {
    let (_, mut mission, rooms) = chain();
    let key = ObjectId::derived("item", "key");
    let dash = cap("dash");
    mission.gate_edge(2, Rule::has(dash));
    mission.add_location(LocationId(0), Location { scope: rooms[1], slot: 0 });
    let grants = [(key, vec![dash])];
    let placements = [(LocationId(0), key)];

    let a = mission.sweep(&[], &placements, &grants);
    let b = mission.sweep(&[], &placements, &grants);
    assert_eq!(a, b);
}

#[test]
fn a_degree_cap_refuses_edges_beyond_it() {
    let (_, mut mission, rooms) = chain();
    mission.set_degree_cap(rooms[3], 1);
    assert_eq!(mission.degree_cap(rooms[3]), Some(1));
    assert_eq!(mission.degree(rooms[3]), 1);
    assert!(mission.would_exceed_cap(rooms[0], rooms[3]));
    assert_eq!(mission.add_edge(MissionEdge::open(rooms[0], rooms[3]).shortcut()), None);
    assert_eq!(mission.edges().len(), 3);
    // An uncapped pair still connects, and is counted as a shortcut.
    assert_eq!(mission.add_edge(MissionEdge::open(rooms[0], rooms[2]).shortcut()), Some(3));
    assert_eq!(mission.shortcut_count(), 1);
    assert_eq!(mission.degree(rooms[0]), 2);
}

#[test]
fn excluded_scopes_take_no_locations() {
    let (_, mut mission, rooms) = chain();
    mission.exclude_content(rooms[2]);
    assert!(mission.excludes_content(rooms[2]));
    assert!(!mission.add_location(LocationId(4), Location { scope: rooms[2], slot: 0 }));
    assert!(mission.add_location(LocationId(9), Location { scope: rooms[1], slot: 1 }));
    assert!(mission.add_location(LocationId(2), Location { scope: rooms[1], slot: 0 }));
    assert_eq!(mission.location_count(), 2);
    assert_eq!(mission.locations_in(rooms[1]), vec![LocationId(2), LocationId(9)]);
    assert_eq!(mission.content_excluded_scopes(), &[rooms[2]]);
}

#[test]
fn edges_can_be_turned_one_way_and_back() {
    let (_, mut mission, rooms) = chain();
    assert!(mission.make_one_way(0));
    assert!(!mission.make_one_way(0), "already one-way");
    let back = MissionGraph::sweep_from(&mission, rooms[1], &[], &[], &[]);
    assert!(!back.accessible(rooms[0]), "the commit cannot be walked back");
    assert!(mission.make_reversible(0));
    assert!(!mission.make_reversible(7), "no such edge");
    let again = mission.sweep_from(rooms[1], &[], &[], &[]);
    assert!(again.accessible(rooms[0]));
}

#[test]
fn traversal_honours_what_is_held() {
    let (_, mut mission, rooms) = chain();
    let dash = cap("dash");
    mission.gate_edge(1, Rule::has(dash));
    assert_eq!(mission.traverse(&[]), vec![rooms[0], rooms[1]]);
    assert_eq!(mission.traverse_from(rooms[0], &[dash]), rooms);
    assert_eq!(mission.locks_for(dash).len(), 1);
    assert_eq!(mission.gated_count(), 1);
}

#[test]
fn goals_recovery_and_start_are_recorded() {
    let (_, mut mission, rooms) = chain();
    assert_eq!(mission.start(), rooms[0]);
    assert_eq!(mission.goal(), None);
    mission.set_goal(rooms[3]);
    mission.add_recovery(rooms[2]);
    mission.add_recovery(rooms[1]);
    mission.add_recovery(rooms[2]);
    mission.set_start(rooms[1]);
    assert_eq!(mission.goal(), Some(rooms[3]));
    assert_eq!(mission.recovery_points(), &[rooms[1], rooms[2]]);
    assert_eq!(mission.start(), rooms[1]);
}

#[test]
fn spheres_are_numbered_from_the_origin_and_never_overlap() {
    let (_, mut mission, rooms) = chain();
    let key = ObjectId::derived("item", "key");
    let dash = cap("dash");
    mission.gate_edge(1, Rule::has(dash));
    mission.add_location(LocationId(0), Location { scope: rooms[1], slot: 0 });
    let r = mission.sweep(&[], &[(LocationId(0), key)], &[(key, vec![dash])]);
    assert_eq!(r.spheres.len(), 2);
    for (i, sphere) in r.spheres.iter().enumerate() {
        assert_eq!(sphere.index as usize, i);
    }
    assert!(r.spheres[0].scopes.contains(&rooms[0]), "the first sphere holds the start");
    assert_eq!(r.spheres[0].scopes, vec![rooms[0], rooms[1]]);
    assert_eq!(r.spheres[1].scopes, vec![rooms[2], rooms[3]]);
    for scope in &r.scopes {
        let holding = r.spheres.iter().filter(|s| s.scopes.contains(scope)).count();
        assert_eq!(holding, 1, "every accessible scope sits in exactly one sphere");
    }
    let total: usize = r.spheres.iter().map(|s| s.scopes.len()).sum();
    assert_eq!(total, r.scopes.len());
}

#[test]
fn gating_any_edge_keeps_every_distance() {
    let (_, mut mission, rooms) = chain();
    let before = mission.distances_from(rooms[1]);
    for i in 0..mission.edges().len() {
        assert!(mission.gate_edge(i, Rule::Never));
    }
    assert_eq!(mission.distances_from(rooms[1]), before);
    assert_eq!(distance(&before, rooms[0]), 1);
    assert_eq!(distance(&before, rooms[3]), 2);
}

#[test]
fn a_capped_scope_stays_frozen_while_others_grow() {
    let (_, mut mission, rooms) = chain();
    mission.set_degree_cap(rooms[1], 2);
    assert_eq!(mission.degree(rooms[1]), 2);
    assert_eq!(mission.add_edge(MissionEdge::open(rooms[1], rooms[3])), None);
    assert_eq!(mission.add_edge(MissionEdge::open(rooms[3], rooms[1]).one_way()), None);
    assert_eq!(mission.degree(rooms[1]), 2);
    assert_eq!(mission.add_edge(MissionEdge::open(rooms[0], rooms[3])), Some(3));
    assert_eq!(mission.degree(rooms[3]), 2);
}

#[test]
fn hops_to_locks_keeps_the_nearest_lock_for_each_scope() {
    let (_, mut mission, rooms) = chain();
    mission.gate_edge(0, Rule::Never);
    let hops = hops_to_locks(&mission, &[rooms[0], rooms[3]]);
    assert_eq!(hops, vec![(rooms[0], 0), (rooms[1], 1), (rooms[2], 1), (rooms[3], 0)]);
    assert_eq!(hops_to_locks(&mission, &[]), vec![]);
}

#[test]
fn a_one_way_edge_hides_what_lies_behind_it_from_a_lock() {
    let (_, mut mission, rooms) = chain();
    assert!(mission.make_one_way(0));
    let hops = hops_to_locks(&mission, &[rooms[1]]);
    assert_eq!(hops, vec![(rooms[1], 0), (rooms[2], 1), (rooms[3], 2)], "room 0 cannot be walked to from room 1");
}

#[test]
fn a_solution_reports_its_depth_and_whether_every_location_is_open() {
    let (_, mut mission, rooms) = chain();
    let key = ObjectId::derived("item", "key");
    let dash = cap("dash");
    mission.gate_edge(1, Rule::has(dash));
    mission.add_location(LocationId(0), Location { scope: rooms[1], slot: 0 });
    mission.add_location(LocationId(1), Location { scope: rooms[3], slot: 0 });
    let placements = vec![(LocationId(0), key)];
    let accessibility = mission.sweep(&[], &placements, &[(key, vec![dash])]);
    let solution = Solution { placements: placements.clone(), accessibility, traces: Vec::new(), attempts: 1 };
    assert_eq!(solution.depth(), 2);
    assert!(solution.fully_accessible(&mission));

    mission.gate_edge(2, Rule::Never);
    let sealed = mission.sweep(&[], &placements, &[(key, vec![dash])]);
    let solution = Solution { placements, accessibility: sealed, traces: Vec::new(), attempts: 1 };
    assert!(!solution.fully_accessible(&mission), "the last room is sealed off");
}

#[test]
fn rules_and_edges_round_trip() {
    let rule = Rule::All(vec![
        Rule::has(cap("dash")),
        Rule::Any(vec![Rule::has(cap("a")), Rule::Not(Box::new(Rule::has(cap("b"))))]),
    ]);
    assert_eq!(from_bytes::<Rule>(&to_bytes(&rule)).unwrap(), rule);

    let (_, mission, _) = chain();
    let edge = mission.edges()[0].clone();
    assert_eq!(from_bytes::<MissionEdge<Bounds>>(&to_bytes(&edge)).unwrap(), edge);
}

#[test]
fn an_edge_is_written_as_its_ends_its_rule_and_two_flags() {
    let (_, mission, rooms) = chain();
    let edge = MissionEdge::gated(rooms[2], rooms[3], Rule::Never).one_way().shortcut();
    let bytes = to_bytes(&edge);
    let body = &bytes[8..];
    assert_eq!(body.len(), 8 + 8 + 1 + 2);
    assert_eq!(&body[16..], &[1u8, 0, 1][..], "the sealed rule's tag, then one-way, then shortcut");
    let back: MissionEdge<Bounds> = from_bytes(&bytes).unwrap();
    assert!(!back.reversible && back.is_shortcut);
    assert_eq!(mission.edges().len(), 3);
}

#[test]
fn holding_more_never_reaches_less() {
    let (_, mut mission, rooms) = chain();
    let dash = cap("dash");
    mission.gate_edge(1, Rule::has(dash));
    let fewer = mission.sweep_from(rooms[1], &[], &[], &[]);
    let more = mission.sweep_from(rooms[1], &[dash], &[], &[]);
    for scope in &fewer.scopes {
        assert!(more.accessible(*scope));
    }
    assert_eq!(fewer.scopes, vec![rooms[0], rooms[1]]);
    assert_eq!(more.scopes, rooms);
    assert_eq!(more.held, vec![dash], "the sweep holds what it started with");
}
