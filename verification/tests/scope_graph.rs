use cv_core::handle::Handle;
use cv_core::node::{NodeError, NodeKind, NodeState};
use cv_core::scope_graph::{Node, NodeGraph};

/// An axis-aligned box, standing in for the host's bounds type.
#[derive(Clone, Copy, Debug, PartialEq)]
struct Aabb {
    min: [f64; 3],
    max: [f64; 3],
}

fn unit_box() -> Aabb {
    Aabb { min: [0.0; 3], max: [1.0; 3] }
}

fn graph(scale: f64, seed: u64) -> NodeGraph<Aabb> {
    NodeGraph::new(scale.to_bits(), seed)
}

/// World → Reach → Area → Space → Spatial, all projected.
fn chain() -> (NodeGraph<Aabb>, Vec<Handle<Node<Aabb>>>) {
    let mut g = graph(1.0, 42);
    let mut hs = vec![g.root()];
    for name in ["reach", "area", "space", "spatial"] {
        let parent = *hs.last().unwrap();
        hs.push(g.add_child(parent, name).unwrap());
    }
    (g, hs)
}

#[test]
fn hierarchy_is_derived_not_declared() {
    let (g, hs) = chain();
    let kinds: Vec<NodeKind> = hs.iter().map(|h| g.node(*h).unwrap().kind()).collect();
    assert_eq!(kinds, NodeKind::all().to_vec());
    assert!(g.check_invariants().is_none());
}

#[test]
fn a_spatial_cannot_contain_anything() {
    let (mut g, hs) = chain();
    let spatial = hs[4];
    assert_eq!(
        g.add_child(spatial, "nope"),
        Err(NodeError::NotAContainer { kind: NodeKind::Spatial })
    );
}

#[test]
fn a_child_may_lag_behind_its_parent_but_never_lead() {
    let (mut g, hs) = chain();
    for h in &hs {
        g.set_envelope(*h, unit_box()).unwrap();
    }
    // A Reach cannot reserve before the World does.
    assert_eq!(
        g.advance(hs[1], NodeState::Reserved),
        Err(NodeError::AheadOfParent { parent: NodeState::Projected, requested: NodeState::Reserved })
    );
    // Top-down works.
    g.advance(hs[0], NodeState::Reserved).unwrap();
    g.advance(hs[1], NodeState::Reserved).unwrap();
    // And lagging is fine: the World may realize while its Reach stays merely reserved.
    g.advance(hs[0], NodeState::Realized).unwrap();
    assert_eq!(g.node(hs[1]).unwrap().state(), NodeState::Reserved);
    assert_eq!(g.node(hs[2]).unwrap().state(), NodeState::Projected);
    assert!(g.check_invariants().is_none());
}

#[test]
fn the_lifecycle_is_one_way() {
    let (mut g, hs) = chain();
    g.set_envelope(hs[0], unit_box()).unwrap();
    g.advance(hs[0], NodeState::Realized).unwrap();
    assert_eq!(
        g.advance(hs[0], NodeState::Projected),
        Err(NodeError::Regression { from: NodeState::Realized, to: NodeState::Projected })
    );
    // Re-advancing to the same state is a no-op, not an error.
    assert!(g.advance(hs[0], NodeState::Realized).is_ok());
}

#[test]
fn reserving_requires_an_envelope() {
    let (mut g, hs) = chain();
    assert_eq!(
        g.advance(hs[0], NodeState::Reserved),
        Err(NodeError::MissingEnvelope { kind: NodeKind::World })
    );
    g.set_envelope(hs[0], unit_box()).unwrap();
    assert!(g.advance(hs[0], NodeState::Reserved).is_ok());
}

#[test]
fn realized_nodes_reject_every_mutation() {
    let (mut g, hs) = chain();
    let world = hs[0];
    g.set_envelope(world, unit_box()).unwrap();
    g.advance(world, NodeState::Realized).unwrap();

    let frozen = NodeError::Immutable { kind: NodeKind::World, state: NodeState::Realized };
    assert_eq!(g.set_name(world, "x"), Err(frozen.clone()));
    assert_eq!(g.set_envelope(world, unit_box()), Err(frozen));
}

#[test]
fn a_realized_container_can_still_gain_lazy_children() {
    let (mut g, hs) = chain();
    let world = hs[0];
    g.set_envelope(world, unit_box()).unwrap();
    g.advance(world, NodeState::Realized).unwrap();

    let late = g.add_child(world, "streamed_in").unwrap();
    assert_eq!(g.node(late).unwrap().state(), NodeState::Projected);
    assert_eq!(g.node(late).unwrap().kind(), NodeKind::Reach);
    // It can be realized in turn, because its parent already is.
    g.set_envelope(late, unit_box()).unwrap();
    g.advance(late, NodeState::Realized).unwrap();
    assert!(g.check_invariants().is_none());

    // Adjacency, by contrast, stays frozen once realized.
    let other = g.add_child(world, "other").unwrap();
    g.set_envelope(other, unit_box()).unwrap();
    g.advance(other, NodeState::Realized).unwrap();
    assert!(matches!(g.connect(late, other), Err(NodeError::Immutable { .. })));
}

#[test]
fn only_projected_nodes_can_be_removed() {
    let (mut g, hs) = chain();
    // The root is never removable.
    assert_eq!(g.remove(hs[0]), Err(NodeError::RootNode));

    // Committing a descendant pins the whole chain above it.
    for h in &hs[..3] {
        g.set_envelope(*h, unit_box()).unwrap();
        g.advance(*h, NodeState::Reserved).unwrap();
    }
    assert_eq!(g.remove(hs[1]), Err(NodeError::NotProjected { state: NodeState::Reserved }));
    // A wholly-projected subtree goes cleanly.
    let extra = g.add_child(hs[2], "throwaway").unwrap();
    let leaf = g.add_child(extra, "leaf").unwrap();
    assert!(g.remove(extra).is_ok());
    assert!(g.get(extra).is_none());
    assert!(g.get(leaf).is_none(), "the subtree must go with it");
    assert!(g.check_invariants().is_none());
}

#[test]
fn a_committed_descendant_blocks_removal() {
    let (mut g, hs) = chain();
    for h in &hs[..4] {
        g.set_envelope(*h, unit_box()).unwrap();
        g.advance(*h, NodeState::Reserved).unwrap();
    }
    // hs[3] (Space) is Reserved; its projected parent chain is pinned by it.
    let branch = g.add_child(hs[2], "branch").unwrap();
    let deep = g.add_child(branch, "deep").unwrap();
    g.set_envelope(branch, unit_box()).unwrap();
    g.set_envelope(deep, unit_box()).unwrap();
    g.advance(branch, NodeState::Reserved).unwrap();
    g.advance(deep, NodeState::Reserved).unwrap();
    // `branch` itself is Reserved, so removal fails on the node, not the descendant.
    assert!(matches!(g.remove(branch), Err(NodeError::NotProjected { .. })));
}

#[test]
fn adjacency_is_symmetric_same_kind_and_idempotent() {
    let mut g = graph(1.0, 1);
    let reach = g.add_child(g.root(), "r").unwrap();
    let area = g.add_child(reach, "a").unwrap();
    let s1 = g.add_child(area, "s1").unwrap();
    let s2 = g.add_child(area, "s2").unwrap();

    g.connect(s1, s2).unwrap();
    g.connect(s1, s2).unwrap(); // idempotent
    assert_eq!(g.node(s1).unwrap().neighbors(), &[s2]);
    assert_eq!(g.node(s2).unwrap().neighbors(), &[s1]);

    assert_eq!(g.connect(s1, s1), Err(NodeError::SelfAdjacency));
    assert_eq!(
        g.connect(s1, area),
        Err(NodeError::KindMismatch { a: NodeKind::Space, b: NodeKind::Area })
    );
    assert!(g.check_invariants().is_none());

    g.disconnect(s1, s2).unwrap();
    assert!(g.node(s1).unwrap().neighbors().is_empty());
    assert!(g.node(s2).unwrap().neighbors().is_empty());
    g.disconnect(s1, s2).unwrap(); // idempotent
}

#[test]
fn removing_a_node_leaves_no_dangling_adjacency() {
    let mut g = graph(1.0, 1);
    let reach = g.add_child(g.root(), "r").unwrap();
    let area = g.add_child(reach, "a").unwrap();
    let s1 = g.add_child(area, "s1").unwrap();
    let s2 = g.add_child(area, "s2").unwrap();
    let s3 = g.add_child(area, "s3").unwrap();
    g.connect(s1, s2).unwrap();
    g.connect(s2, s3).unwrap();

    g.remove(s2).unwrap();
    assert!(g.node(s1).unwrap().neighbors().is_empty());
    assert!(g.node(s3).unwrap().neighbors().is_empty());
    assert!(g.check_invariants().is_none(), "no one-sided links may survive");
}

#[test]
fn advance_with_ancestors_establishes_the_chain_top_down() {
    let (mut g, hs) = chain();
    for h in &hs {
        g.set_envelope(*h, unit_box()).unwrap();
    }
    g.advance_with_ancestors(hs[4], NodeState::Realized).unwrap();
    for h in &hs {
        assert_eq!(g.node(*h).unwrap().state(), NodeState::Realized);
    }
    assert!(g.check_invariants().is_none());
}

#[test]
fn queries_answer_scope_questions() {
    let (g, hs) = chain();
    let spatial = hs[4];
    assert_eq!(g.scope_of(spatial, NodeKind::Space), Some(hs[3]));
    assert_eq!(g.scope_of(spatial, NodeKind::World), Some(hs[0]));
    assert_eq!(g.scope_of(spatial, NodeKind::Spatial), Some(spatial), "a node is its own scope");
    assert_eq!(g.depth_of(spatial), 4);
    assert_eq!(g.ancestors_of(spatial), vec![hs[3], hs[2], hs[1], hs[0]]);
    assert_eq!(g.descendants_of(hs[0]), vec![hs[1], hs[2], hs[3], hs[4]]);
    assert_eq!(g.walk(), hs);
    assert_eq!(g.of_kind(NodeKind::Space).len(), 1);
    assert_eq!(g.find(|n| n.state() == NodeState::Projected).len(), 5);
}

#[test]
fn traversal_is_depth_first_in_child_order() {
    let mut g = graph(1.0, 1);
    let r1 = g.add_child(g.root(), "r1").unwrap();
    let r2 = g.add_child(g.root(), "r2").unwrap();
    let a1 = g.add_child(r1, "a1").unwrap();
    let a2 = g.add_child(r1, "a2").unwrap();
    let a3 = g.add_child(r2, "a3").unwrap();
    // Depth-first, children in insertion order — not arena order, not sorted.
    assert_eq!(g.descendants_of(g.root()), vec![r1, a1, a2, r2, a3]);
}

#[test]
fn building_the_same_world_twice_is_identical() {
    fn build() -> NodeGraph<Aabb> {
        let mut g = graph(2.5, 0xABCD);
        let reach = g.add_child(g.root(), "reach").unwrap();
        let area = g.add_child(reach, "area").unwrap();
        let spaces: Vec<_> = (0..4).map(|i| g.add_child(area, &format!("space_{i}")).unwrap()).collect();
        for w in spaces.windows(2) {
            g.connect(w[0], w[1]).unwrap();
        }
        let doomed = g.add_child(area, "doomed").unwrap();
        g.remove(doomed).unwrap();
        for h in [g.root(), reach, area] {
            g.set_envelope(h, unit_box()).unwrap();
            g.advance(h, NodeState::Reserved).unwrap();
        }
        g
    }
    assert_eq!(build(), build());
    assert!(build().check_invariants().is_none());
}

#[test]
fn stale_handles_are_rejected() {
    let mut g = graph(1.0, 1);
    let reach = g.add_child(g.root(), "r").unwrap();
    g.remove(reach).unwrap();
    assert_eq!(g.node(reach), Err(NodeError::StaleHandle));
    assert_eq!(g.set_name(reach, "x"), Err(NodeError::StaleHandle));
    assert_eq!(g.advance(reach, NodeState::Reserved), Err(NodeError::StaleHandle));
    assert!(g.get(reach).is_none());
}

#[test]
fn a_fresh_graph_holds_only_its_world_root() {
    let g = graph(2.5, 7);
    assert_eq!(g.len(), 1);
    assert!(!g.is_empty());
    assert_eq!(g.seed(), 7);
    assert_eq!(f64::from_bits(g.scale_bits()), 2.5);
    let root = g.node(g.root()).unwrap();
    assert_eq!(root.kind(), NodeKind::World);
    assert_eq!(root.state(), NodeState::Projected);
    assert!(root.parent().is_none());
    assert!(root.envelope().is_none());
    assert_eq!(g.iter(), vec![g.root()]);
}

#[test]
fn removal_counts_and_envelopes_are_visible() {
    let (mut g, hs) = chain();
    assert_eq!(g.len(), 5);
    g.set_envelope(hs[2], unit_box()).unwrap();
    assert_eq!(g.node(hs[2]).unwrap().envelope(), Some(&unit_box()));
    g.remove(hs[3]).unwrap();
    assert_eq!(g.len(), 3);
    assert_eq!(g.iter(), vec![hs[0], hs[1], hs[2]]);
    assert!(g.node(hs[2]).unwrap().children().is_empty());
}

#[test]
fn queries_at_the_root_find_nothing_above_it() {
    let (mut g, hs) = chain();
    assert_eq!(g.check_invariants(), None);
    g.set_name(hs[1], "north").unwrap();
    assert_eq!(g.ancestors_of(hs[0]), vec![]);
    assert_eq!(g.depth_of(hs[0]), 0);
    assert_eq!(g.scope_of(hs[0], NodeKind::Space), None);
}
