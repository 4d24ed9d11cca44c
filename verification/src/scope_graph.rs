//! The scope graph: the containment tree of the generated world, rooted at the World node, plus
//! spatial adjacency between peers.
//!
//! This is *structure*. Adjacency here means "these scopes are spatially connected", not "you can
//! get from one to the other"; progression lives in the mission graph.
//!
//! Nodes live in slots; a handle names a slot. A slot, once vacated, is never handed out again, so
//! a handle to a removed node stays stale for good. The spatial bounds a node claims are the host's
//! own type `B`: the graph only cares whether a node has claimed any.

use crate::handle::Handle;
use crate::node::{kind_depth, kind_name, state_name, state_rank, NodeError, NodeKind, NodeState};
use crate::object::{description, IdAllocator, Object, ObjectHeader, ObjectId};
use crate::text::str_debug;
use vstd::prelude::*;

verus! {

broadcast use {
    Handle::lemma_parts_determine,
    Handle::lemma_issued_parts,
    ObjectId::lemma_raw_determines,
    ObjectId::lemma_of_raw,
};

/// One scope in the hierarchy.
///
/// Read-only by construction: every mutation goes through [`NodeGraph`], which is where the
/// lifecycle and containment rules are checked.
#[derive(Clone, Debug, PartialEq)]
pub struct Node<B> {
    header: ObjectHeader,
    kind: NodeKind,
    state: NodeState,
    parent: Option<Handle<Node<B>>>,
    children: Vec<Handle<Node<B>>>,
    neighbors: Vec<Handle<Node<B>>>,
    envelope: Option<B>,
}

/// A node as plain values.
pub struct NodeView<B> {
    /// Stable identity.
    pub id: ObjectId,
    /// Human-facing name.
    pub name: Seq<char>,
    /// Where it sits in the hierarchy.
    pub kind: NodeKind,
    /// How far along the lifecycle it is.
    pub state: NodeState,
    /// The containing scope; `None` only for the root.
    pub parent: Option<Handle<Node<B>>>,
    /// Contained scopes, in insertion order.
    pub children: Seq<Handle<Node<B>>>,
    /// Adjacent peers, in insertion order.
    pub neighbors: Seq<Handle<Node<B>>>,
    /// The claimed spatial bounds, if any.
    pub envelope: Option<B>,
}

impl<B> View for Node<B> {
    type V = NodeView<B>;

    closed spec fn view(&self) -> NodeView<B> {
        NodeView {
            id: self.header.id,
            name: self.header.name@,
            kind: self.kind,
            state: self.state,
            parent: self.parent,
            children: self.children@,
            neighbors: self.neighbors@,
            envelope: self.envelope,
        }
    }
}

impl<B> Node<B> {
    /// Where this node sits in the hierarchy.
    pub fn kind(&self) -> (k: NodeKind)
        ensures
            k == self@.kind,
    {
        self.kind
    }

    /// How far along the lifecycle this node is.
    pub fn state(&self) -> (s: NodeState)
        ensures
            s == self@.state,
    {
        self.state
    }

    /// The containing scope, or `None` for the World root.
    pub fn parent(&self) -> (p: Option<Handle<Node<B>>>)
        ensures
            p == self@.parent,
    {
        self.parent
    }

    /// Contained scopes, in insertion order.
    pub fn children(&self) -> (c: &[Handle<Node<B>>])
        ensures
            c@ == self@.children,
    {
        self.children.as_slice()
    }

    /// Adjacent peers, in insertion order.
    pub fn neighbors(&self) -> (n: &[Handle<Node<B>>])
        ensures
            n@ == self@.neighbors,
    {
        self.neighbors.as_slice()
    }

    /// The claimed spatial bounds, if any.
    pub fn envelope(&self) -> (e: Option<&B>)
        ensures
            e is Some <==> self@.envelope is Some,
            e is Some ==> *e->Some_0 == self@.envelope->Some_0,
    {
        match &self.envelope {
            Some(b) => Some(b),
            None => None,
        }
    }

    /// Is this node frozen?
    pub fn is_realized(&self) -> (b: bool)
        ensures
            b == (self@.state == NodeState::Realized),
    {
        self.state == NodeState::Realized
    }
}

impl<B> Object for Node<B> {
    /// The node's header: its id and name.
    fn header(&self) -> (h: &ObjectHeader)
        ensures
            h.id == self@.id,
            h.name@ == self@.name,
    {
        &self.header
    }

    fn header_mut(&mut self) -> &mut ObjectHeader {
        &mut self.header
    }

    /// A node's type name is its kind's name.
    fn type_label(&self) -> (s: &'static str)
        ensures
            s@ == kind_name(self@.kind),
    {
        self.kind.as_str()
    }
}

/// The one-line description of a node used in diagnostics: kind, quoted name, id.
pub open spec fn describe<B>(n: NodeView<B>) -> Seq<char> {
    kind_name(n.kind) + " "@ + str_debug(n.name) + " "@ + seq!['#'] + crate::object::hex16(
        n.id.raw(),
    )
}

/// The scope graph as plain values: the slots in arena order, the root, and what the graph carries.
pub struct GraphView<B> {
    /// Every slot ever handed out; `None` once its node was removed.
    pub slots: Seq<Option<NodeView<B>>>,
    /// The World root.
    pub root: Handle<Node<B>>,
    /// The raw value the next node's id will take.
    pub next_id: u64,
    /// World units per metre, as the bits of a 64-bit float.
    pub scale_bits: u64,
    /// The seed the world was generated from.
    pub seed: u64,
}

/// Does `h` name a node that is still there?
pub open spec fn live<B>(g: GraphView<B>, h: Handle<Node<B>>) -> bool {
    &&& h.generation_spec() == 1
    &&& h.index_spec() < g.slots.len()
    &&& g.slots[h.index_spec() as int] is Some
}

/// The node `h` names (meaningful when it is live).
pub open spec fn node_of<B>(g: GraphView<B>, h: Handle<Node<B>>) -> NodeView<B> {
    g.slots[h.index_spec() as int]->Some_0
}

/// Can a node of kind `inner` sit directly inside one of kind `outer`?
pub open spec fn contains_kind(outer: NodeKind, inner: NodeKind) -> bool {
    kind_depth(inner) == kind_depth(outer) + 1
}

/// What [`NodeGraph::check_invariants`] checks of one live node `h`.
pub open spec fn node_sound<B>(g: GraphView<B>, h: Handle<Node<B>>) -> bool {
    let n = node_of(g, h);
    &&& match n.parent {
        Some(p) => {
            &&& live(g, p)
            &&& node_of(g, p).children.contains(h)
            &&& contains_kind(node_of(g, p).kind, n.kind)
            &&& state_rank(n.state) <= state_rank(node_of(g, p).state)
        },
        None => h == g.root,
    }
    &&& forall|j: int|
        0 <= j < n.neighbors.len() ==> {
            let q = #[trigger] n.neighbors[j];
            &&& live(g, q)
            &&& node_of(g, q).neighbors.contains(h)
            &&& node_of(g, q).kind == n.kind
        }
    &&& (n.state != NodeState::Projected ==> n.envelope is Some)
}

/// Every structural invariant the graph promises: parent links agree with child lists and the
/// hierarchy, no node is ahead of its parent, adjacency is symmetric and same-kind, and nothing past
/// `Projected` lacks an envelope.
pub open spec fn sound<B>(g: GraphView<B>) -> bool {
    forall|h: Handle<Node<B>>| #[trigger] live(g, h) ==> node_sound(g, h)
}

/// The shape every graph built through the API keeps; it implies [`sound`].
pub open spec fn well_formed<B>(g: GraphView<B>) -> bool {
    &&& g.slots.len() <= u32::MAX
    &&& live(g, g.root)
    &&& node_of(g, g.root).kind == NodeKind::World
    &&& node_of(g, g.root).parent is None
    &&& sound(g)
    &&& forall|h: Handle<Node<B>>|
        #[trigger] live(g, h) && h != g.root ==> node_of(g, h).parent is Some
    &&& forall|h: Handle<Node<B>>, j: int|
        #![trigger live(g, h), node_of(g, h).children[j]]
        live(g, h) && 0 <= j < node_of(g, h).children.len() ==> {
            let c = node_of(g, h).children[j];
            live(g, c) && node_of(g, c).parent == Some(h)
        }
    &&& forall|h: Handle<Node<B>>|
        #[trigger] live(g, h) ==> !node_of(g, h).neighbors.contains(h)
}

/// The graph with one node's view replaced.
pub open spec fn with_node<B>(g: GraphView<B>, h: Handle<Node<B>>, n: NodeView<B>) -> GraphView<B> {
    GraphView { slots: g.slots.update(h.index_spec() as int, Some(n)), ..g }
}

/// The kind a container of kind `k` holds.
pub open spec fn inner_kind(k: NodeKind) -> NodeKind {
    crate::node::kind_at(kind_depth(k) + 1)
}

/// The graph after a new `Projected` node named `name` is added under `parent`, in a fresh slot.
pub open spec fn with_child<B>(g: GraphView<B>, parent: Handle<Node<B>>, name: Seq<char>) -> GraphView<B> {
    let h = Handle::<Node<B>>::issued(g.slots.len() as u32, 1);
    let p = node_of(g, parent);
    let child = NodeView {
        id: ObjectId::of_raw(g.next_id),
        name,
        kind: inner_kind(p.kind),
        state: NodeState::Projected,
        parent: Some(parent),
        children: Seq::empty(),
        neighbors: Seq::empty(),
        envelope: None,
    };
    GraphView {
        slots: g.slots.update(parent.index_spec() as int, Some(NodeView { children: p.children.push(h), ..p })).push(
            Some(child),
        ),
        next_id: (g.next_id + 1) as u64,
        ..g
    }
}

/// Why a node may not be modified, if it may not: it is frozen once `Realized`.
pub open spec fn frozen_error<B>(n: NodeView<B>) -> Option<NodeError> {
    if n.state == NodeState::Realized {
        Some(NodeError::Immutable { kind: n.kind, state: n.state })
    } else {
        None
    }
}

/// What advancing `h` to `to` does: the graph afterwards and the answer.
///
/// No regression; the same state again is a no-op; no reservation without an envelope; never ahead
/// of the parent.
pub open spec fn advanced<B>(g: GraphView<B>, h: Handle<Node<B>>, to: NodeState) -> (GraphView<B>, Result<(), NodeError>) {
    if !live(g, h) {
        (g, Err(NodeError::StaleHandle))
    } else {
        let n = node_of(g, h);
        if state_rank(to) < state_rank(n.state) {
            (g, Err(NodeError::Regression { from: n.state, to }))
        } else if to == n.state {
            (g, Ok(()))
        } else if n.envelope is None {
            (g, Err(NodeError::MissingEnvelope { kind: n.kind }))
        } else {
            match n.parent {
                Some(p) => if !live(g, p) {
                    (g, Err(NodeError::StaleHandle))
                } else if state_rank(to) > state_rank(node_of(g, p).state) {
                    (g, Err(NodeError::AheadOfParent { parent: node_of(g, p).state, requested: to }))
                } else {
                    (with_node(g, h, NodeView { state: to, ..n }), Ok(()))
                },
                None => (with_node(g, h, NodeView { state: to, ..n }), Ok(())),
            }
        }
    }
}

/// Everything but `x`.
pub open spec fn other_than<B>(x: Handle<Node<B>>) -> spec_fn(Handle<Node<B>>) -> bool {
    |y: Handle<Node<B>>| y != x
}

/// `v` with `x` added at the end, unless it is there already.
pub open spec fn with_link<B>(v: Seq<Handle<Node<B>>>, x: Handle<Node<B>>) -> Seq<Handle<Node<B>>> {
    if v.contains(x) {
        v
    } else {
        v.push(x)
    }
}

/// What linking `a` and `b` as adjacent does: the graph afterwards and the answer.
///
/// A node is never its own neighbour; peers are the same kind; a realized node's links are
/// settled. Linking twice changes nothing.
pub open spec fn connected<B>(g: GraphView<B>, a: Handle<Node<B>>, b: Handle<Node<B>>) -> (GraphView<B>, Result<(), NodeError>) {
    if a == b {
        (g, Err(NodeError::SelfAdjacency))
    } else if !live(g, a) || !live(g, b) {
        (g, Err(NodeError::StaleHandle))
    } else {
        let na = node_of(g, a);
        let nb = node_of(g, b);
        if na.kind != nb.kind {
            (g, Err(NodeError::KindMismatch { a: na.kind, b: nb.kind }))
        } else if na.state == NodeState::Realized {
            (g, Err(NodeError::Immutable { kind: na.kind, state: na.state }))
        } else if nb.state == NodeState::Realized {
            (g, Err(NodeError::Immutable { kind: nb.kind, state: nb.state }))
        } else {
            let g1 = with_node(g, a, NodeView { neighbors: with_link(na.neighbors, b), ..na });
            (with_node(g1, b, NodeView { neighbors: with_link(nb.neighbors, a), ..nb }), Ok(()))
        }
    }
}

/// What unlinking `a` and `b` does: the graph afterwards and the answer. Unlinking twice changes
/// nothing.
pub open spec fn disconnected<B>(g: GraphView<B>, a: Handle<Node<B>>, b: Handle<Node<B>>) -> (GraphView<B>, Result<(), NodeError>) {
    if !live(g, a) || !live(g, b) {
        (g, Err(NodeError::StaleHandle))
    } else {
        let na = node_of(g, a);
        let nb = node_of(g, b);
        if na.state == NodeState::Realized {
            (g, Err(NodeError::Immutable { kind: na.kind, state: na.state }))
        } else if nb.state == NodeState::Realized {
            (g, Err(NodeError::Immutable { kind: nb.kind, state: nb.state }))
        } else {
            let g1 = with_node(g, a, NodeView { neighbors: na.neighbors.filter(other_than(b)), ..na });
            let nb1 = node_of(g1, b);
            (with_node(g1, b, NodeView { neighbors: nb1.neighbors.filter(other_than(a)), ..nb1 }), Ok(()))
        }
    }
}

/// The parent of `h`, when `h` is live and has one.
pub open spec fn parent_in<B>(g: GraphView<B>, h: Handle<Node<B>>) -> Option<Handle<Node<B>>> {
    if live(g, h) {
        node_of(g, h).parent
    } else {
        None
    }
}

/// Starting from `at`, the chain of parent links, following at most `fuel` of them.
pub open spec fn chain_from<B>(g: GraphView<B>, at: Option<Handle<Node<B>>>, fuel: nat) -> Seq<Handle<Node<B>>>
    decreases fuel,
{
    if fuel == 0 {
        Seq::empty()
    } else {
        match at {
            None => Seq::empty(),
            Some(c) => seq![c] + chain_from(g, parent_in(g, c), (fuel - 1) as nat),
        }
    }
}

/// The ancestors of `h`, nearest first, ending at the root. The hierarchy has five levels, so a
/// chain has at most four links.
pub open spec fn ancestors<B>(g: GraphView<B>, h: Handle<Node<B>>) -> Seq<Handle<Node<B>>> {
    chain_from(g, parent_in(g, h), 4)
}

/// The subtree below `h` in depth-first order, children in insertion order, descending at most
/// `fuel` levels.
pub open spec fn preorder<B>(g: GraphView<B>, h: Handle<Node<B>>, fuel: nat) -> Seq<Handle<Node<B>>>
    decreases fuel, 0nat,
{
    if fuel == 0 || !live(g, h) {
        Seq::empty()
    } else {
        preorder_kids(g, node_of(g, h).children, 0, (fuel - 1) as nat)
    }
}

/// The children `kids[i..]`, each followed by its own subtree.
pub open spec fn preorder_kids<B>(g: GraphView<B>, kids: Seq<Handle<Node<B>>>, i: nat, fuel: nat) -> Seq<Handle<Node<B>>>
    decreases fuel, kids.len() - i + 1,
{
    if i >= kids.len() {
        Seq::empty()
    } else {
        seq![kids[i as int]] + preorder(g, kids[i as int], fuel) + preorder_kids(g, kids, i + 1, fuel)
    }
}

/// Every descendant of `h`, depth-first in child order, not including `h` itself.
pub open spec fn descendants<B>(g: GraphView<B>, h: Handle<Node<B>>) -> Seq<Handle<Node<B>>> {
    preorder(g, h, 4)
}

/// The first of `hs[i..]` of kind `kind`.
pub open spec fn first_of_kind<B>(g: GraphView<B>, hs: Seq<Handle<Node<B>>>, i: nat, kind: NodeKind) -> Option<Handle<Node<B>>>
    decreases hs.len() - i,
{
    if i >= hs.len() {
        None
    } else if live(g, hs[i as int]) && node_of(g, hs[i as int]).kind == kind {
        Some(hs[i as int])
    } else {
        first_of_kind(g, hs, i + 1, kind)
    }
}

/// The enclosing scope of kind `kind`: `h` itself, or its nearest ancestor of that kind.
pub open spec fn scope_in<B>(g: GraphView<B>, h: Handle<Node<B>>, kind: NodeKind) -> Option<Handle<Node<B>>> {
    if !live(g, h) {
        None
    } else if node_of(g, h).kind == kind {
        Some(h)
    } else {
        first_of_kind(g, ancestors(g, h), 0, kind)
    }
}

/// Advancing each of `chain` in turn to at least `to`, stopping at the first refusal.
pub open spec fn advanced_along<B>(g: GraphView<B>, chain: Seq<Handle<Node<B>>>, to: NodeState) -> (GraphView<B>, Result<(), NodeError>)
    decreases chain.len(),
{
    if chain.len() == 0 {
        (g, Ok(()))
    } else {
        let x = chain[0];
        if !live(g, x) {
            (g, Err(NodeError::StaleHandle))
        } else if state_rank(node_of(g, x).state) < state_rank(to) {
            let (g1, r) = advanced(g, x, to);
            match r {
                Err(e) => (g1, Err(e)),
                Ok(_) => advanced_along(g1, chain.drop_first(), to),
            }
        } else {
            advanced_along(g, chain.drop_first(), to)
        }
    }
}

/// The graph after the links of `h` to the peers in `done` are dropped on the peers' side, and
/// `h` itself keeps no neighbours.
pub open spec fn unlink_stage<B>(g: GraphView<B>, h: Handle<Node<B>>, done: Seq<Handle<Node<B>>>) -> GraphView<B> {
    GraphView {
        slots: Seq::new(
            g.slots.len(),
            |i: int|
                if i == h.index_spec() {
                    Some(NodeView { neighbors: Seq::empty(), ..node_of(g, h) })
                } else {
                    match g.slots[i] {
                        None => None,
                        Some(n) => if done.contains(Handle::<Node<B>>::issued(i as u32, 1)) {
                            Some(NodeView { neighbors: n.neighbors.filter(other_than(h)), ..n })
                        } else {
                            Some(n)
                        },
                    }
                },
        ),
        ..g
    }
}

/// The graph after every adjacency naming `h` is dropped: `h` keeps no neighbours, and each live
/// peer it listed forgets it.
pub open spec fn unlinked<B>(g: GraphView<B>, h: Handle<Node<B>>) -> GraphView<B> {
    unlink_stage(g, h, node_of(g, h).neighbors)
}

/// `h` and everything below it.
pub open spec fn subtree<B>(g: GraphView<B>, h: Handle<Node<B>>) -> Seq<Handle<Node<B>>> {
    seq![h] + descendants(g, h)
}

/// Partway through a removal: the nodes of `gone` are vacated, no survivor links to them, and the
/// removed node `h` is off its parent `p`'s child list.
pub open spec fn pruned_by<B>(g: GraphView<B>, h: Handle<Node<B>>, p: Handle<Node<B>>, gone: Seq<Handle<Node<B>>>) -> GraphView<B> {
    GraphView {
        slots: Seq::new(
            g.slots.len(),
            |i: int|
                if gone.contains(Handle::<Node<B>>::issued(i as u32, 1)) {
                    None
                } else {
                    match g.slots[i] {
                        None => None,
                        Some(n) => Some(
                            NodeView {
                                neighbors: n.neighbors.filter(not_in(gone)),
                                children: if i == p.index_spec() {
                                    n.children.filter(other_than(h))
                                } else {
                                    n.children
                                },
                                ..n
                            },
                        ),
                    }
                },
        ),
        ..g
    }
}

/// The graph after `h` and its whole subtree are removed.
pub open spec fn pruned<B>(g: GraphView<B>, h: Handle<Node<B>>) -> GraphView<B> {
    pruned_by(g, h, node_of(g, h).parent->Some_0, subtree(g, h))
}

/// The state of the first of `ds[i..]` that has advanced past `Projected`.
pub open spec fn first_committed<B>(g: GraphView<B>, ds: Seq<Handle<Node<B>>>, i: nat) -> Option<NodeState>
    decreases ds.len() - i,
{
    if i >= ds.len() {
        None
    } else if node_of(g, ds[i as int]).state != NodeState::Projected {
        Some(node_of(g, ds[i as int]).state)
    } else {
        first_committed(g, ds, i + 1)
    }
}

/// What removing `h` does: the graph afterwards and the answer.
///
/// The root is never removable; only a `Projected` node whose whole subtree is still `Projected`
/// may go, and it takes its subtree with it.
pub open spec fn removed<B>(g: GraphView<B>, h: Handle<Node<B>>) -> (GraphView<B>, Result<(), NodeError>) {
    if h == g.root {
        (g, Err(NodeError::RootNode))
    } else if !live(g, h) {
        (g, Err(NodeError::StaleHandle))
    } else if node_of(g, h).state != NodeState::Projected {
        (g, Err(NodeError::NotProjected { state: node_of(g, h).state }))
    } else {
        match first_committed(g, descendants(g, h), 0) {
            Some(st) => (g, Err(NodeError::SubtreeCommitted { descendant_state: st })),
            None => (pruned(g, h), Ok(())),
        }
    }
}

/// The first trouble with the adjacency links of `h`, from its `j`-th neighbour on.
pub open spec fn neighbour_violation<B>(g: GraphView<B>, h: Handle<Node<B>>, j: nat) -> Option<Seq<char>>
    decreases node_of(g, h).neighbors.len() - j,
{
    let n = node_of(g, h);
    if j >= n.neighbors.len() {
        None
    } else {
        let q = n.neighbors[j as int];
        if !live(g, q) {
            Some(describe(n) + " points at a dangling neighbour"@)
        } else if !node_of(g, q).neighbors.contains(h) {
            Some(describe(n) + " has a one-sided adjacency link"@)
        } else if node_of(g, q).kind != n.kind {
            Some(describe(n) + " is adjacent to a "@ + kind_name(node_of(g, q).kind))
        } else {
            neighbour_violation(g, h, j + 1)
        }
    }
}

/// The first trouble with the parent link of `h`.
pub open spec fn parent_violation<B>(g: GraphView<B>, h: Handle<Node<B>>) -> Option<Seq<char>> {
    let n = node_of(g, h);
    match n.parent {
        Some(p) => if !live(g, p) {
            Some(describe(n) + " points at a dangling parent"@)
        } else if !node_of(g, p).children.contains(h) {
            Some(describe(n) + " is not listed in its parent's children"@)
        } else if !contains_kind(node_of(g, p).kind, n.kind) {
            Some("a "@ + kind_name(node_of(g, p).kind) + " contains a "@ + kind_name(n.kind))
        } else if state_rank(n.state) > state_rank(node_of(g, p).state) {
            Some(describe(n) + " is "@ + state_name(n.state) + " but its parent is only "@ + state_name(node_of(g, p).state))
        } else {
            None
        },
        None => if h != g.root {
            Some(describe(n) + " is parentless but is not the root"@)
        } else {
            None
        },
    }
}

/// The first trouble with the live node `h`: its parent link, then its adjacency, then its
/// envelope.
pub open spec fn node_violation<B>(g: GraphView<B>, h: Handle<Node<B>>) -> Option<Seq<char>> {
    let n = node_of(g, h);
    if parent_violation(g, h) is Some {
        parent_violation(g, h)
    } else if neighbour_violation(g, h, 0) is Some {
        neighbour_violation(g, h, 0)
    } else if n.state != NodeState::Projected && n.envelope is None {
        Some(describe(n) + " is "@ + state_name(n.state) + " without an envelope"@)
    } else {
        None
    }
}

/// The description of the first violation among the nodes in slots `i..`, in arena order.
pub open spec fn first_violation<B>(g: GraphView<B>, i: nat) -> Option<Seq<char>>
    decreases g.slots.len() - i,
{
    if i >= g.slots.len() {
        None
    } else if g.slots[i as int] is Some && node_violation(g, Handle::<Node<B>>::issued(i as u32, 1)) is Some {
        node_violation(g, Handle::<Node<B>>::issued(i as u32, 1))
    } else {
        first_violation(g, i + 1)
    }
}

/// How many nodes are live among the first `n` slots.
pub open spec fn live_upto<B>(slots: Seq<Option<NodeView<B>>>, n: nat) -> nat
    decreases n,
{
    if n == 0 || n > slots.len() {
        0
    } else {
        live_upto(slots, (n - 1) as nat) + if slots[n - 1] is Some {
            1nat
        } else {
            0nat
        }
    }
}

/// Do the handles of `v` list, in arena order and each once, exactly the live nodes satisfying `keep`?
pub open spec fn lists_live<B>(g: GraphView<B>, v: Seq<Handle<Node<B>>>, keep: spec_fn(NodeView<B>) -> bool) -> bool {
    &&& forall|k: int| 0 <= k < v.len() ==> live(g, #[trigger] v[k]) && keep(node_of(g, v[k]))
    &&& forall|k: int, l: int| 0 <= k < l < v.len() ==> (#[trigger] v[k]).index_spec() < (#[trigger] v[l]).index_spec()
    &&& forall|h: Handle<Node<B>>| live(g, h) && keep(node_of(g, h)) ==> #[trigger] v.contains(h)
}

/// The scope graph: containment tree plus peer adjacency, rooted at the World node.
#[derive(Clone, Debug, PartialEq)]
pub struct NodeGraph<B> {
    slots: Vec<Option<Node<B>>>,
    root: Handle<Node<B>>,
    ids: IdAllocator,
    scale_bits: u64,
    seed: u64,
}

impl<B> View for NodeGraph<B> {
    type V = GraphView<B>;

    closed spec fn view(&self) -> GraphView<B> {
        GraphView {
            slots: self.slots@.map_values(
                |o: Option<Node<B>>|
                    match o {
                        Some(n) => Some(n@),
                        None => None,
                    },
            ),
            root: self.root,
            next_id: self.ids.next_raw(),
            scale_bits: self.scale_bits,
            seed: self.seed,
        }
    }
}

/// The node a fresh graph starts with, under the id it was given.
pub open spec fn fresh_root<B>(id: ObjectId) -> NodeView<B> {
    NodeView {
        id,
        name: "World"@,
        kind: NodeKind::World,
        state: NodeState::Projected,
        parent: None,
        children: Seq::empty(),
        neighbors: Seq::empty(),
        envelope: None,
    }
}

impl<B> NodeGraph<B> {
    /// The invariant every operation keeps.
    pub open spec fn wf(&self) -> bool {
        well_formed(self@)
    }

    /// A new graph containing only a `Projected` World root.
    pub fn new(scale_bits: u64, seed: u64) -> (g: NodeGraph<B>)
        ensures
            g.wf(),
            g@.slots.len() == 1,
            g@.root.index_spec() == 0,
            node_of(g@, g@.root) == fresh_root::<B>(node_of(g@, g@.root).id),
            node_of(g@, g@.root).id.raw() == 1,
            g@.root.generation_spec() == 1,
            g@.next_id == 2,
            g@.scale_bits == scale_bits,
            g@.seed == seed,
    {
        let mut ids = IdAllocator::new();
        let id = ids.allocate();
        let world = Node {
            header: ObjectHeader::new(id, "World"),
            kind: NodeKind::World,
            state: NodeState::Projected,
            parent: None,
            children: Vec::new(),
            neighbors: Vec::new(),
            envelope: None,
        };
        let mut slots: Vec<Option<Node<B>>> = Vec::new();
        slots.push(Some(world));
        let g = NodeGraph { slots, root: Handle::issue(0, 1), ids, scale_bits, seed };
        proof {
            reveal_strlit("World");
            assert(g@.slots[0] == Some(fresh_root::<B>(id)));
            assert forall|h: Handle<Node<B>>| #[trigger] live(g@, h) implies h == g@.root by {}
        }
        g
    }

    /// The World root.
    pub fn root(&self) -> (h: Handle<Node<B>>)
        ensures
            h == self@.root,
    {
        self.root
    }

    /// World units per metre, as the bits of a 64-bit float.
    pub fn scale_bits(&self) -> (b: u64)
        ensures
            b == self@.scale_bits,
    {
        self.scale_bits
    }

    /// The seed this world was generated from.
    pub fn seed(&self) -> (s: u64)
        ensures
            s == self@.seed,
    {
        self.seed
    }

    /// The slot `h` names, when it names a live node.
    fn slot_of(&self, h: Handle<Node<B>>) -> (i: Option<usize>)
        ensures
            match i {
                Some(k) => live(self@, h) && k == h.index_spec(),
                None => !live(self@, h),
            },
    {
        let k = h.index() as usize;
        if h.generation() == 1 && k < self.slots.len() && self.slots[k].is_some() {
            proof {
                assert(self@.slots[k as int] is Some);
            }
            Some(k)
        } else {
            proof {
                if h.generation_spec() == 1 && k < self.slots@.len() {
                    assert(self.slots@[k as int] is None);
                    assert(self@.slots[k as int] is None);
                }
            }
            None
        }
    }

    /// Borrow a node, or `None` if the handle is stale.
    pub fn get(&self, h: Handle<Node<B>>) -> (n: Option<&Node<B>>)
        ensures
            n is Some <==> live(self@, h),
            n is Some ==> n->Some_0@ == node_of(self@, h),
    {
        match self.slot_of(h) {
            Some(k) => match &self.slots[k] {
                Some(n) => Some(n),
                None => None,
            },
            None => None,
        }
    }

    /// Borrow a node, erroring on a stale handle.
    pub fn node(&self, h: Handle<Node<B>>) -> (res: Result<&Node<B>, NodeError>)
        ensures
            live(self@, h) ==> res is Ok && res->Ok_0@ == node_of(self@, h),
            !live(self@, h) ==> res == Err::<&Node<B>, NodeError>(NodeError::StaleHandle),
    {
        match self.get(h) {
            Some(n) => Ok(n),
            None => Err(NodeError::StaleHandle),
        }
    }
    /// How many nodes exist.
    pub fn len(&self) -> (n: usize)
        ensures
            n == live_upto(self@.slots, self@.slots.len()),
    {
        let mut n: usize = 0;
        let mut i: usize = 0;
        while i < self.slots.len()
            invariant
                i <= self.slots@.len(),
                n == live_upto(self@.slots, i as nat),
                n <= i,
            decreases self.slots@.len() - i,
        {
            if self.slots[i].is_some() {
                assert(self@.slots[i as int] is Some);
                n = n + 1;
            } else {
                assert(self@.slots[i as int] is None);
            }
            i = i + 1;
        }
        n
    }

    /// Is the graph empty? Never, for a graph always has its World root.
    pub fn is_empty(&self) -> (b: bool)
        ensures
            b == (live_upto(self@.slots, self@.slots.len()) == 0),
    {
        self.len() == 0
    }

    /// Every live node's handle, in arena order.
    pub fn iter(&self) -> (v: Vec<Handle<Node<B>>>)
        requires
            self.wf(),
        ensures
            lists_live(self@, v@, |n: NodeView<B>| true),
    {
        self.collect_where(None)
    }

    /// Every node of a kind, in arena order.
    pub fn of_kind(&self, kind: NodeKind) -> (v: Vec<Handle<Node<B>>>)
        requires
            self.wf(),
        ensures
            lists_live(self@, v@, |n: NodeView<B>| n.kind == kind),
    {
        self.collect_where(Some(kind))
    }

    /// The live nodes, or those of one kind, in arena order.
    #[verifier::loop_isolation(false)]
    fn collect_where(&self, kind: Option<NodeKind>) -> (v: Vec<Handle<Node<B>>>)
        requires
            self@.slots.len() <= u32::MAX,
        ensures
            lists_live(
                self@,
                v@,
                |n: NodeView<B>|
                    match kind {
                        Some(k) => n.kind == k,
                        None => true,
                    },
            ),
    {
        let ghost keep = |n: NodeView<B>|
            match kind {
                Some(k) => n.kind == k,
                None => true,
            };
        let mut v: Vec<Handle<Node<B>>> = Vec::new();
        let mut i: usize = 0;
        while i < self.slots.len()
            invariant
                i <= self.slots@.len(),
                self@.slots.len() <= u32::MAX,
                forall|k: int| 0 <= k < v@.len() ==> live(self@, #[trigger] v@[k]) && keep(node_of(self@, v@[k])),
                forall|k: int| 0 <= k < v@.len() ==> (#[trigger] v@[k]).index_spec() < i,
                forall|k: int, l: int| 0 <= k < l < v@.len() ==> (#[trigger] v@[k]).index_spec() < (#[trigger] v@[l]).index_spec(),
                forall|h: Handle<Node<B>>| live(self@, h) && keep(node_of(self@, h)) && h.index_spec() < i ==> #[trigger] v@.contains(h),
            decreases self.slots@.len() - i,
        {
            match &self.slots[i] {
                Some(n) => {
                    assert(self@.slots[i as int] == Some(n@));
                    let wanted = match kind {
                        Some(k) => n.kind == k,
                        None => true,
                    };
                    if wanted {
                        let h = Handle::issue(i as u32, 1);
                        let ghost before = v@;
                        v.push(h);
                        proof {
                            assert(v@[before.len() as int] == h);
                            assert forall|x: Handle<Node<B>>| live(self@, x) && keep(node_of(self@, x)) && x.index_spec() < i + 1 implies #[trigger] v@.contains(x) by {
                                if x.index_spec() < i {
                                    assert(before.contains(x));
                                    let k = choose|k: int| 0 <= k < before.len() && before[k] == x;
                                    assert(v@[k] == x);
                                } else {
                                    assert(x == h);
                                }
                            }
                        }
                    } else {
                        proof {
                            assert forall|x: Handle<Node<B>>| live(self@, x) && keep(node_of(self@, x)) && x.index_spec() < i + 1 implies #[trigger] v@.contains(x) by {
                                if x.index_spec() == i {
                                    assert(node_of(self@, x) == n@);
                                }
                            }
                        }
                    }
                },
                None => {
                    proof {
                        assert(self@.slots[i as int] is None);
                    }
                },
            }
            i = i + 1;
        }
        v
    }

    /// Add a child under `parent`, with the kind the hierarchy dictates.
    ///
    /// The new node starts `Projected` with no envelope. Its kind is derived, never passed in, so an
    /// Area can only ever hold Spaces. A realized parent may still gain children: freezing a node
    /// freezes its own attributes, not its membership.
    pub fn add_child(&mut self, parent: Handle<Node<B>>, name: &str) -> (res: Result<Handle<Node<B>>, NodeError>)
        requires
            old(self).wf(),
            old(self)@.slots.len() < u32::MAX,
            old(self)@.next_id < u64::MAX,
        ensures
            final(self).wf(),
            !live(old(self)@, parent) ==> res == Err::<Handle<Node<B>>, NodeError>(NodeError::StaleHandle)
                && final(self)@ == old(self)@,
            live(old(self)@, parent) && node_of(old(self)@, parent).kind == NodeKind::Spatial ==> res
                == Err::<Handle<Node<B>>, NodeError>(NodeError::NotAContainer { kind: NodeKind::Spatial })
                && final(self)@ == old(self)@,
            live(old(self)@, parent) && node_of(old(self)@, parent).kind != NodeKind::Spatial ==> res
                == Ok::<Handle<Node<B>>, NodeError>(Handle::issued(old(self)@.slots.len() as u32, 1))
                && final(self)@ == with_child(old(self)@, parent, name@),
    {
        let pi = match self.slot_of(parent) {
            Some(k) => k,
            None => return Err(NodeError::StaleHandle),
        };
        let pkind = match &self.slots[pi] {
            Some(n) => n.kind,
            None => return Err(NodeError::StaleHandle),
        };
        let kind = match pkind.child_kind() {
            Some(k) => k,
            None => return Err(NodeError::NotAContainer { kind: pkind }),
        };
        let ghost g0 = self@;
        let id = self.ids.allocate();
        let index = self.slots.len();
        let h: Handle<Node<B>> = Handle::issue(index as u32, 1);
        let child = Node {
            header: ObjectHeader::new(id, name),
            kind,
            state: NodeState::Projected,
            parent: Some(parent),
            children: Vec::new(),
            neighbors: Vec::new(),
            envelope: None,
        };
        self.slots.push(Some(child));
        let mut slot = self.slots[pi].take();
        match &mut slot {
            Some(n) => n.children.push(h),
            None => {},
        }
        self.slots.set(pi, slot);
        proof {
            let g1 = with_child(g0, parent, name@);
            assert(self@.slots =~= g1.slots);
            assert(self@ == g1);
            lemma_add_child_keeps_shape(g0, parent, name@);
        }
        Ok(h)
    }

    /// Reject mutation of a realized node.
    fn check_mutable(&self, node: &Node<B>) -> (res: Result<(), NodeError>)
        ensures
            match frozen_error(node@) {
                Some(e) => res == Err::<(), NodeError>(e),
                None => res is Ok,
            },
    {
        if node.state == NodeState::Realized {
            return Err(NodeError::Immutable { kind: node.kind, state: node.state });
        }
        Ok(())
    }

    /// Rename a node. Names are for humans; identity is unaffected.
    pub fn set_name(&mut self, h: Handle<Node<B>>, name: &str) -> (res: Result<(), NodeError>)
        requires
            old(self).wf(),
        ensures
            final(self).wf(),
            !live(old(self)@, h) ==> res == Err::<(), NodeError>(NodeError::StaleHandle) && final(self)@ == old(self)@,
            live(old(self)@, h) && frozen_error(node_of(old(self)@, h)) is Some ==> res == Err::<(), NodeError>(
                frozen_error(node_of(old(self)@, h))->Some_0,
            ) && final(self)@ == old(self)@,
            live(old(self)@, h) && frozen_error(node_of(old(self)@, h)) is None ==> res is Ok && final(self)@
                == with_node(old(self)@, h, NodeView { name: name@, ..node_of(old(self)@, h) }),
    {
        let i = match self.slot_of(h) {
            Some(k) => k,
            None => return Err(NodeError::StaleHandle),
        };
        let ghost g0 = self@;
        let mut slot = self.slots[i].take();
        let r = match &mut slot {
            Some(n) => match self.check_mutable(&*n) {
                Err(e) => Err(e),
                Ok(()) => {
                    n.header.name = String::from_str(name);
                    Ok(())
                },
            },
            None => Err(NodeError::StaleHandle),
        };
        self.slots.set(i, slot);
        proof {
            match r {
                Ok(_) => {
                    let g1 = with_node(g0, h, NodeView { name: name@, ..node_of(g0, h) });
                    assert(self@.slots =~= g1.slots);
                    lemma_attribute_change_keeps_shape(g0, h, NodeView { name: name@, ..node_of(g0, h) });
                },
                Err(_) => {
                    assert(self@.slots =~= g0.slots);
                },
            }
        }
        r
    }

    /// Claim or refine this node's spatial bounds. Allowed while `Projected` or `Reserved`.
    pub fn set_envelope(&mut self, h: Handle<Node<B>>, envelope: B) -> (res: Result<(), NodeError>)
        requires
            old(self).wf(),
        ensures
            final(self).wf(),
            !live(old(self)@, h) ==> res == Err::<(), NodeError>(NodeError::StaleHandle) && final(self)@ == old(self)@,
            live(old(self)@, h) && frozen_error(node_of(old(self)@, h)) is Some ==> res == Err::<(), NodeError>(
                frozen_error(node_of(old(self)@, h))->Some_0,
            ) && final(self)@ == old(self)@,
            live(old(self)@, h) && frozen_error(node_of(old(self)@, h)) is None ==> res is Ok && final(self)@
                == with_node(old(self)@, h, NodeView { envelope: Some(envelope), ..node_of(old(self)@, h) }),
    {
        let i = match self.slot_of(h) {
            Some(k) => k,
            None => return Err(NodeError::StaleHandle),
        };
        let ghost g0 = self@;
        let mut slot = self.slots[i].take();
        let r = match &mut slot {
            Some(n) => match self.check_mutable(&*n) {
                Err(e) => Err(e),
                Ok(()) => {
                    n.envelope = Some(envelope);
                    Ok(())
                },
            },
            None => Err(NodeError::StaleHandle),
        };
        self.slots.set(i, slot);
        proof {
            match r {
                Ok(_) => {
                    let g1 = with_node(g0, h, NodeView { envelope: Some(envelope), ..node_of(g0, h) });
                    assert(self@.slots =~= g1.slots);
                    lemma_attribute_change_keeps_shape(g0, h, NodeView { envelope: Some(envelope), ..node_of(g0, h) });
                },
                Err(_) => {
                    assert(self@.slots =~= g0.slots);
                },
            }
        }
        r
    }

    /// Advance a node along the lifecycle: no regression, never ahead of the parent, and no
    /// reservation without an envelope. Advancing to the state it is already in is a no-op.
    pub fn advance(&mut self, h: Handle<Node<B>>, to: NodeState) -> (res: Result<(), NodeError>)
        requires
            old(self).wf(),
        ensures
            final(self).wf(),
            (final(self)@, res) == advanced(old(self)@, h, to),
    {
        let i = match self.slot_of(h) {
            Some(k) => k,
            None => return Err(NodeError::StaleHandle),
        };
        let (from, kind, has_envelope, parent) = match &self.slots[i] {
            Some(n) => (n.state, n.kind, n.envelope.is_some(), n.parent),
            None => return Err(NodeError::StaleHandle),
        };
        if to.tag() < from.tag() {
            return Err(NodeError::Regression { from, to });
        }
        if to == from {
            return Ok(());
        }
        if !has_envelope {
            return Err(NodeError::MissingEnvelope { kind });
        }
        match parent {
            Some(p) => {
                let pstate = match self.get(p) {
                    Some(pn) => pn.state,
                    None => return Err(NodeError::StaleHandle),
                };
                if to.tag() > pstate.tag() {
                    return Err(NodeError::AheadOfParent { parent: pstate, requested: to });
                }
            },
            None => {},
        }
        let ghost g0 = self@;
        let mut slot = self.slots[i].take();
        match &mut slot {
            Some(n) => {
                n.state = to;
            },
            None => {},
        }
        self.slots.set(i, slot);
        proof {
            let n1 = NodeView { state: to, ..node_of(g0, h) };
            assert(self@.slots =~= with_node(g0, h, n1).slots);
            lemma_advance_keeps_shape(g0, h, to);
        }
        Ok(())
    }
    /// Link two peers as spatially adjacent. Undirected and idempotent.
    ///
    /// Both must be the same kind: adjacency connects rooms to rooms, not a room to a region.
    pub fn connect(&mut self, a: Handle<Node<B>>, b: Handle<Node<B>>) -> (res: Result<(), NodeError>)
        requires
            old(self).wf(),
        ensures
            final(self).wf(),
            (final(self)@, res) == connected(old(self)@, a, b),
    {
        if a == b {
            return Err(NodeError::SelfAdjacency);
        }
        let (ka, sa) = match self.node(a) {
            Ok(n) => (n.kind, n.state),
            Err(e) => return Err(e),
        };
        let (kb, sb) = match self.node(b) {
            Ok(n) => (n.kind, n.state),
            Err(e) => return Err(e),
        };
        if ka != kb {
            return Err(NodeError::KindMismatch { a: ka, b: kb });
        }
        if sa == NodeState::Realized {
            return Err(NodeError::Immutable { kind: ka, state: sa });
        }
        if sb == NodeState::Realized {
            return Err(NodeError::Immutable { kind: kb, state: sb });
        }
        let ghost g0 = self@;
        let ia = a.index() as usize;
        let ib = b.index() as usize;
        let mut slot = self.slots[ia].take();
        match &mut slot {
            Some(n) => {
                if !holds(&n.neighbors, b) {
                    n.neighbors.push(b);
                }
            },
            None => {},
        }
        self.slots.set(ia, slot);
        let ghost g1 = self@;
        proof {
            let na = node_of(g0, a);
            assert(self@.slots =~= with_node(g0, a, NodeView { neighbors: with_link(na.neighbors, b), ..na }).slots);
        }
        let mut slot = self.slots[ib].take();
        match &mut slot {
            Some(n) => {
                if !holds(&n.neighbors, a) {
                    n.neighbors.push(a);
                }
            },
            None => {},
        }
        self.slots.set(ib, slot);
        proof {
            let nb = node_of(g1, b);
            assert(self@.slots =~= with_node(g1, b, NodeView { neighbors: with_link(nb.neighbors, a), ..nb }).slots);
            assert(self@ == connected(g0, a, b).0);
            lemma_connect_keeps_shape(g0, a, b);
        }
        Ok(())
    }

    /// Remove an adjacency link. Idempotent.
    pub fn disconnect(&mut self, a: Handle<Node<B>>, b: Handle<Node<B>>) -> (res: Result<(), NodeError>)
        requires
            old(self).wf(),
        ensures
            final(self).wf(),
            (final(self)@, res) == disconnected(old(self)@, a, b),
    {
        let (ka, sa) = match self.node(a) {
            Ok(n) => (n.kind, n.state),
            Err(e) => return Err(e),
        };
        let (kb, sb) = match self.node(b) {
            Ok(n) => (n.kind, n.state),
            Err(e) => return Err(e),
        };
        if sa == NodeState::Realized {
            return Err(NodeError::Immutable { kind: ka, state: sa });
        }
        if sb == NodeState::Realized {
            return Err(NodeError::Immutable { kind: kb, state: sb });
        }
        let ghost g0 = self@;
        let ia = a.index() as usize;
        let ib = b.index() as usize;
        let mut slot = self.slots[ia].take();
        match &mut slot {
            Some(n) => {
                n.neighbors = without(&n.neighbors, b);
            },
            None => {},
        }
        self.slots.set(ia, slot);
        let ghost g1 = self@;
        proof {
            let na = node_of(g0, a);
            assert(self@.slots =~= with_node(g0, a, NodeView { neighbors: na.neighbors.filter(other_than(b)), ..na }).slots);
        }
        let mut slot = self.slots[ib].take();
        match &mut slot {
            Some(n) => {
                n.neighbors = without(&n.neighbors, a);
            },
            None => {},
        }
        self.slots.set(ib, slot);
        proof {
            let nb1 = node_of(g1, b);
            assert(self@.slots =~= with_node(g1, b, NodeView { neighbors: nb1.neighbors.filter(other_than(a)), ..nb1 }).slots);
            assert(self@ == disconnected(g0, a, b).0);
            lemma_disconnect_keeps_shape(g0, a, b);
        }
        Ok(())
    }
    /// This node's ancestors, nearest first, ending at the root.
    pub fn ancestors_of(&self, h: Handle<Node<B>>) -> (v: Vec<Handle<Node<B>>>)
        ensures
            v@ == ancestors(self@, h),
    {
        let mut out: Vec<Handle<Node<B>>> = Vec::new();
        let mut at = match self.get(h) {
            Some(n) => n.parent,
            None => None,
        };
        let mut fuel: u8 = 4;
        while fuel > 0
            invariant
                fuel <= 4,
                out@ + chain_from(self@, at, fuel as nat) == ancestors(self@, h),
            decreases fuel,
        {
            match at {
                Some(c) => {
                    let ghost before = out@;
                    out.push(c);
                    at = match self.get(c) {
                        Some(n) => n.parent,
                        None => None,
                    };
                    fuel = fuel - 1;
                    assert(before + (seq![c] + chain_from(self@, at, fuel as nat)) =~= out@ + chain_from(self@, at, fuel as nat));
                },
                None => {
                    assert(out@ + chain_from(self@, at, fuel as nat) =~= out@);
                    return out;
                },
            }
        }
        assert(out@ + chain_from(self@, at, 0) =~= out@);
        out
    }

    /// Every descendant, depth-first in child order, not including `h` itself.
    pub fn descendants_of(&self, h: Handle<Node<B>>) -> (v: Vec<Handle<Node<B>>>)
        ensures
            v@ == descendants(self@, h),
    {
        let mut out: Vec<Handle<Node<B>>> = Vec::new();
        self.collect_below(h, 4, &mut out);
        assert(out@ =~= descendants(self@, h));
        out
    }

    /// Append the subtree below `h`, descending at most `fuel` levels.
    #[verifier::loop_isolation(false)]
    fn collect_below(&self, h: Handle<Node<B>>, fuel: u8, out: &mut Vec<Handle<Node<B>>>)
        ensures
            final(out)@ == old(out)@ + preorder(self@, h, fuel as nat),
        decreases fuel,
    {
        if fuel == 0 {
            assert(old(out)@ + preorder(self@, h, 0) =~= old(out)@);
            return;
        }
        let n = match self.get(h) {
            Some(n) => n,
            None => {
                assert(old(out)@ + preorder(self@, h, fuel as nat) =~= old(out)@);
                return;
            },
        };
        let ghost kids = n.children@;
        let ghost f = (fuel - 1) as nat;
        let mut i: usize = 0;
        while i < n.children.len()
            invariant
                i <= kids.len(),
                kids == n@.children,
                old(out)@ + preorder(self@, h, fuel as nat) == out@ + preorder_kids(self@, kids, i as nat, f),
            decreases kids.len() - i,
        {
            let c = n.children[i];
            let ghost before = out@;
            out.push(c);
            self.collect_below(c, fuel - 1, out);
            assert(before + (seq![c] + preorder(self@, c, f) + preorder_kids(self@, kids, (i + 1) as nat, f)) =~= out@ + preorder_kids(self@, kids, (i + 1) as nat, f));
            i += 1;
        }
        assert(out@ + preorder_kids(self@, kids, i as nat, f) =~= out@);
    }

    /// The enclosing scope of a given kind: the node itself if it is that kind, else its nearest
    /// ancestor of that kind; `None` if there is none or the handle is stale.
    #[verifier::loop_isolation(false)]
    pub fn scope_of(&self, h: Handle<Node<B>>, kind: NodeKind) -> (s: Option<Handle<Node<B>>>)
        ensures
            s == scope_in(self@, h, kind),
    {
        let node = match self.get(h) {
            Some(n) => n,
            None => return None,
        };
        if node.kind == kind {
            return Some(h);
        }
        let chain = self.ancestors_of(h);
        let mut i: usize = 0;
        while i < chain.len()
            invariant
                i <= chain@.len(),
                chain@ == ancestors(self@, h),
                first_of_kind(self@, chain@, 0, kind) == first_of_kind(self@, chain@, i as nat, kind),
            decreases chain@.len() - i,
        {
            let a = chain[i];
            match self.get(a) {
                Some(n) => {
                    if n.kind == kind {
                        assert(first_of_kind(self@, chain@, i as nat, kind) == Some(a));
                        return Some(a);
                    }
                },
                None => {},
            }
            assert(first_of_kind(self@, chain@, i as nat, kind) == first_of_kind(self@, chain@, (i + 1) as nat, kind));
            i += 1;
        }
        None
    }

    /// Depth below the root; the root is 0.
    pub fn depth_of(&self, h: Handle<Node<B>>) -> (d: usize)
        ensures
            d == ancestors(self@, h).len(),
    {
        self.ancestors_of(h).len()
    }

    /// The whole tree in depth-first order, root first: the canonical deterministic walk.
    pub fn walk(&self) -> (v: Vec<Handle<Node<B>>>)
        ensures
            v@ == seq![self@.root] + descendants(self@, self@.root),
    {
        let mut out: Vec<Handle<Node<B>>> = Vec::new();
        out.push(self.root);
        self.collect_below(self.root, 4, &mut out);
        out
    }

    /// Advance a node and every ancestor up to the root to at least `to`, root first, so each
    /// parent advances before its child. Stops at the first refusal; what advanced before it stays
    /// advanced.
    #[verifier::loop_isolation(false)]
    pub fn advance_with_ancestors(&mut self, h: Handle<Node<B>>, to: NodeState) -> (res: Result<(), NodeError>)
        requires
            old(self).wf(),
        ensures
            final(self).wf(),
            (final(self)@, res) == advanced_along(old(self)@, ancestors(old(self)@, h).reverse().push(h), to),
    {
        let up = self.ancestors_of(h);
        let mut chain: Vec<Handle<Node<B>>> = Vec::new();
        let mut k = up.len();
        while k > 0
            invariant
                k <= up@.len(),
                chain@ == up@.subrange(k as int, up@.len() as int).reverse(),
            decreases k,
        {
            k = k - 1;
            let ghost before = chain@;
            chain.push(up[k]);
            assert(up@.subrange(k as int, up@.len() as int).reverse() =~= before.push(up@[k as int]));
        }
        assert(up@.subrange(0, up@.len() as int) =~= up@);
        chain.push(h);
        let ghost whole = chain@;
        let ghost g0 = self@;
        assert(whole.subrange(0, whole.len() as int) =~= whole);
        let mut i: usize = 0;
        while i < chain.len()
            invariant
                i <= whole.len(),
                chain@ == whole,
                self.wf(),
                advanced_along(g0, whole, to) == advanced_along(self@, whole.subrange(i as int, whole.len() as int), to),
            decreases whole.len() - i,
        {
            let x = chain[i];
            let ghost rest = whole.subrange(i as int, whole.len() as int);
            assert(rest[0] == x);
            assert(rest.drop_first() =~= whole.subrange(i + 1, whole.len() as int));
            let state = match self.node(x) {
                Ok(n) => n.state,
                Err(e) => {
                    assert(advanced_along(self@, rest, to) == (self@, Err::<(), NodeError>(NodeError::StaleHandle)));
                    return Err(e);
                },
            };
            let ghost before = self@;
            if state.tag() < to.tag() {
                match self.advance(x, to) {
                    Ok(_) => {
                        assert(advanced_along(before, rest, to) == advanced_along(self@, rest.drop_first(), to));
                    },
                    Err(e) => {
                        assert(advanced_along(before, rest, to) == (self@, Err::<(), NodeError>(e)));
                        return Err(e);
                    },
                }
            } else {
                assert(advanced_along(before, rest, to) == advanced_along(self@, rest.drop_first(), to));
            }
            i += 1;
        }
        assert(whole.subrange(i as int, whole.len() as int) =~= Seq::<Handle<Node<B>>>::empty());
        Ok(())
    }
    /// Drop every adjacency naming `h`, so no dangling links survive its removal.
    fn unlink_all(&mut self, h: Handle<Node<B>>)
        requires
            live(old(self)@, h),
            old(self)@.slots.len() <= u32::MAX,
        ensures
            final(self)@ == unlinked(old(self)@, h),
    {
        let ghost g0 = self@;
        let ghost peers0 = node_of(g0, h).neighbors;
        let i = h.index() as usize;
        let mut slot = self.slots[i].take();
        let mut peers: Vec<Handle<Node<B>>> = Vec::new();
        match &mut slot {
            Some(n) => {
                std::mem::swap(&mut peers, &mut n.neighbors);
            },
            None => {},
        }
        self.slots.set(i, slot);
        assert(peers@ == peers0);
        proof {
            assert(peers0.take(0) =~= Seq::<Handle<Node<B>>>::empty());
            assert(self@.slots =~= unlink_stage(g0, h, peers0.take(0)).slots);
        }
        let mut k: usize = 0;
        while k < peers.len()
            invariant
                k <= peers@.len(),
                peers@ == peers0,
                self@ == unlink_stage(g0, h, peers0.take(k as int)),
                g0.slots.len() <= u32::MAX,
                live(g0, h),
            decreases peers@.len() - k,
        {
            let q = peers[k];
            let ghost before = self@;
            match self.slot_of(q) {
                Some(j) => {
                    let mut s2 = self.slots[j].take();
                    match &mut s2 {
                        Some(m) => {
                            m.neighbors = without(&m.neighbors, h);
                        },
                        None => {},
                    }
                    self.slots.set(j, s2);
                    proof {
                        reveal(Seq::filter);
                        assert(peers0.take(k + 1) =~= peers0.take(k as int).push(q));
                        let t1 = peers0.take(k + 1);
                        let t0 = peers0.take(k as int);
                        assert forall|x: int| 0 <= x < g0.slots.len() implies #[trigger] self@.slots[x] == unlink_stage(g0, h, peers0.take(k + 1)).slots[x] by {
                            let hx = Handle::<Node<B>>::issued(x as u32, 1);
                            Handle::<Node<B>>::lemma_issued_parts(x as u32, 1);
                            assert((x as u32) as int == x);
                            assert(hx.index_spec() == x && hx.generation_spec() == 1);
                            if x != j {
                                assert(hx != q);
                                assert(self@.slots[x] == before.slots[x]);
                            } else {
                                assert(hx.index_spec() == q.index_spec() && hx.generation_spec() == q.generation_spec());
                            }
                            assert(peers0.take(k + 1).contains(hx) <==> (peers0.take(k as int).contains(hx) || hx == q)) by {
                                if t1.contains(hx) {
                                    let w = choose|w: int| 0 <= w < t1.len() && t1[w] == hx;
                                    if w < k {
                                        assert(t0[w] == hx);
                                    }
                                }
                                if t0.contains(hx) {
                                    let w = choose|w: int| 0 <= w < t0.len() && t0[w] == hx;
                                    assert(t1[w] == hx);
                                }
                                if hx == q {
                                    assert(peers0.take(k + 1)[k as int] == hx);
                                }
                            }
                            if x == j {
                                assert(hx == q);
                                if x != h.index_spec() {
                                    let n0 = g0.slots[x]->Some_0;
                                    if peers0.take(k as int).contains(hx) {
                                        lemma_filter_twice(n0.neighbors, other_than(h), other_than(h), other_than(h));
                                    }
                                } else {
                                    assert(Seq::<Handle<Node<B>>>::empty().filter(other_than(h)) =~= Seq::<Handle<Node<B>>>::empty());
                                }
                            }
                        }
                        assert(self@.slots =~= unlink_stage(g0, h, peers0.take(k + 1)).slots);
                    }
                },
                None => {
                    proof {
                        assert(peers0.take(k + 1) =~= peers0.take(k as int).push(q));
                        let t1 = peers0.take(k + 1);
                        let t0 = peers0.take(k as int);
                        assert forall|x: int| 0 <= x < g0.slots.len() implies #[trigger] self@.slots[x] == unlink_stage(g0, h, peers0.take(k + 1)).slots[x] by {
                            let hx = Handle::<Node<B>>::issued(x as u32, 1);
                            if t1.contains(hx) && !t0.contains(hx) {
                                let w = choose|w: int| 0 <= w < t1.len() && t1[w] == hx;
                                if w < k {
                                    assert(t0[w] == hx);
                                }
                                assert(hx == q);
                            }
                            if t0.contains(hx) {
                                let w = choose|w: int| 0 <= w < t0.len() && t0[w] == hx;
                                assert(t1[w] == hx);
                            }
                        }
                        assert(self@.slots =~= unlink_stage(g0, h, peers0.take(k + 1)).slots);
                    }
                },
            }
            k += 1;
        }
        proof {
            assert(peers0.take(peers0.len() as int) =~= peers0);
            assert(self@.slots =~= unlinked(g0, h).slots);
        }
    }

    /// Remove a `Projected` node and its (necessarily `Projected`) subtree.
    ///
    /// Rejected if the node or any descendant has advanced: once something is `Reserved`, the rest
    /// of the generator is entitled to assume it exists. The root is never removable.
    #[verifier::loop_isolation(false)]
    #[verifier::spinoff_prover]
    #[verifier::rlimit(30)]
    pub fn remove(&mut self, h: Handle<Node<B>>) -> (res: Result<(), NodeError>)
        requires
            old(self).wf(),
        ensures
            final(self).wf(),
            (final(self)@, res) == removed(old(self)@, h),
    {
        if h == self.root {
            return Err(NodeError::RootNode);
        }
        let (state, parent) = match self.get(h) {
            Some(n) => (n.state, n.parent),
            None => return Err(NodeError::StaleHandle),
        };
        if state != NodeState::Projected {
            return Err(NodeError::NotProjected { state });
        }
        let ghost g0 = self@;
        let below = self.descendants_of(h);
        proof {
            lemma_kids_facts(g0, h, 0, 3);
            assert(below@ == preorder_kids(g0, node_of(g0, h).children, 0, 3));
        }
        // The whole subtree must be discardable, or removing it would strand a commitment.
        let mut k: usize = 0;
        while k < below.len()
            invariant
                k <= below@.len(),
                self@ == g0,
                below@ == descendants(g0, h),
                forall|y: Handle<Node<B>>| #[trigger] below@.contains(y) ==> live(g0, y),
                first_committed(g0, below@, 0) == first_committed(g0, below@, k as nat),
            decreases below@.len() - k,
        {
            let d = below[k];
            assert(below@.contains(d));
            let st = match self.get(d) {
                Some(n) => n.state,
                None => NodeState::Projected,
            };
            if st != NodeState::Projected {
                assert(first_committed(g0, below@, k as nat) == Some(st));
                return Err(NodeError::SubtreeCommitted { descendant_state: st });
            }
            assert(first_committed(g0, below@, k as nat) == first_committed(g0, below@, (k + 1) as nat));
            k += 1;
        }
        let p = match parent {
            Some(q) => q,
            None => return Err(NodeError::RootNode),
        };
        proof {
            assert(node_sound(g0, h));
            assert forall|i: int| 0 <= i < g0.slots.len() implies match #[trigger] g0.slots[i] {
                Some(n) => n.neighbors.filter(not_in(Seq::<Handle<Node<B>>>::empty())) == n.neighbors,
                None => true,
            } by {
                match g0.slots[i] {
                    Some(n) => lemma_filter_keep_all(n.neighbors, not_in(Seq::<Handle<Node<B>>>::empty())),
                    None => {},
                }
            }
        }
        // Detach from the parent, then unlink and drop the subtree bottom-up.
        let pi = p.index() as usize;
        let mut slot = self.slots[pi].take();
        match &mut slot {
            Some(n) => {
                n.children = without(&n.children, h);
            },
            None => {},
        }
        self.slots.set(pi, slot);
        proof {
            let start = pruned_by(g0, h, p, Seq::empty());
            assert forall|i: int| 0 <= i < g0.slots.len() implies #[trigger] self@.slots[i] == start.slots[i] by {
                Handle::<Node<B>>::lemma_issued_parts(i as u32, 1);
                assert((i as u32) as int == i);
            }
            assert(self@.slots =~= start.slots);
            assert(below@.subrange(below@.len() as int, below@.len() as int) =~= Seq::<Handle<Node<B>>>::empty());
        }
        let mut k: usize = below.len();
        while k > 0
            invariant
                k <= below@.len(),
                below@ == descendants(g0, h),
                well_formed(g0),
                forall|y: Handle<Node<B>>| #[trigger] below@.contains(y) ==> live(g0, y),
                self@ == pruned_by(g0, h, p, below@.subrange(k as int, below@.len() as int)),
            decreases k,
        {
            k = k - 1;
            let d = below[k];
            let ghost done = below@.subrange(k + 1, below@.len() as int);
            let ghost done2 = below@.subrange(k as int, below@.len() as int);
            proof {
                assert(below@.contains(d));
                assert forall|y: Handle<Node<B>>| done2.contains(y) <==> (done.contains(y) || y == d) by {
                    if done2.contains(y) {
                        let j = choose|j: int| 0 <= j < done2.len() && done2[j] == y;
                        if j > 0 {
                            assert(done[j - 1] == y);
                        }
                    }
                    if done.contains(y) {
                        let j = choose|j: int| 0 <= j < done.len() && done[j] == y;
                        assert(done2[j + 1] == y);
                    }
                    if y == d {
                        assert(done2[0] == y);
                    }
                }
                if done.contains(d) {
                    lemma_pruned_by_same(g0, h, p, done, done2);
                    Handle::<Node<B>>::lemma_issued_parts(d.index_spec(), 1);
                    assert(Handle::<Node<B>>::issued(d.index_spec(), 1) == d);
                } else {
                    lemma_prune_step(g0, h, p, done, done2, d);
                }
            }
            // A node reached twice is vacated once.
            if self.slot_of(d).is_some() {
                self.unlink_all(d);
                proof {
                    assert(self@.slots.len() == g0.slots.len());
                }
                self.slots.set(d.index() as usize, None);
                proof {
                    assert(self@.slots =~= vacated(unlinked(pruned_by(g0, h, p, done), d), d).slots);
                }
            }
        }
        proof {
            let done = below@.subrange(0, below@.len() as int);
            assert(done =~= below@);
            assert(!below@.contains(h)) by {
                if below@.contains(h) {
                    assert(kind_depth(node_of(g0, h).kind) > kind_depth(node_of(g0, h).kind));
                }
            }
            let done2 = below@.push(h);
            assert forall|y: Handle<Node<B>>| done2.contains(y) <==> (below@.contains(y) || y == h) by {
                if done2.contains(y) {
                    let j = choose|j: int| 0 <= j < done2.len() && done2[j] == y;
                    if j < below@.len() {
                        assert(below@[j] == y);
                    }
                }
                if below@.contains(y) {
                    let j = choose|j: int| 0 <= j < below@.len() && below@[j] == y;
                    assert(done2[j] == y);
                }
                if y == h {
                    assert(done2[below@.len() as int] == y);
                }
            }
            lemma_prune_step(g0, h, p, below@, done2, h);
        }
        self.unlink_all(h);
        proof {
            assert(self@.slots.len() == g0.slots.len());
        }
        self.slots.set(h.index() as usize, None);
        proof {
            let done2 = below@.push(h);
            assert(self@.slots =~= vacated(unlinked(pruned_by(g0, h, p, below@), h), h).slots);
            let gone = subtree(g0, h);
            assert forall|y: Handle<Node<B>>| done2.contains(y) <==> gone.contains(y) by {
                if done2.contains(y) {
                    let j = choose|j: int| 0 <= j < done2.len() && done2[j] == y;
                    if j < below@.len() {
                        assert(gone[j + 1] == y);
                    } else {
                        assert(gone[0] == y);
                    }
                }
                if gone.contains(y) {
                    let j = choose|j: int| 0 <= j < gone.len() && gone[j] == y;
                    if j == 0 {
                        assert(done2[below@.len() as int] == y);
                    } else {
                        assert(done2[j - 1] == y);
                    }
                }
            }
            lemma_pruned_by_same(g0, h, p, done2, gone);
            lemma_prune_keeps_shape(g0, h);
        }
        Ok(())
    }
    /// Verify every structural invariant: the first violation found, in arena order, described;
    /// `None` when the graph is sound.
    pub fn check_invariants(&self) -> (res: Option<String>)
        requires
            self@.slots.len() <= u32::MAX,
        ensures
            match first_violation(self@, 0) {
                None => res is None,
                Some(m) => res is Some && res->Some_0@ == m,
            },
    {
        let mut i: usize = 0;
        while i < self.slots.len()
            invariant
                i <= self@.slots.len(),
                self@.slots.len() <= u32::MAX,
                first_violation(self@, 0) == first_violation(self@, i as nat),
            decreases self@.slots.len() - i,
        {
            let h: Handle<Node<B>> = Handle::issue(i as u32, 1);
            proof {
                assert((i as u32) as int == i as int);
            }
            match &self.slots[i] {
                Some(node) => {
                    proof {
                        assert(self@.slots[i as int] == Some(node@));
                        assert(live(self@, h) && node_of(self@, h) == node@);
                    }
                    match self.node_violation(h, node) {
                        Some(m) => return Some(m),
                        None => {},
                    }
                },
                None => {
                    assert(self@.slots[i as int] is None);
                },
            }
            i += 1;
        }
        None
    }

    /// The first violation at the live node `h`.
    fn node_violation(&self, h: Handle<Node<B>>, node: &Node<B>) -> (res: Option<String>)
        requires
            live(self@, h),
            node@ == node_of(self@, h),
        ensures
            match node_violation(self@, h) {
                None => res is None,
                Some(m) => res is Some && res->Some_0@ == m,
            },
    {
        let me = description(node.kind.as_str(), node.header.name.as_str(), node.header.id);
        match node.parent {
            Some(p) => {
                match self.get(p) {
                    None => {
                        let mut s = me;
                        s.append(" points at a dangling parent");
                        return Some(s);
                    },
                    Some(parent) => {
                        if !holds(&parent.children, h) {
                            let mut s = me;
                            s.append(" is not listed in its parent's children");
                            return Some(s);
                        }
                        let fits = match parent.kind.child_kind() {
                            Some(k) => k == node.kind,
                            None => false,
                        };
                        proof {
                            if parent@.kind != NodeKind::Spatial {
                                crate::node::lemma_kind_at_depth(kind_depth(parent@.kind) + 1);
                            }
                            crate::node::law_containment_is_one_level_at_a_time(node@.kind);
                        }
                        assert(fits == contains_kind(parent@.kind, node@.kind));
                        if !fits {
                            let mut s = String::from_str("a ");
                            s.append(parent.kind.as_str());
                            s.append(" contains a ");
                            s.append(node.kind.as_str());
                            return Some(s);
                        }
                        if node.state.tag() > parent.state.tag() {
                            let mut s = me;
                            s.append(" is ");
                            s.append(node.state.as_str());
                            s.append(" but its parent is only ");
                            s.append(parent.state.as_str());
                            return Some(s);
                        }
                    },
                }
            },
            None => {
                if h != self.root {
                    let mut s = me;
                    s.append(" is parentless but is not the root");
                    return Some(s);
                }
            },
        }
        let mut j: usize = 0;
        while j < node.neighbors.len()
            invariant
                j <= node@.neighbors.len(),
                live(self@, h),
                node@ == node_of(self@, h),
                me@ == describe(node@),
                parent_violation(self@, h) is None,
                neighbour_violation(self@, h, 0) == neighbour_violation(self@, h, j as nat),
            decreases node@.neighbors.len() - j,
        {
            let q = node.neighbors[j];
            match self.get(q) {
                None => {
                    let mut s = me;
                    s.append(" points at a dangling neighbour");
                    return Some(s);
                },
                Some(other) => {
                    if !holds(&other.neighbors, h) {
                        let mut s = me;
                        s.append(" has a one-sided adjacency link");
                        return Some(s);
                    }
                    if other.kind != node.kind {
                        let mut s = me;
                        s.append(" is adjacent to a ");
                        s.append(other.kind.as_str());
                        return Some(s);
                    }
                },
            }
            j += 1;
        }
        if node.state != NodeState::Projected && node.envelope.is_none() {
            let mut s = me;
            s.append(" is ");
            s.append(node.state.as_str());
            s.append(" without an envelope");
            return Some(s);
        }
        None
    }
    /// Every node satisfying `pred`, in arena order.
    #[verifier::loop_isolation(false)]
    pub fn find<F: Fn(&Node<B>) -> bool>(&self, pred: F) -> (v: Vec<Handle<Node<B>>>)
        requires
            self.wf(),
            forall|n: &Node<B>| #[trigger] pred.requires((n,)),
        ensures
            forall|k: int|
                0 <= k < v@.len() ==> live(self@, #[trigger] v@[k]) && exists|n: &Node<B>|
                    n@ == node_of(self@, v@[k]) && #[trigger] pred.ensures((n,), true),
            forall|k: int, l: int| 0 <= k < l < v@.len() ==> (#[trigger] v@[k]).index_spec() < (#[trigger] v@[l]).index_spec(),
            forall|h: Handle<Node<B>>|
                #[trigger] live(self@, h) && !v@.contains(h) ==> exists|n: &Node<B>|
                    n@ == node_of(self@, h) && #[trigger] pred.ensures((n,), false),
    {
        let mut v: Vec<Handle<Node<B>>> = Vec::new();
        let mut i: usize = 0;
        while i < self.slots.len()
            invariant
                i <= self.slots@.len(),
                forall|k: int|
                    0 <= k < v@.len() ==> live(self@, #[trigger] v@[k]) && exists|n: &Node<B>|
                        n@ == node_of(self@, v@[k]) && #[trigger] pred.ensures((n,), true),
                forall|k: int| 0 <= k < v@.len() ==> (#[trigger] v@[k]).index_spec() < i,
                forall|k: int, l: int| 0 <= k < l < v@.len() ==> (#[trigger] v@[k]).index_spec() < (#[trigger] v@[l]).index_spec(),
                forall|h: Handle<Node<B>>|
                    #[trigger] live(self@, h) && h.index_spec() < i && !v@.contains(h) ==> exists|n: &Node<B>|
                        n@ == node_of(self@, h) && #[trigger] pred.ensures((n,), false),
            decreases self.slots@.len() - i,
        {
            match &self.slots[i] {
                Some(n) => {
                    assert(self@.slots[i as int] == Some(n@));
                    let h = Handle::issue(i as u32, 1);
                    let ghost before = v@;
                    let keep = pred(n);
                    if keep {
                        v.push(h);
                        proof {
                            assert(v@[before.len() as int] == h);
                            assert forall|x: Handle<Node<B>>| #[trigger] live(self@, x) && x.index_spec() < i + 1 && !v@.contains(x) implies exists|m: &Node<B>|
                                m@ == node_of(self@, x) && #[trigger] pred.ensures((m,), false) by {
                                if x.index_spec() == i {
                                    assert(v@.contains(x));
                                }
                                if before.contains(x) {
                                    let k = choose|k: int| 0 <= k < before.len() && before[k] == x;
                                    assert(v@[k] == x);
                                }
                            }
                        }
                    } else {
                        proof {
                            assert forall|x: Handle<Node<B>>| #[trigger] live(self@, x) && x.index_spec() < i + 1 && !v@.contains(x) implies exists|m: &Node<B>|
                                m@ == node_of(self@, x) && #[trigger] pred.ensures((m,), false) by {
                                if x.index_spec() == i {
                                    assert(node_of(self@, x) == n@);
                                    assert(pred.ensures((n,), false));
                                }
                            }
                        }
                    }
                },
                None => {
                    assert(self@.slots[i as int] is None);
                },
            }
            i = i + 1;
        }
        v
    }
}

#[verifier::spinoff_prover]
#[verifier::rlimit(40)]
proof fn lemma_add_child_keeps_shape<B>(g: GraphView<B>, parent: Handle<Node<B>>, name: Seq<char>)
    requires
        well_formed(g),
        g.slots.len() < u32::MAX,
        live(g, parent),
        node_of(g, parent).kind != NodeKind::Spatial,
    ensures
        well_formed(with_child(g, parent, name)),
{
    let g1 = with_child(g, parent, name);
    let h = Handle::<Node<B>>::issued(g.slots.len() as u32, 1);
    let p = node_of(g, parent);
    assert(live(g1, h));
    assert(!live(g, h));
    assert forall|x: Handle<Node<B>>| live(g1, x) implies (live(g, x) || x == h) by {}
    assert forall|x: Handle<Node<B>>| live(g, x) && x != parent implies node_of(g1, x) == node_of(g, x) by {}
    assert(node_of(g1, parent).children == p.children.push(h));
    assert forall|x: Handle<Node<B>>| live(g, x) implies node_of(g, x).children.contains(h) == false by {
        if node_of(g, x).children.contains(h) {
            let j = choose|j: int| 0 <= j < node_of(g, x).children.len() && node_of(g, x).children[j] == h;
            assert(live(g, node_of(g, x).children[j]));
        }
    }
    assert forall|x: Handle<Node<B>>| live(g, x) implies !node_of(g, x).neighbors.contains(h) by {
        if node_of(g, x).neighbors.contains(h) {
            let j = choose|j: int| 0 <= j < node_of(g, x).neighbors.len() && node_of(g, x).neighbors[j] == h;
            assert(node_sound(g, x));
        }
    }
    assert forall|x: Handle<Node<B>>| #[trigger] live(g1, x) implies node_sound(g1, x) by {
        if x == h {
            assert(node_of(g1, parent).children.contains(h)) by {
                assert(node_of(g1, parent).children[p.children.len() as int] == h);
            }
            crate::node::lemma_kind_at_depth(kind_depth(p.kind) + 1);
        } else {
            assert(node_sound(g, x));
            let n = node_of(g, x);
            match n.parent {
                Some(q) => {
                    if q == parent {
                        assert(p.children.contains(x));
                        let j = choose|j: int| 0 <= j < p.children.len() && p.children[j] == x;
                        assert(node_of(g1, parent).children[j] == x);
                    }
                },
                None => {},
            }
            assert forall|j: int| 0 <= j < node_of(g1, x).neighbors.len() implies {
                let q = #[trigger] node_of(g1, x).neighbors[j];
                &&& live(g1, q)
                &&& node_of(g1, q).neighbors.contains(x)
                &&& node_of(g1, q).kind == node_of(g1, x).kind
            } by {
                let q = n.neighbors[j];
                assert(live(g, q));
            }
        }
    }
    assert forall|x: Handle<Node<B>>, j: int|
        live(g1, x) && 0 <= j < node_of(g1, x).children.len() implies {
            let c = #[trigger] node_of(g1, x).children[j];
            live(g1, c) && node_of(g1, c).parent == Some(x)
        } by {
        if x != h && !(x == parent && j == p.children.len()) {
            assert(node_of(g1, x).children[j] == node_of(g, x).children[j]);
            assert(live(g, node_of(g, x).children[j]));
        }
    }
}

proof fn lemma_attribute_change_keeps_shape<B>(g: GraphView<B>, h: Handle<Node<B>>, n: NodeView<B>)
    requires
        well_formed(g),
        live(g, h),
        n.kind == node_of(g, h).kind,
        n.state == node_of(g, h).state,
        n.parent == node_of(g, h).parent,
        n.children == node_of(g, h).children,
        n.neighbors == node_of(g, h).neighbors,
        node_of(g, h).envelope is Some ==> n.envelope is Some,
    ensures
        well_formed(with_node(g, h, n)),
{
    let g1 = with_node(g, h, n);
    assert forall|x: Handle<Node<B>>| live(g1, x) == live(g, x) by {}
    assert forall|x: Handle<Node<B>>| #[trigger] live(g1, x) implies node_sound(g1, x) by {
        assert(node_sound(g, x));
        let m = node_of(g, x);
        assert forall|j: int| 0 <= j < node_of(g1, x).neighbors.len() implies {
            let q = #[trigger] node_of(g1, x).neighbors[j];
            &&& live(g1, q)
            &&& node_of(g1, q).neighbors.contains(x)
            &&& node_of(g1, q).kind == node_of(g1, x).kind
        } by {
            assert(live(g, m.neighbors[j]));
        }
    }
    assert forall|x: Handle<Node<B>>, j: int|
        live(g1, x) && 0 <= j < node_of(g1, x).children.len() implies {
            let c = #[trigger] node_of(g1, x).children[j];
            live(g1, c) && node_of(g1, c).parent == Some(x)
        } by {
        assert(live(g, node_of(g, x).children[j]));
    }
}

proof fn lemma_advance_keeps_shape<B>(g: GraphView<B>, h: Handle<Node<B>>, to: NodeState)
    requires
        well_formed(g),
        live(g, h),
        state_rank(to) > state_rank(node_of(g, h).state),
        node_of(g, h).envelope is Some,
        node_of(g, h).parent is Some ==> state_rank(to) <= state_rank(node_of(g, node_of(g, h).parent->Some_0).state),
    ensures
        well_formed(with_node(g, h, NodeView { state: to, ..node_of(g, h) })),
{
    let n = NodeView { state: to, ..node_of(g, h) };
    let g1 = with_node(g, h, n);
    assert forall|x: Handle<Node<B>>| live(g1, x) == live(g, x) by {}
    assert forall|x: Handle<Node<B>>| #[trigger] live(g1, x) implies node_sound(g1, x) by {
        assert(node_sound(g, x));
        let m = node_of(g, x);
        assert forall|j: int| 0 <= j < node_of(g1, x).neighbors.len() implies {
            let q = #[trigger] node_of(g1, x).neighbors[j];
            &&& live(g1, q)
            &&& node_of(g1, q).neighbors.contains(x)
            &&& node_of(g1, q).kind == node_of(g1, x).kind
        } by {
            assert(live(g, m.neighbors[j]));
        }
    }
    assert forall|x: Handle<Node<B>>, j: int|
        live(g1, x) && 0 <= j < node_of(g1, x).children.len() implies {
            let c = #[trigger] node_of(g1, x).children[j];
            live(g1, c) && node_of(g1, c).parent == Some(x)
        } by {
        assert(live(g, node_of(g, x).children[j]));
    }
}

/// Does `v` hold `x`?
fn holds<B>(v: &Vec<Handle<Node<B>>>, x: Handle<Node<B>>) -> (b: bool)
    ensures
        b == v@.contains(x),
{
    let mut i: usize = 0;
    while i < v.len()
        invariant
            i <= v@.len(),
            forall|j: int| 0 <= j < i ==> v@[j] != x,
        decreases v@.len() - i,
    {
        if v[i] == x {
            assert(v@[i as int] == x);
            return true;
        }
        i += 1;
    }
    false
}

/// `v` without any occurrence of `x`, order kept.
fn without<B>(v: &Vec<Handle<Node<B>>>, x: Handle<Node<B>>) -> (out: Vec<Handle<Node<B>>>)
    ensures
        out@ == v@.filter(other_than(x)),
{
    let mut out: Vec<Handle<Node<B>>> = Vec::new();
    let mut i: usize = 0;
    proof {
        reveal(Seq::filter);
        assert(v@.take(0) =~= Seq::<Handle<Node<B>>>::empty());
    }
    while i < v.len()
        invariant
            i <= v@.len(),
            out@ == v@.take(i as int).filter(other_than(x)),
        decreases v@.len() - i,
    {
        let y = v[i];
        proof {
            reveal(Seq::filter);
            assert(v@.take(i + 1).drop_last() =~= v@.take(i as int));
            assert(v@.take(i + 1).last() == y);
        }
        if y != x {
            out.push(y);
        }
        i += 1;
    }
    assert(v@.take(v@.len() as int) =~= v@);
    out
}

/// What `with_link` and `filter` keep and add.
proof fn lemma_link_contents<B>(v: Seq<Handle<Node<B>>>, x: Handle<Node<B>>, y: Handle<Node<B>>)
    ensures
        with_link(v, x).contains(y) <==> (v.contains(y) || y == x),
        v.filter(other_than(x)).contains(y) <==> (v.contains(y) && y != x),
{
    broadcast use vstd::seq_lib::group_filter_ensures;
    if with_link(v, x).contains(y) && !v.contains(y) {
        let j = choose|j: int| 0 <= j < with_link(v, x).len() && with_link(v, x)[j] == y;
        if j < v.len() {
            assert(v[j] == y);
        }
    }
    if v.contains(y) {
        let j = choose|j: int| 0 <= j < v.len() && v[j] == y;
        assert(with_link(v, x)[j] == y);
        if y != x {
            assert(v.filter(other_than(x)).contains(v[j]));
        }
    }
    if y == x && !v.contains(y) {
        assert(with_link(v, x)[v.len() as int] == y);
    }
    if v.filter(other_than(x)).contains(y) {
        let f = v.filter(other_than(x));
        let j = choose|j: int| 0 <= j < f.len() && f[j] == y;
        assert(other_than(x)(f[j]));
        v.lemma_filter_contains_rev(other_than(x), y);
    }
}

proof fn lemma_connect_keeps_shape<B>(g: GraphView<B>, a: Handle<Node<B>>, b: Handle<Node<B>>)
    requires
        well_formed(g),
        a != b,
        live(g, a),
        live(g, b),
        node_of(g, a).kind == node_of(g, b).kind,
        node_of(g, a).state != NodeState::Realized,
        node_of(g, b).state != NodeState::Realized,
    ensures
        well_formed(connected(g, a, b).0),
{
    let na = node_of(g, a);
    let nb = node_of(g, b);
    let g1 = with_node(g, a, NodeView { neighbors: with_link(na.neighbors, b), ..na });
    let g2 = with_node(g1, b, NodeView { neighbors: with_link(nb.neighbors, a), ..nb });
    assert(g2 == connected(g, a, b).0);
    assert forall|x: Handle<Node<B>>| live(g2, x) == live(g, x) by {}
    assert forall|x: Handle<Node<B>>| live(g, x) implies {
        &&& node_of(g2, x).kind == node_of(g, x).kind
        &&& node_of(g2, x).state == node_of(g, x).state
        &&& node_of(g2, x).parent == node_of(g, x).parent
        &&& node_of(g2, x).children == node_of(g, x).children
        &&& node_of(g2, x).envelope == node_of(g, x).envelope
        &&& forall|y: Handle<Node<B>>| #[trigger] node_of(g2, x).neighbors.contains(y) <==> (node_of(g, x).neighbors.contains(y) || (x == a && y == b) || (x == b && y == a))
    } by {
        assert forall|y: Handle<Node<B>>| #[trigger] node_of(g2, x).neighbors.contains(y) <==> (node_of(g, x).neighbors.contains(y) || (x == a && y == b) || (x == b && y == a)) by {
            lemma_link_contents(na.neighbors, b, y);
            lemma_link_contents(nb.neighbors, a, y);
        }
    }
    assert forall|x: Handle<Node<B>>| #[trigger] live(g2, x) implies node_sound(g2, x) by {
        assert(node_sound(g, x));
        let m = node_of(g, x);
        let m2 = node_of(g2, x);
        match m.parent {
            Some(p) => {
                assert(node_of(g2, p).children == node_of(g, p).children);
            },
            None => {},
        }
        assert forall|j: int| 0 <= j < m2.neighbors.len() implies {
            let q = #[trigger] m2.neighbors[j];
            &&& live(g2, q)
            &&& node_of(g2, q).neighbors.contains(x)
            &&& node_of(g2, q).kind == m2.kind
        } by {
            let q = m2.neighbors[j];
            assert(m2.neighbors.contains(q));
            if m.neighbors.contains(q) {
                let k = choose|k: int| 0 <= k < m.neighbors.len() && m.neighbors[k] == q;
                assert(live(g, m.neighbors[k]));
                assert(node_of(g, q).neighbors.contains(x));
            }
        }
    }
    assert forall|x: Handle<Node<B>>| #[trigger] live(g2, x) implies !node_of(g2, x).neighbors.contains(x) by {}
    assert forall|x: Handle<Node<B>>, j: int|
        live(g2, x) && 0 <= j < node_of(g2, x).children.len() implies {
            let c = #[trigger] node_of(g2, x).children[j];
            live(g2, c) && node_of(g2, c).parent == Some(x)
        } by {
        assert(live(g, node_of(g, x).children[j]));
    }
}

proof fn lemma_disconnect_keeps_shape<B>(g: GraphView<B>, a: Handle<Node<B>>, b: Handle<Node<B>>)
    requires
        well_formed(g),
        live(g, a),
        live(g, b),
        node_of(g, a).state != NodeState::Realized,
        node_of(g, b).state != NodeState::Realized,
    ensures
        well_formed(disconnected(g, a, b).0),
{
    let na = node_of(g, a);
    let g1 = with_node(g, a, NodeView { neighbors: na.neighbors.filter(other_than(b)), ..na });
    let nb1 = node_of(g1, b);
    let g2 = with_node(g1, b, NodeView { neighbors: nb1.neighbors.filter(other_than(a)), ..nb1 });
    assert forall|x: Handle<Node<B>>| live(g2, x) == live(g, x) by {}
    assert forall|x: Handle<Node<B>>| live(g, x) implies {
        &&& node_of(g2, x).kind == node_of(g, x).kind
        &&& node_of(g2, x).state == node_of(g, x).state
        &&& node_of(g2, x).parent == node_of(g, x).parent
        &&& node_of(g2, x).children == node_of(g, x).children
        &&& node_of(g2, x).envelope == node_of(g, x).envelope
        &&& forall|y: Handle<Node<B>>| #[trigger] node_of(g2, x).neighbors.contains(y) <==> (node_of(g, x).neighbors.contains(y) && !(x == a && y == b) && !(x == b && y == a))
    } by {
        assert forall|y: Handle<Node<B>>| #[trigger] node_of(g2, x).neighbors.contains(y) <==> (node_of(g, x).neighbors.contains(y) && !(x == a && y == b) && !(x == b && y == a)) by {
            lemma_link_contents(na.neighbors, b, y);
            lemma_link_contents(nb1.neighbors, a, y);
            lemma_link_contents(node_of(g, b).neighbors, a, y);
        }
    }
    assert forall|x: Handle<Node<B>>| #[trigger] live(g2, x) implies node_sound(g2, x) by {
        assert(node_sound(g, x));
        let m = node_of(g, x);
        let m2 = node_of(g2, x);
        match m.parent {
            Some(p) => {
                assert(node_of(g2, p).children == node_of(g, p).children);
            },
            None => {},
        }
        assert forall|j: int| 0 <= j < m2.neighbors.len() implies {
            let q = #[trigger] m2.neighbors[j];
            &&& live(g2, q)
            &&& node_of(g2, q).neighbors.contains(x)
            &&& node_of(g2, q).kind == m2.kind
        } by {
            let q = m2.neighbors[j];
            assert(m2.neighbors.contains(q));
            let k = choose|k: int| 0 <= k < m.neighbors.len() && m.neighbors[k] == q;
            assert(live(g, m.neighbors[k]));
            assert(node_of(g, q).neighbors.contains(x));
        }
    }
    assert forall|x: Handle<Node<B>>, j: int|
        live(g2, x) && 0 <= j < node_of(g2, x).children.len() implies {
            let c = #[trigger] node_of(g2, x).children[j];
            live(g2, c) && node_of(g2, c).parent == Some(x)
        } by {
        assert(live(g, node_of(g, x).children[j]));
    }
}

/// Filtering by two predicates in turn is filtering by their conjunction.
proof fn lemma_filter_twice<A>(s: Seq<A>, p: spec_fn(A) -> bool, q: spec_fn(A) -> bool, r: spec_fn(A) -> bool)
    requires
        forall|y: A| s.contains(y) ==> (p(y) && q(y)) == r(y),
    ensures
        s.filter(p).filter(q) == s.filter(r),
    decreases s.len(),
{
    reveal(Seq::filter);
    if s.len() > 0 {
        let t = s.drop_last();
        assert forall|y: A| t.contains(y) implies (p(y) && q(y)) == r(y) by {
            let j = choose|j: int| 0 <= j < t.len() && t[j] == y;
            assert(s[j] == y);
            assert(s.contains(y));
        }
        lemma_filter_twice(t, p, q, r);
        assert(s.contains(s.last())) by {
            assert(s[s.len() - 1] == s.last());
        }
        assert((p(s.last()) && q(s.last())) == r(s.last()));
        if p(s.last()) {
            assert(t.filter(p).push(s.last()).drop_last() =~= t.filter(p));
        }
    }
}

/// Filtering by predicates that agree on every element gives the same result.
proof fn lemma_filter_agree<A>(s: Seq<A>, p: spec_fn(A) -> bool, q: spec_fn(A) -> bool)
    requires
        forall|y: A| s.contains(y) ==> p(y) == q(y),
    ensures
        s.filter(p) == s.filter(q),
    decreases s.len(),
{
    reveal(Seq::filter);
    if s.len() > 0 {
        let t = s.drop_last();
        assert forall|y: A| t.contains(y) implies p(y) == q(y) by {
            let j = choose|j: int| 0 <= j < t.len() && t[j] == y;
            assert(s[j] == y);
            assert(s.contains(y));
        }
        lemma_filter_agree(t, p, q);
        assert(s[s.len() - 1] == s.last());
        assert(s.contains(s.last()));
    }
}

/// Not any of `gone`.
pub open spec fn not_in<B>(gone: Seq<Handle<Node<B>>>) -> spec_fn(Handle<Node<B>>) -> bool {
    |y: Handle<Node<B>>| !gone.contains(y)
}

proof fn lemma_kids_facts<B>(g: GraphView<B>, x: Handle<Node<B>>, i: nat, f: nat)
    requires
        well_formed(g),
        live(g, x),
    ensures
        forall|y: Handle<Node<B>>| #[trigger] preorder_kids(g, node_of(g, x).children, i, f).contains(y) ==> {
            &&& live(g, y)
            &&& kind_depth(node_of(g, y).kind) > kind_depth(node_of(g, x).kind)
            &&& (node_of(g, y).parent == Some(x) || preorder_kids(g, node_of(g, x).children, i, f).contains(
                node_of(g, y).parent->Some_0,
            ))
            &&& node_of(g, y).parent is Some
        },
        forall|j: int| i <= j < node_of(g, x).children.len() ==> #[trigger] preorder_kids(g, node_of(g, x).children, i, f).contains(node_of(g, x).children[j]),
        forall|y: Handle<Node<B>>, c: Handle<Node<B>>|
            #[trigger] preorder_kids(g, node_of(g, x).children, i, f).contains(y) && kind_depth(node_of(g, y).kind) < kind_depth(node_of(g, x).kind) + 1 + f
                && #[trigger] node_of(g, y).children.contains(c) ==> preorder_kids(g, node_of(g, x).children, i, f).contains(c),
    decreases f, node_of(g, x).children.len() - i + 1,
{
    let ks = node_of(g, x).children;
    let all = preorder_kids(g, ks, i, f);
    if i < ks.len() {
        let k = ks[i as int];
        assert(live(g, k) && node_of(g, k).parent == Some(x));
        assert(node_sound(g, k));
        let head = seq![k];
        let mid = preorder(g, k, f);
        let tail = preorder_kids(g, ks, i + 1, f);
        assert(all == head + mid + tail);
        lemma_kids_facts(g, x, i + 1, f);
        if f > 0 {
            lemma_kids_facts(g, k, 0, (f - 1) as nat);
        }
        assert forall|y: Handle<Node<B>>| all.contains(y) implies (head.contains(y) || mid.contains(y) || tail.contains(y)) by {
            let j = choose|j: int| 0 <= j < all.len() && all[j] == y;
            if j == 0 {
                assert(head[0] == y);
            } else if j < 1 + mid.len() {
                assert(mid[j - 1] == y);
            } else {
                assert(tail[j - 1 - mid.len()] == y);
            }
        }
        assert forall|y: Handle<Node<B>>| head.contains(y) || mid.contains(y) || tail.contains(y) implies all.contains(y) by {
            if head.contains(y) {
                assert(all[0] == y);
            } else if mid.contains(y) {
                let j = choose|j: int| 0 <= j < mid.len() && mid[j] == y;
                assert(all[1 + j] == y);
            } else {
                let j = choose|j: int| 0 <= j < tail.len() && tail[j] == y;
                assert(all[1 + mid.len() + j] == y);
            }
        }
        assert forall|y: Handle<Node<B>>| #[trigger] all.contains(y) implies {
            &&& live(g, y)
            &&& kind_depth(node_of(g, y).kind) > kind_depth(node_of(g, x).kind)
            &&& (node_of(g, y).parent == Some(x) || all.contains(node_of(g, y).parent->Some_0))
            &&& node_of(g, y).parent is Some
        } by {
            if mid.contains(y) {
                assert(f > 0 && live(g, k));
                assert(mid == preorder_kids(g, node_of(g, k).children, 0, (f - 1) as nat));
                assert(all.contains(k)) by {
                    assert(all[0] == k);
                }
            }
        }
        assert forall|j: int| i <= j < ks.len() implies #[trigger] all.contains(ks[j]) by {
            if j == i {
                assert(all[0] == ks[j]);
            } else {
                assert(tail.contains(ks[j]));
            }
        }
        assert forall|y: Handle<Node<B>>, c: Handle<Node<B>>|
            #[trigger] all.contains(y) && kind_depth(node_of(g, y).kind) < kind_depth(node_of(g, x).kind) + 1 + f
                && #[trigger] node_of(g, y).children.contains(c) implies all.contains(c) by {
            if head.contains(y) {
                assert(y == k);
                if f > 0 {
                    let jc = choose|jc: int| 0 <= jc < node_of(g, k).children.len() && node_of(g, k).children[jc] == c;
                    assert(mid == preorder_kids(g, node_of(g, k).children, 0, (f - 1) as nat));
                    assert(mid.contains(node_of(g, k).children[jc]));
                } else {
                    let jc = choose|jc: int| 0 <= jc < node_of(g, k).children.len() && node_of(g, k).children[jc] == c;
                    assert(live(g, c) && node_of(g, c).parent == Some(k));
                    assert(node_sound(g, c));
                    crate::node::lemma_kind_at_depth(4);
                }
            } else if mid.contains(y) {
                assert(mid == preorder_kids(g, node_of(g, k).children, 0, (f - 1) as nat));
            }
        }
    }
}

/// What a filter keeps.
proof fn lemma_filter_contents<A>(s: Seq<A>, p: spec_fn(A) -> bool, y: A)
    ensures
        s.filter(p).contains(y) <==> (s.contains(y) && p(y)),
{
    broadcast use vstd::seq_lib::group_filter_ensures;
    if s.filter(p).contains(y) {
        s.lemma_filter_contains_rev(p, y);
        let j = choose|j: int| 0 <= j < s.filter(p).len() && s.filter(p)[j] == y;
        assert(p(s.filter(p)[j]));
    }
    if s.contains(y) && p(y) {
        let j = choose|j: int| 0 <= j < s.len() && s[j] == y;
        assert(s.filter(p).contains(s[j]));
    }
}

/// A filter that keeps every element keeps the sequence.
proof fn lemma_filter_keep_all<A>(s: Seq<A>, p: spec_fn(A) -> bool)
    requires
        forall|y: A| s.contains(y) ==> p(y),
    ensures
        s.filter(p) == s,
    decreases s.len(),
{
    reveal(Seq::filter);
    if s.len() > 0 {
        let t = s.drop_last();
        assert forall|y: A| t.contains(y) implies p(y) by {
            let j = choose|j: int| 0 <= j < t.len() && t[j] == y;
            assert(s[j] == y);
            assert(s.contains(y));
        }
        lemma_filter_keep_all(t, p);
        assert(s[s.len() - 1] == s.last());
        assert(s.contains(s.last()));
        assert(t.push(s.last()) =~= s);
    }
}

/// Vacating the same nodes gives the same graph, however the list of them is ordered.
proof fn lemma_pruned_by_same<B>(g: GraphView<B>, h: Handle<Node<B>>, p: Handle<Node<B>>, a: Seq<Handle<Node<B>>>, b: Seq<Handle<Node<B>>>)
    requires
        forall|y: Handle<Node<B>>| a.contains(y) <==> b.contains(y),
    ensures
        pruned_by(g, h, p, a) == pruned_by(g, h, p, b),
{
    let ga = pruned_by(g, h, p, a);
    let gb = pruned_by(g, h, p, b);
    assert forall|i: int| 0 <= i < g.slots.len() implies #[trigger] ga.slots[i] == gb.slots[i] by {
        match g.slots[i] {
            Some(n) => {
                lemma_filter_agree(n.neighbors, not_in(a), not_in(b));
            },
            None => {},
        }
    }
    assert(ga.slots =~= gb.slots);
}

/// The graph with one slot vacated.
pub open spec fn vacated<B>(g: GraphView<B>, h: Handle<Node<B>>) -> GraphView<B> {
    GraphView { slots: g.slots.update(h.index_spec() as int, None), ..g }
}

proof fn lemma_prune_step<B>(
    g: GraphView<B>,
    h: Handle<Node<B>>,
    p: Handle<Node<B>>,
    done: Seq<Handle<Node<B>>>,
    done2: Seq<Handle<Node<B>>>,
    d: Handle<Node<B>>,
)
    requires
        well_formed(g),
        live(g, d),
        !done.contains(d),
        forall|y: Handle<Node<B>>| done2.contains(y) <==> (done.contains(y) || y == d),
    ensures
        live(pruned_by(g, h, p, done), d),
        vacated(unlinked(pruned_by(g, h, p, done), d), d) == pruned_by(g, h, p, done2),
{
    let gc = pruned_by(g, h, p, done);
    let nd = node_of(g, d);
    Handle::<Node<B>>::lemma_issued_parts(d.index_spec(), 1);
    assert(Handle::<Node<B>>::issued(d.index_spec(), 1) == d);
    assert(live(gc, d));
    let peers = node_of(gc, d).neighbors;
    assert(peers == nd.neighbors.filter(not_in(done)));
    let u = vacated(unlinked(gc, d), d);
    let g2 = pruned_by(g, h, p, done2);
    assert forall|i: int| 0 <= i < g.slots.len() implies #[trigger] u.slots[i] == g2.slots[i] by {
        let hx = Handle::<Node<B>>::issued(i as u32, 1);
        Handle::<Node<B>>::lemma_issued_parts(i as u32, 1);
        assert((i as u32) as int == i);
        if i == d.index_spec() {
            assert(hx == d);
        } else if done.contains(hx) {
        } else if hx == d {
        } else {
            match g.slots[i] {
                None => {},
                Some(n0) => {
                    assert(live(g, hx));
                    assert(node_of(g, hx) == n0);
                    lemma_filter_contents(nd.neighbors, not_in(done), hx);
                    if peers.contains(hx) {
                        lemma_filter_twice(n0.neighbors, not_in(done), other_than(d), not_in(done2));
                    } else {
                        if n0.neighbors.contains(d) {
                            assert(node_sound(g, hx));
                            let j = choose|j: int| 0 <= j < n0.neighbors.len() && n0.neighbors[j] == d;
                            assert(node_of(g, n0.neighbors[j]).neighbors.contains(hx));
                        }
                        assert forall|y: Handle<Node<B>>| n0.neighbors.contains(y) implies not_in(done)(y) == not_in(done2)(y) by {}
                        lemma_filter_agree(n0.neighbors, not_in(done), not_in(done2));
                    }
                },
            }
        }
    }
    assert(u.slots =~= g2.slots);
}

proof fn lemma_prune_keeps_shape<B>(g: GraphView<B>, h: Handle<Node<B>>)
    requires
        well_formed(g),
        live(g, h),
        h != g.root,
    ensures
        well_formed(pruned(g, h)),
{
    let n = node_of(g, h);
    let p = n.parent->Some_0;
    let desc = descendants(g, h);
    let gone = subtree(g, h);
    let g1 = pruned(g, h);
    lemma_kids_facts(g, h, 0, 3);
    assert(desc == preorder_kids(g, n.children, 0, 3));
    assert(node_sound(g, h));
    assert forall|y: Handle<Node<B>>| #[trigger] gone.contains(y) <==> (y == h || desc.contains(y)) by {
        if gone.contains(y) {
            let j = choose|j: int| 0 <= j < gone.len() && gone[j] == y;
            if j > 0 {
                assert(desc[j - 1] == y);
            }
        }
        if y == h {
            assert(gone[0] == y);
        }
        if desc.contains(y) {
            let j = choose|j: int| 0 <= j < desc.len() && desc[j] == y;
            assert(gone[j + 1] == y);
        }
    }
    assert forall|y: Handle<Node<B>>| gone.contains(y) implies live(g, y) && kind_depth(node_of(g, y).kind) >= kind_depth(n.kind) by {}
    assert(!gone.contains(g.root)) by {
        if desc.contains(g.root) {
            assert(kind_depth(node_of(g, g.root).kind) > kind_depth(n.kind));
        }
    }
    assert(!gone.contains(p)) by {
        assert(contains_kind(node_of(g, p).kind, n.kind));
    }
    // Which nodes survive, and what they look like.
    assert forall|x: Handle<Node<B>>| live(g1, x) <==> (live(g, x) && !gone.contains(x)) by {
        if x.generation_spec() == 1 && x.index_spec() < g.slots.len() {
            let i = x.index_spec() as int;
            Handle::<Node<B>>::lemma_issued_parts(x.index_spec(), 1);
            assert(Handle::<Node<B>>::issued(x.index_spec(), 1) == x);
        }
    }
    assert forall|x: Handle<Node<B>>| live(g1, x) implies {
        let n0 = node_of(g, x);
        &&& node_of(g1, x).kind == n0.kind
        &&& node_of(g1, x).state == n0.state
        &&& node_of(g1, x).parent == n0.parent
        &&& node_of(g1, x).envelope == n0.envelope
        &&& node_of(g1, x).neighbors == n0.neighbors.filter(not_in(gone))
        &&& node_of(g1, x).children == if x == p {
            n0.children.filter(other_than(h))
        } else {
            n0.children
        }
    } by {
        Handle::<Node<B>>::lemma_issued_parts(x.index_spec(), 1);
        assert(Handle::<Node<B>>::issued(x.index_spec(), 1) == x);
        if x.index_spec() == p.index_spec() {
            assert(x == p);
        }
    }
    // A survivor's parent survives, and so do its children.
    assert forall|x: Handle<Node<B>>| #[trigger] live(g1, x) implies node_sound(g1, x) by {
        let n0 = node_of(g, x);
        assert(node_sound(g, x));
        match n0.parent {
            Some(q) => {
                if gone.contains(q) {
                    assert(node_of(g, q).children.contains(x));
                    if q == h {
                        let j = choose|j: int| 0 <= j < n.children.len() && n.children[j] == x;
                        assert(desc.contains(n.children[j]));
                    } else {
                        assert(desc.contains(q));
                        assert(kind_depth(node_of(g, q).kind) < kind_depth(n.kind) + 1 + 3) by {
                            assert(contains_kind(node_of(g, q).kind, n0.kind));
                        }
                        assert(desc.contains(x));
                    }
                    assert(false);
                }
                assert(live(g1, q));
                if q == p {
                    lemma_filter_contents(node_of(g, p).children, other_than(h), x);
                }
            },
            None => {},
        }
        assert forall|j: int| 0 <= j < node_of(g1, x).neighbors.len() implies {
            let q = #[trigger] node_of(g1, x).neighbors[j];
            &&& live(g1, q)
            &&& node_of(g1, q).neighbors.contains(x)
            &&& node_of(g1, q).kind == node_of(g1, x).kind
        } by {
            let q = node_of(g1, x).neighbors[j];
            assert(node_of(g1, x).neighbors.contains(q));
            lemma_filter_contents(n0.neighbors, not_in(gone), q);
            let k = choose|k: int| 0 <= k < n0.neighbors.len() && n0.neighbors[k] == q;
            assert(live(g, n0.neighbors[k]));
            assert(live(g1, q));
            lemma_filter_contents(node_of(g, q).neighbors, not_in(gone), x);
        }
    }
    assert forall|x: Handle<Node<B>>| #[trigger] live(g1, x) && x != g1.root implies node_of(g1, x).parent is Some by {}
    assert forall|x: Handle<Node<B>>, j: int|
        live(g1, x) && 0 <= j < node_of(g1, x).children.len() implies {
            let c = #[trigger] node_of(g1, x).children[j];
            live(g1, c) && node_of(g1, c).parent == Some(x)
        } by {
        let n0 = node_of(g, x);
        let c = node_of(g1, x).children[j];
        assert(node_of(g1, x).children.contains(c));
        if x == p {
            lemma_filter_contents(n0.children, other_than(h), c);
        }
        assert(n0.children.contains(c));
        let k = choose|k: int| 0 <= k < n0.children.len() && n0.children[k] == c;
        assert(live(g, n0.children[k]) && node_of(g, c).parent == Some(x));
        if gone.contains(c) {
            if c == h {
                assert(x == p);
                assert(false);
            } else {
                assert(desc.contains(c));
                assert(false);
            }
        }
    }
    assert forall|x: Handle<Node<B>>| #[trigger] live(g1, x) implies !node_of(g1, x).neighbors.contains(x) by {
        lemma_filter_contents(node_of(g, x).neighbors, not_in(gone), x);
    }
}

proof fn lemma_neighbour_violation<B>(g: GraphView<B>, h: Handle<Node<B>>, j: nat)
    ensures
        neighbour_violation(g, h, j) is None <==> forall|k: int|
            j <= k < node_of(g, h).neighbors.len() ==> {
                let q = #[trigger] node_of(g, h).neighbors[k];
                &&& live(g, q)
                &&& node_of(g, q).neighbors.contains(h)
                &&& node_of(g, q).kind == node_of(g, h).kind
            },
    decreases node_of(g, h).neighbors.len() - j,
{
    if j < node_of(g, h).neighbors.len() {
        lemma_neighbour_violation(g, h, j + 1);
    }
}

proof fn lemma_node_violation<B>(g: GraphView<B>, h: Handle<Node<B>>)
    requires
        live(g, h),
    ensures
        node_violation(g, h) is None <==> node_sound(g, h),
{
    lemma_neighbour_violation(g, h, 0);
}

proof fn lemma_first_violation<B>(g: GraphView<B>, i: nat)
    requires
        g.slots.len() <= u32::MAX,
    ensures
        first_violation(g, i) is None <==> forall|h: Handle<Node<B>>| #[trigger] live(g, h) && h.index_spec() >= i ==> node_sound(g, h),
    decreases g.slots.len() - i,
{
    if i < g.slots.len() {
        lemma_first_violation(g, i + 1);
        let hi = Handle::<Node<B>>::issued(i as u32, 1);
        Handle::<Node<B>>::lemma_issued_parts(i as u32, 1);
        assert((i as u32) as int == i);
        if g.slots[i as int] is Some {
            assert(live(g, hi));
            lemma_node_violation(g, hi);
        }
        assert forall|h: Handle<Node<B>>| #[trigger] live(g, h) && h.index_spec() == i implies h == hi by {}
    }
}

/// The checker finds nothing exactly when every invariant holds: it is a decision procedure for
/// soundness.
pub proof fn law_check_finds_nothing_iff_sound<B>(g: GraphView<B>)
    requires
        g.slots.len() <= u32::MAX,
    ensures
        first_violation(g, 0) is None <==> sound(g),
{
    lemma_first_violation(g, 0);
}

/// Every graph built through the API passes its own check: no dangling parent, no one-sided or
/// cross-kind adjacency, no child ahead of its parent, nothing committed without an envelope.
pub proof fn law_built_graphs_pass_the_check<B>(g: NodeGraph<B>)
    requires
        g.wf(),
    ensures
        sound(g@),
        first_violation(g@, 0) is None,
{
    lemma_first_violation(g@, 0);
}

/// The lifecycle is one-way: advancing never moves any node backwards, and only ever moves the
/// node asked about. Asking for the state a node already has changes nothing and succeeds.
pub proof fn law_the_lifecycle_only_moves_forward<B>(g: GraphView<B>, h: Handle<Node<B>>, to: NodeState)
    ensures
        forall|x: Handle<Node<B>>| #[trigger] live(advanced(g, h, to).0, x) <==> live(g, x),
        forall|x: Handle<Node<B>>|
            #[trigger] live(g, x) ==> state_rank(node_of(advanced(g, h, to).0, x).state) >= state_rank(node_of(g, x).state),
        forall|x: Handle<Node<B>>|
            #[trigger] live(g, x) && x != h ==> node_of(advanced(g, h, to).0, x) == node_of(g, x),
        live(g, h) && node_of(g, h).state == to ==> advanced(g, h, to) == (g, Ok::<(), NodeError>(())),
{
}

/// Linking is idempotent: linking the same pair again changes nothing and succeeds.
pub proof fn law_linking_twice_is_linking_once<B>(g: NodeGraph<B>, a: Handle<Node<B>>, b: Handle<Node<B>>)
    requires
        g.wf(),
        connected(g@, a, b).1 is Ok,
    ensures
        connected(connected(g@, a, b).0, a, b) == connected(g@, a, b),
{
    let g1 = connected(g@, a, b).0;
    let na = node_of(g@, a);
    let nb = node_of(g@, b);
    lemma_link_contents(na.neighbors, b, b);
    lemma_link_contents(nb.neighbors, a, a);
    let n1a = node_of(g1, a);
    let n1b = node_of(g1, b);
    assert(with_link(n1a.neighbors, b) == n1a.neighbors);
    assert(with_link(n1b.neighbors, a) == n1b.neighbors);
    let g2 = connected(g1, a, b).0;
    assert(g2.slots =~= g1.slots);
}

/// Adjacency stays symmetric: after linking, each lists the other; after unlinking, neither does.
pub proof fn law_links_are_symmetric<B>(g: NodeGraph<B>, a: Handle<Node<B>>, b: Handle<Node<B>>)
    requires
        g.wf(),
    ensures
        connected(g@, a, b).1 is Ok ==> node_of(connected(g@, a, b).0, a).neighbors.contains(b)
            && node_of(connected(g@, a, b).0, b).neighbors.contains(a),
        disconnected(g@, a, b).1 is Ok ==> !node_of(disconnected(g@, a, b).0, a).neighbors.contains(b)
            && !node_of(disconnected(g@, a, b).0, b).neighbors.contains(a),
{
    let na = node_of(g@, a);
    let nb = node_of(g@, b);
    lemma_link_contents(na.neighbors, b, b);
    lemma_link_contents(nb.neighbors, a, a);
    if disconnected(g@, a, b).1 is Ok {
        let g1 = with_node(g@, a, NodeView { neighbors: na.neighbors.filter(other_than(b)), ..na });
        let nb1 = node_of(g1, b);
        lemma_link_contents(na.neighbors, b, b);
        lemma_link_contents(nb1.neighbors, a, a);
        lemma_link_contents(nb1.neighbors, a, b);
        if a == b {
            lemma_link_contents(na.neighbors.filter(other_than(b)), a, b);
        }
    }
}

proof fn lemma_chain_climbs<B>(g: GraphView<B>, c: Handle<Node<B>>, f: nat)
    requires
        well_formed(g),
        live(g, c),
        f >= kind_depth(node_of(g, c).kind) + 1,
    ensures
        chain_from(g, Some(c), f).len() == kind_depth(node_of(g, c).kind) + 1,
        chain_from(g, Some(c), f).last() == g.root,
        forall|k: int| 0 <= k < chain_from(g, Some(c), f).len() ==> {
            let a = #[trigger] chain_from(g, Some(c), f)[k];
            live(g, a) && kind_depth(node_of(g, a).kind) == kind_depth(node_of(g, c).kind) - k
        },
    decreases kind_depth(node_of(g, c).kind),
{
    let rest = chain_from(g, parent_in(g, c), (f - 1) as nat);
    let all = chain_from(g, Some(c), f);
    assert(all == seq![c] + rest);
    assert(node_sound(g, c));
    match node_of(g, c).parent {
        None => {
            assert(c == g.root);
            assert(rest == Seq::<Handle<Node<B>>>::empty());
            assert(all =~= seq![c]);
        },
        Some(p) => {
            assert(live(g, p));
            lemma_chain_climbs(g, p, (f - 1) as nat);
            assert(all.last() == rest.last());
            assert forall|k: int| 0 <= k < all.len() implies {
                let a = #[trigger] all[k];
                live(g, a) && kind_depth(node_of(g, a).kind) == kind_depth(node_of(g, c).kind) - k
            } by {
                if k > 0 {
                    assert(all[k] == rest[k - 1]);
                }
            }
        },
    }
}

/// A node's ancestors climb one level at a time and end at the root: there are exactly as many
/// as the node is deep, so `depth_of` is the depth of the node's kind.
pub proof fn law_ancestors_climb_to_the_root<B>(g: NodeGraph<B>, h: Handle<Node<B>>)
    requires
        g.wf(),
        live(g@, h),
    ensures
        ancestors(g@, h).len() == kind_depth(node_of(g@, h).kind),
        h != g@.root ==> ancestors(g@, h).last() == g@.root,
        forall|k: int| 0 <= k < ancestors(g@, h).len() ==> {
            let a = #[trigger] ancestors(g@, h)[k];
            live(g@, a) && kind_depth(node_of(g@, a).kind) == kind_depth(node_of(g@, h).kind) - 1 - k
        },
{
    let gv = g@;
    assert(node_sound(gv, h));
    match node_of(gv, h).parent {
        None => {
            assert(h == gv.root);
        },
        Some(p) => {
            lemma_chain_climbs(gv, p, 4);
        },
    }
}

/// Everything below a node is live, strictly deeper than it, and hangs from it or from another
/// node below it; and every child of a node below it is below it too.
pub proof fn law_descendants_are_the_subtree<B>(g: NodeGraph<B>, h: Handle<Node<B>>)
    requires
        g.wf(),
        live(g@, h),
    ensures
        forall|y: Handle<Node<B>>| #[trigger] descendants(g@, h).contains(y) ==> {
            &&& live(g@, y)
            &&& kind_depth(node_of(g@, y).kind) > kind_depth(node_of(g@, h).kind)
            &&& (node_of(g@, y).parent == Some(h) || descendants(g@, h).contains(node_of(g@, y).parent->Some_0))
        },
        forall|c: Handle<Node<B>>| #[trigger] node_of(g@, h).children.contains(c) ==> descendants(g@, h).contains(c),
        forall|y: Handle<Node<B>>, c: Handle<Node<B>>|
            #[trigger] descendants(g@, h).contains(y) && #[trigger] node_of(g@, y).children.contains(c) ==> descendants(g@, h).contains(c),
{
    let gv = g@;
    lemma_kids_facts(gv, h, 0, 3);
    let n = node_of(gv, h);
    assert(descendants(gv, h) == preorder_kids(gv, n.children, 0, 3));
    assert forall|c: Handle<Node<B>>| #[trigger] n.children.contains(c) implies descendants(gv, h).contains(c) by {
        let j = choose|j: int| 0 <= j < n.children.len() && n.children[j] == c;
        assert(preorder_kids(gv, n.children, 0, 3).contains(n.children[j]));
    }
    assert forall|y: Handle<Node<B>>, c: Handle<Node<B>>|
        #[trigger] descendants(gv, h).contains(y) && #[trigger] node_of(gv, y).children.contains(c) implies descendants(gv, h).contains(c) by {
        let j = choose|j: int| 0 <= j < node_of(gv, y).children.len() && node_of(gv, y).children[j] == c;
        assert(live(gv, c) && node_of(gv, c).parent == Some(y));
        assert(node_sound(gv, c));
        assert(kind_depth(node_of(gv, y).kind) < kind_depth(n.kind) + 1 + 3);
    }
}

} // verus!
