//! The containment hierarchy of the generated world and the lifecycle of its nodes.

use crate::serialize::{dec_u8, lemma_take_prefix, Codec, Deserialize, Reader, SerError, SerResult, Serialize, Writer};
use vstd::prelude::*;

verus! {

/// Where a node sits in the containment hierarchy. Each kind contains exactly one kind.
#[derive(Clone, Copy, Debug, PartialEq, Eq, PartialOrd, Ord, Hash, Structural)]
pub enum NodeKind {
    /// The singleton root: the whole generated world.
    World,
    /// A major progression region.
    Reach,
    /// A themed sub-region within a Reach.
    Area,
    /// A room.
    Space,
    /// A sub-volume within a Space.
    Spatial,
}

/// Depth from the root: `World` is 0, `Spatial` is 4.
pub open spec fn kind_depth(k: NodeKind) -> u8 {
    match k {
        NodeKind::World => 0,
        NodeKind::Reach => 1,
        NodeKind::Area => 2,
        NodeKind::Space => 3,
        NodeKind::Spatial => 4,
    }
}

/// The kind at a depth, outermost first.
pub open spec fn kind_at(d: int) -> NodeKind {
    if d == 0 {
        NodeKind::World
    } else if d == 1 {
        NodeKind::Reach
    } else if d == 2 {
        NodeKind::Area
    } else if d == 3 {
        NodeKind::Space
    } else {
        NodeKind::Spatial
    }
}

impl NodeKind {
    /// Every kind, outermost first.
    pub fn all() -> (v: [NodeKind; 5])
        ensures
            forall|i: int| 0 <= i < 5 ==> v@[i] == kind_at(i),
    {
        [NodeKind::World, NodeKind::Reach, NodeKind::Area, NodeKind::Space, NodeKind::Spatial]
    }

    /// The only kind this one may contain, or `None` for the innermost.
    pub fn child_kind(self) -> (c: Option<NodeKind>)
        ensures
            self == NodeKind::Spatial ==> c is None,
            self != NodeKind::Spatial ==> c == Some(kind_at(kind_depth(self) + 1)),
    {
        match self {
            NodeKind::World => Some(NodeKind::Reach),
            NodeKind::Reach => Some(NodeKind::Area),
            NodeKind::Area => Some(NodeKind::Space),
            NodeKind::Space => Some(NodeKind::Spatial),
            NodeKind::Spatial => None,
        }
    }

    /// Depth from the root: `World` is 0, `Spatial` is 4.
    pub fn depth(self) -> (d: u8)
        ensures
            d == kind_depth(self),
            d <= 4,
    {
        match self {
            NodeKind::World => 0,
            NodeKind::Reach => 1,
            NodeKind::Area => 2,
            NodeKind::Space => 3,
            NodeKind::Spatial => 4,
        }
    }

    /// The name used in diagnostics and the editor.
    pub fn as_str(self) -> (s: &'static str)
        ensures
            s@ == kind_name(self),
    {
        match self {
            NodeKind::World => "World",
            NodeKind::Reach => "Reach",
            NodeKind::Area => "Area",
            NodeKind::Space => "Space",
            NodeKind::Spatial => "Spatial",
        }
    }

    /// The kind with a serialized tag, if the tag names one.
    pub fn from_tag(tag: u8) -> (k: Option<NodeKind>)
        ensures
            tag < 5 ==> k == Some(kind_at(tag as int)),
            tag >= 5 ==> k is None,
    {
        if tag < 5 {
            let all = NodeKind::all();
            Some(all[tag as usize])
        } else {
            None
        }
    }
}

/// A kind's name.
pub open spec fn kind_name(k: NodeKind) -> Seq<char> {
    match k {
        NodeKind::World => "World"@,
        NodeKind::Reach => "Reach"@,
        NodeKind::Area => "Area"@,
        NodeKind::Space => "Space"@,
        NodeKind::Spatial => "Spatial"@,
    }
}

/// The kind at a depth is at that depth.
pub proof fn lemma_kind_at_depth(d: int)
    requires
        0 <= d < 5,
    ensures
        kind_depth(kind_at(d)) == d,
{
}

/// The hierarchy is a single chain: each kind's child is exactly one level deeper, and depth
/// determines the kind.
pub proof fn law_containment_is_one_level_at_a_time(k: NodeKind)
    ensures
        kind_at(kind_depth(k) as int) == k,
        k != NodeKind::Spatial ==> kind_depth(kind_at(kind_depth(k) + 1)) == kind_depth(k) + 1,
{
}

/// How far along the lazy-generation lifecycle a node is; the order is the lifecycle.
#[derive(Clone, Copy, Debug, PartialEq, Eq, PartialOrd, Ord, Hash, Structural)]
pub enum NodeState {
    /// A revisable forecast.
    Projected,
    /// Committed to exist, with an envelope claimed.
    Reserved,
    /// Built and frozen.
    Realized,
}

/// A state's position in the lifecycle.
pub open spec fn state_rank(s: NodeState) -> u8 {
    match s {
        NodeState::Projected => 0,
        NodeState::Reserved => 1,
        NodeState::Realized => 2,
    }
}

/// A state's name.
pub open spec fn state_name(s: NodeState) -> Seq<char> {
    match s {
        NodeState::Projected => "Projected"@,
        NodeState::Reserved => "Reserved"@,
        NodeState::Realized => "Realized"@,
    }
}

impl NodeState {
    /// The name used in diagnostics.
    pub fn as_str(self) -> (s: &'static str)
        ensures
            s@ == state_name(self),
    {
        match self {
            NodeState::Projected => "Projected",
            NodeState::Reserved => "Reserved",
            NodeState::Realized => "Realized",
        }
    }

    /// The serialized tag: the lifecycle position.
    pub fn tag(self) -> (t: u8)
        ensures
            t == state_rank(self),
    {
        match self {
            NodeState::Projected => 0,
            NodeState::Reserved => 1,
            NodeState::Realized => 2,
        }
    }

    /// The state with a serialized tag, if the tag names one.
    pub fn from_tag(tag: u8) -> (s: Option<NodeState>)
        ensures
            match s {
                Some(x) => tag < 3 && state_rank(x) == tag,
                None => tag >= 3,
            },
    {
        if tag == 0 {
            Some(NodeState::Projected)
        } else if tag == 1 {
            Some(NodeState::Reserved)
        } else if tag == 2 {
            Some(NodeState::Realized)
        } else {
            None
        }
    }
}

/// Reading a tag back inverts writing it.
pub proof fn law_state_tag_round_trip(s: NodeState)
    ensures
        state_rank(s) < 3,
        forall|t: NodeState| state_rank(t) == state_rank(s) ==> t == s,
{
}

/// Everything that can go wrong while shaping the graph. Every one is a rejected operation.
#[derive(Clone, Debug, PartialEq, Eq)]
pub enum NodeError {
    /// The handle is stale or was never issued by this graph.
    StaleHandle,
    /// The node is `Realized` and therefore frozen.
    Immutable { kind: NodeKind, state: NodeState },
    /// The innermost kind cannot contain anything.
    NotAContainer { kind: NodeKind },
    /// States only move forward.
    Regression { from: NodeState, to: NodeState },
    /// Advancing would put the node ahead of its parent.
    AheadOfParent { parent: NodeState, requested: NodeState },
    /// A node cannot be `Reserved` without an envelope to reserve.
    MissingEnvelope { kind: NodeKind },
    /// Only forecasts may be discarded.
    NotProjected { state: NodeState },
    /// A descendant has advanced past `Projected`, so the subtree is committed.
    SubtreeCommitted { descendant_state: NodeState },
    /// Adjacency links peers; these are different kinds.
    KindMismatch { a: NodeKind, b: NodeKind },
    /// A node cannot be adjacent to itself.
    SelfAdjacency,
    /// The root has no parent and cannot be removed or reparented.
    RootNode,
}

/// The message for a rejected graph operation.
pub open spec fn node_error_text(e: NodeError) -> Seq<char> {
    match e {
        NodeError::StaleHandle => "stale node handle"@,
        NodeError::Immutable { kind, state } => kind_name(kind) + " is "@ + state_name(state)
            + " and cannot be modified"@,
        NodeError::NotAContainer { kind } => "a "@ + kind_name(kind) + " cannot contain child nodes"@,
        NodeError::Regression { from, to } => "cannot move from "@ + state_name(from) + " back to "@
            + state_name(to) + "; the lifecycle is one-way"@,
        NodeError::AheadOfParent { parent, requested } => "cannot advance to "@ + state_name(
            requested,
        ) + " while the parent is only "@ + state_name(parent)
            + " — a child may lag behind its parent but never lead it"@,
        NodeError::MissingEnvelope { kind } => kind_name(kind)
            + " needs an envelope before it can be reserved"@,
        NodeError::NotProjected { state } => "only Projected nodes may be removed; this one is "@
            + state_name(state),
        NodeError::SubtreeCommitted { descendant_state } => "a descendant is "@ + state_name(
            descendant_state,
        ) + "; the subtree is committed and cannot be removed"@,
        NodeError::KindMismatch { a, b } => "adjacency links peers, but these are a "@ + kind_name(a)
            + " and a "@ + kind_name(b),
        NodeError::SelfAdjacency => "a node cannot be adjacent to itself"@,
        NodeError::RootNode => "the World root has no parent"@,
    }
}

impl NodeError {
    /// The message for this error.
    pub fn to_string(&self) -> (s: String)
        ensures
            s@ == node_error_text(*self),
    {
        match self {
            NodeError::StaleHandle => String::from_str("stale node handle"),
            NodeError::Immutable { kind, state } => {
                let mut s = String::from_str(kind.as_str());
                s.append(" is ");
                s.append(state.as_str());
                s.append(" and cannot be modified");
                s
            },
            NodeError::NotAContainer { kind } => {
                let mut s = String::from_str("a ");
                s.append(kind.as_str());
                s.append(" cannot contain child nodes");
                s
            },
            NodeError::Regression { from, to } => {
                let mut s = String::from_str("cannot move from ");
                s.append(from.as_str());
                s.append(" back to ");
                s.append(to.as_str());
                s.append("; the lifecycle is one-way");
                s
            },
            NodeError::AheadOfParent { parent, requested } => {
                let mut s = String::from_str("cannot advance to ");
                s.append(requested.as_str());
                s.append(" while the parent is only ");
                s.append(parent.as_str());
                s.append(" — a child may lag behind its parent but never lead it");
                s
            },
            NodeError::MissingEnvelope { kind } => {
                let mut s = String::from_str(kind.as_str());
                s.append(" needs an envelope before it can be reserved");
                s
            },
            NodeError::NotProjected { state } => {
                let mut s = String::from_str("only Projected nodes may be removed; this one is ");
                s.append(state.as_str());
                s
            },
            NodeError::SubtreeCommitted { descendant_state } => {
                let mut s = String::from_str("a descendant is ");
                s.append(descendant_state.as_str());
                s.append("; the subtree is committed and cannot be removed");
                s
            },
            NodeError::KindMismatch { a, b } => {
                let mut s = String::from_str("adjacency links peers, but these are a ");
                s.append(a.as_str());
                s.append(" and a ");
                s.append(b.as_str());
                s
            },
            NodeError::SelfAdjacency => String::from_str("a node cannot be adjacent to itself"),
            NodeError::RootNode => String::from_str("the World root has no parent"),
        }
    }
}

// ---------------------------------------------------------------------------------------------
// On the wire
// ---------------------------------------------------------------------------------------------

impl DeepView for NodeKind {
    type V = NodeKind;

    open spec fn deep_view(&self) -> NodeKind {
        *self
    }
}

impl Serialize for NodeKind {
    open spec fn encodable(v: NodeKind) -> bool {
        true
    }

    /// One byte: the depth.
    open spec fn encoding(v: NodeKind) -> Seq<u8> {
        seq![kind_depth(v)]
    }

    fn serialize(&self, w: &mut Writer) {
        w.u8(self.depth());
        assert(final(w)@ =~= old(w)@ + seq![kind_depth(*self)]);
    }
}

impl Deserialize for NodeKind {
    open spec fn decoding(rest: Seq<u8>) -> Result<(NodeKind, nat), SerError> {
        match dec_u8(rest) {
            Err(e) => Err(e),
            Ok((t, k)) => if t < 5 {
                Ok((kind_at(t as int), k))
            } else {
                Err(SerError::InvalidValue("unknown NodeKind tag"))
            },
        }
    }

    fn deserialize(r: &mut Reader<'_>) -> (res: SerResult<NodeKind>) {
        let t = r.u8()?;
        match NodeKind::from_tag(t) {
            Some(k) => Ok(k),
            None => Err(SerError::InvalidValue("unknown NodeKind tag")),
        }
    }
}

impl Codec for NodeKind {
    proof fn lemma_round_trip(v: NodeKind, rest: Seq<u8>) {
        lemma_take_prefix(seq![kind_depth(v)], rest);
    }
}

impl DeepView for NodeState {
    type V = NodeState;

    open spec fn deep_view(&self) -> NodeState {
        *self
    }
}

/// The state with a lifecycle position.
pub open spec fn state_at(t: u8) -> NodeState {
    if t == 0 {
        NodeState::Projected
    } else if t == 1 {
        NodeState::Reserved
    } else {
        NodeState::Realized
    }
}

impl Serialize for NodeState {
    open spec fn encodable(v: NodeState) -> bool {
        true
    }

    /// One byte: the lifecycle position.
    open spec fn encoding(v: NodeState) -> Seq<u8> {
        seq![state_rank(v)]
    }

    fn serialize(&self, w: &mut Writer) {
        w.u8(self.tag());
        assert(final(w)@ =~= old(w)@ + seq![state_rank(*self)]);
    }
}

impl Deserialize for NodeState {
    open spec fn decoding(rest: Seq<u8>) -> Result<(NodeState, nat), SerError> {
        match dec_u8(rest) {
            Err(e) => Err(e),
            Ok((t, k)) => if t < 3 {
                Ok((state_at(t), k))
            } else {
                Err(SerError::InvalidValue("unknown NodeState tag"))
            },
        }
    }

    fn deserialize(r: &mut Reader<'_>) -> (res: SerResult<NodeState>) {
        let t = r.u8()?;
        match NodeState::from_tag(t) {
            Some(s) => Ok(s),
            None => Err(SerError::InvalidValue("unknown NodeState tag")),
        }
    }
}

impl Codec for NodeState {
    proof fn lemma_round_trip(v: NodeState, rest: Seq<u8>) {
        lemma_take_prefix(seq![state_rank(v)], rest);
    }
}

} // verus!
