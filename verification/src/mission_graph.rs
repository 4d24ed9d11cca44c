//! The mission graph: the world as progression rather than as space.
//!
//! The scope graph says which rooms are *next to* each other; the mission graph says which rooms
//! you can *get to*, and what that costs. Accessibility is a sequence of spheres: with nothing,
//! some rooms are accessible; the items in them grant unlocks; those open more rooms; and so on,
//! until a round adds nothing.

use crate::handle::Handle;
use crate::mission::{holds_all, insert_sorted, law_more_held_keeps_a_rule_met, mentions, negation_free, satisfied, strictly_sorted, LocationId, Rule, RuleView};
use crate::serialize::{dec_bool, enc_bool, lemma_take_prefix, Codec, Deserialize, Reader, SerError, SerResult, Serialize, Writer};
use crate::object::ObjectId;
use crate::node::NodeKind;
use crate::scope_graph::{descendants, live, node_of, GraphView, Node, NodeGraph};
use vstd::prelude::*;

verus! {

broadcast use {Handle::lemma_parts_determine, ObjectId::lemma_raw_determines};

/// Where a location is.
#[derive(Debug, PartialEq)]
pub struct Location<B> {
    /// The scope holding it.
    pub scope: Handle<Node<B>>,
    /// Which slot within that scope.
    pub slot: u32,
}

impl<B> Clone for Location<B> {
    fn clone(&self) -> (l: Self)
        ensures
            l == *self,
    {
        Location { scope: self.scope, slot: self.slot }
    }
}

impl<B> Copy for Location<B> {

}

/// A traversable connection between scopes, and what it costs.
#[derive(Clone, Debug, PartialEq)]
pub struct MissionEdge<B> {
    /// Where it starts.
    pub from: Handle<Node<B>>,
    /// Where it leads.
    pub to: Handle<Node<B>>,
    /// What the player must hold to cross.
    pub rule: Rule,
    /// Can it be crossed back the other way? A one-way edge is a commit.
    pub reversible: bool,
    /// Was this added to close a loop, rather than being part of the base topology?
    pub is_shortcut: bool,
}

impl<B> MissionEdge<B> {
    /// An open, reversible connection.
    pub fn open(from: Handle<Node<B>>, to: Handle<Node<B>>) -> (e: MissionEdge<B>)
        ensures
            e == (MissionEdge::<B> { from, to, rule: Rule::Always, reversible: true, is_shortcut: false }),
    {
        MissionEdge { from, to, rule: Rule::Always, reversible: true, is_shortcut: false }
    }

    /// A connection gated by a rule.
    pub fn gated(from: Handle<Node<B>>, to: Handle<Node<B>>, rule: Rule) -> (e: MissionEdge<B>)
        ensures
            e == (MissionEdge::<B> { from, to, rule, reversible: true, is_shortcut: false }),
    {
        MissionEdge { from, to, rule, reversible: true, is_shortcut: false }
    }

    /// This edge, one-way.
    pub fn one_way(self) -> (e: MissionEdge<B>)
        ensures
            e == (MissionEdge::<B> { reversible: false, ..self }),
    {
        MissionEdge { reversible: false, ..self }
    }

    /// This edge, marked a shortcut (a loop-closing addition).
    pub fn shortcut(self) -> (e: MissionEdge<B>)
        ensures
            e == (MissionEdge::<B> { is_shortcut: true, ..self }),
    {
        MissionEdge { is_shortcut: true, ..self }
    }

    /// Is this edge gated at all?
    pub fn is_gated(&self) -> (b: bool)
        ensures
            b == !(self.rule is Always),
    {
        !self.rule.is_open()
    }
}

/// The order handles sort in: by slot, then generation.
pub open spec fn handle_key<B>(h: Handle<Node<B>>) -> int {
    h.index_spec() * 0x1_0000_0000 + h.generation_spec()
}

/// Strictly increasing handles: a set, listed in handle order.
pub open spec fn handles_sorted<B>(s: Seq<Handle<Node<B>>>) -> bool {
    forall|i: int, j: int| 0 <= i < j < s.len() ==> handle_key(#[trigger] s[i]) < handle_key(#[trigger] s[j])
}

/// Strictly increasing location ids.
pub open spec fn ids_sorted(s: Seq<LocationId>) -> bool {
    forall|i: int, j: int| 0 <= i < j < s.len() ==> (#[trigger] s[i]).0 < (#[trigger] s[j]).0
}

/// The value recorded for `key` in an association list whose keys are distinct, if any.
pub open spec fn lookup<K, V>(entries: Seq<(K, V)>, key: K) -> Option<V> {
    if exists|i: int| 0 <= i < entries.len() && (#[trigger] entries[i]).0 == key {
        Some(entries[choose|i: int| 0 <= i < entries.len() && (#[trigger] entries[i]).0 == key].1)
    } else {
        None
    }
}

/// No key occurs twice.
pub open spec fn keys_distinct<K, V>(entries: Seq<(K, V)>) -> bool {
    forall|i: int, j: int| 0 <= i < j < entries.len() ==> (#[trigger] entries[i]).0 != (#[trigger] entries[j]).0
}

/// In a list with distinct keys, the entry at `i` is what looking its key up finds.
proof fn lemma_lookup_at<K, V>(entries: Seq<(K, V)>, i: int)
    requires
        keys_distinct(entries),
        0 <= i < entries.len(),
    ensures
        lookup(entries, entries[i].0) == Some(entries[i].1),
{
    let k = entries[i].0;
    assert(entries[i].0 == k);
    let j = choose|j: int| 0 <= j < entries.len() && (#[trigger] entries[j]).0 == k;
    if j != i {
        if j < i {
            assert(entries[j].0 != entries[i].0);
        } else {
            assert(entries[i].0 != entries[j].0);
        }
    }
}

/// The mission graph as plain values.
pub struct MissionView<B> {
    /// Where the player begins.
    pub start: Handle<Node<B>>,
    /// Where the world is considered complete, if declared.
    pub goal: Option<Handle<Node<B>>>,
    /// Scopes from which a stranded player can get back, in handle order.
    pub recovery: Seq<Handle<Node<B>>>,
    /// Every edge, in insertion order.
    pub edges: Seq<MissionEdge<B>>,
    /// Every location, in id order.
    pub locations: Seq<(LocationId, Location<B>)>,
    /// The declared degree caps.
    pub caps: Seq<(Handle<Node<B>>, u32)>,
    /// Scopes the generator must leave empty, in handle order.
    pub excluded: Seq<Handle<Node<B>>>,
}

/// The ids of a list of locations.
pub open spec fn location_ids<B>(locations: Seq<(LocationId, Location<B>)>) -> Seq<LocationId> {
    locations.map_values(|e: (LocationId, Location<B>)| e.0)
}

/// What every mission graph keeps: its sets and maps are listed in order, each key once.
pub open spec fn mission_wf<B>(m: MissionView<B>) -> bool {
    &&& handles_sorted(m.recovery)
    &&& handles_sorted(m.excluded)
    &&& ids_sorted(location_ids(m.locations))
    &&& keys_distinct(m.caps)
}

/// **The mission graph**: the world as progression rather than as space.
#[derive(Clone, Debug, PartialEq)]
pub struct MissionGraph<B> {
    start: Handle<Node<B>>,
    goal: Option<Handle<Node<B>>>,
    recovery: Vec<Handle<Node<B>>>,
    edges: Vec<MissionEdge<B>>,
    locations: Vec<(LocationId, Location<B>)>,
    degree_caps: Vec<(Handle<Node<B>>, u32)>,
    content_excluded: Vec<Handle<Node<B>>>,
}

impl<B> View for MissionGraph<B> {
    type V = MissionView<B>;

    closed spec fn view(&self) -> MissionView<B> {
        MissionView {
            start: self.start,
            goal: self.goal,
            recovery: self.recovery@,
            edges: self.edges@,
            locations: self.locations@,
            caps: self.degree_caps@,
            excluded: self.content_excluded@,
        }
    }
}

/// How many edges touch `scope`.
pub open spec fn degree_of<B>(edges: Seq<MissionEdge<B>>, scope: Handle<Node<B>>) -> nat
    decreases edges.len(),
{
    if edges.len() == 0 {
        0
    } else {
        degree_of(edges.drop_last(), scope) + if edges.last().from == scope || edges.last().to == scope {
            1nat
        } else {
            0nat
        }
    }
}

/// Is `scope` at or past its declared cap?
pub open spec fn at_cap<B>(m: MissionView<B>, scope: Handle<Node<B>>) -> bool {
    match lookup(m.caps, scope) {
        Some(cap) => degree_of(m.edges, scope) as u32 >= cap,
        None => false,
    }
}

/// The graph after `e` is requested: unchanged when either end is at its cap, else with `e` added.
pub open spec fn edge_requested<B>(m: MissionView<B>, e: MissionEdge<B>) -> MissionView<B> {
    if at_cap(m, e.from) || at_cap(m, e.to) {
        m
    } else {
        MissionView::<B> { edges: m.edges.push(e), ..m }
    }
}

/// `s` has no more edges than its cap, if it has one.
pub open spec fn cap_met<B>(m: MissionView<B>, s: Handle<Node<B>>) -> bool {
    match lookup(m.caps, s) {
        Some(c) => degree_of(m.edges, s) <= c,
        None => true,
    }
}

/// Every declared cap is met: no capped scope has more edges than its cap.
pub open spec fn caps_hold<B>(m: MissionView<B>) -> bool {
    forall|s: Handle<Node<B>>| #[trigger] cap_met(m, s)
}

/// Is there an edge between `a` and `b`, either way round?
pub open spec fn joins<B>(e: MissionEdge<B>, a: Handle<Node<B>>, b: Handle<Node<B>>) -> bool {
    (e.from == a && e.to == b) || (e.from == b && e.to == a)
}

/// The ids of the locations in `scope`, in id order.
pub open spec fn ids_in<B>(locations: Seq<(LocationId, Location<B>)>, scope: Handle<Node<B>>) -> Seq<LocationId>
    decreases locations.len(),
{
    if locations.len() == 0 {
        Seq::empty()
    } else {
        let rest = ids_in(locations.drop_last(), scope);
        if locations.last().1.scope == scope {
            rest.push(locations.last().0)
        } else {
            rest
        }
    }
}

/// How many edges satisfy `p`.
pub open spec fn count_edges<B>(edges: Seq<MissionEdge<B>>, p: spec_fn(MissionEdge<B>) -> bool) -> nat
    decreases edges.len(),
{
    if edges.len() == 0 {
        0
    } else {
        count_edges(edges.drop_last(), p) + if p(edges.last()) {
            1nat
        } else {
            0nat
        }
    }
}

/// Does `a` sort before `b`?
pub fn handle_before<B>(a: Handle<Node<B>>, b: Handle<Node<B>>) -> (r: bool)
    ensures
        r == (handle_key(a) < handle_key(b)),
{
    let (ai, ag, bi, bg) = (a.index(), a.generation(), b.index(), b.generation());
    let r = ai < bi || (ai == bi && ag < bg);
    assert(r == (ai * 0x1_0000_0000int + ag < bi * 0x1_0000_0000int + bg)) by (nonlinear_arith)
        requires
            r == (ai < bi || (ai == bi && ag < bg)),
            ag < 0x1_0000_0000int,
            bg < 0x1_0000_0000int,
    ;
    r
}

/// Handles with the same key are the same handle.
proof fn lemma_key_determines<B>(a: Handle<Node<B>>, b: Handle<Node<B>>)
    ensures
        handle_key(a) == handle_key(b) <==> a == b,
{
    let (ai, ag, bi, bg) = (a.index_spec() as int, a.generation_spec() as int, b.index_spec() as int, b.generation_spec() as int);
    assert(ai * 0x1_0000_0000int + ag == bi * 0x1_0000_0000int + bg ==> ai == bi && ag == bg) by (nonlinear_arith)
        requires
            0 <= ag < 0x1_0000_0000int,
            0 <= bg < 0x1_0000_0000int,
            0 <= ai,
            0 <= bi,
    ;
}

/// Insert `h` into a strictly sorted list of handles, keeping it strictly sorted.
fn insert_handle<B>(out: &mut Vec<Handle<Node<B>>>, h: Handle<Node<B>>)
    requires
        handles_sorted(old(out)@),
    ensures
        handles_sorted(final(out)@),
        forall|x: Handle<Node<B>>| final(out)@.contains(x) <==> (old(out)@.contains(x) || x == h),
        final(out)@.len() == old(out)@.len() + if old(out)@.contains(h) {
            0int
        } else {
            1int
        },
{
    let mut i: usize = 0;
    while i < out.len() && handle_before(out[i], h)
        invariant
            i <= out@.len(),
            out@ == old(out)@,
            handles_sorted(out@),
            forall|j: int| 0 <= j < i ==> handle_key(out@[j]) < handle_key(h),
        decreases out@.len() - i,
    {
        i += 1;
    }
    if i < out.len() && out[i] == h {
        assert(out@[i as int] == h);
        return;
    }
    proof {
        if i < out@.len() {
            lemma_key_determines(out@[i as int], h);
        }
        if old(out)@.contains(h) {
            let k = choose|k: int| 0 <= k < old(out)@.len() && old(out)@[k] == h;
            if k > i {
                assert(handle_key(old(out)@[i as int]) < handle_key(old(out)@[k]));
            }
        }
    }
    out.insert(i, h);
    proof {
        assert forall|x: Handle<Node<B>>| final(out)@.contains(x) <==> (old(out)@.contains(x) || x == h) by {
            if old(out)@.contains(x) {
                let k = choose|k: int| 0 <= k < old(out)@.len() && old(out)@[k] == x;
                if k < i {
                    assert(final(out)@[k] == x);
                } else {
                    assert(final(out)@[k + 1] == x);
                }
            }
            if x == h {
                assert(final(out)@[i as int] == x);
            }
            if final(out)@.contains(x) {
                let k = choose|k: int| 0 <= k < final(out)@.len() && final(out)@[k] == x;
                if k < i {
                    assert(old(out)@[k] == x);
                } else if k > i {
                    assert(old(out)@[k - 1] == x);
                }
            }
        }
    }
}

impl<B> MissionGraph<B> {
    /// The invariant every operation keeps.
    pub open spec fn wf(&self) -> bool {
        mission_wf(self@)
    }

    /// An empty graph rooted at `start`.
    pub fn new(start: Handle<Node<B>>) -> (m: MissionGraph<B>)
        ensures
            m.wf(),
            m@ == (MissionView::<B> {
                start,
                goal: None,
                recovery: Seq::empty(),
                edges: Seq::empty(),
                locations: Seq::empty(),
                caps: Seq::empty(),
                excluded: Seq::empty(),
            }),
    {
        let m = MissionGraph {
            start,
            goal: None,
            recovery: Vec::new(),
            edges: Vec::new(),
            locations: Vec::new(),
            degree_caps: Vec::new(),
            content_excluded: Vec::new(),
        };
        assert(location_ids(m@.locations) =~= Seq::<LocationId>::empty());
        m
    }

    /// Move where the run begins.
    pub fn set_start(&mut self, scope: Handle<Node<B>>)
        requires
            old(self).wf(),
        ensures
            final(self).wf(),
            final(self)@ == (MissionView::<B> { start: scope, ..old(self)@ }),
    {
        self.start = scope;
    }

    /// Where the player begins.
    pub fn start(&self) -> (h: Handle<Node<B>>)
        ensures
            h == self@.start,
    {
        self.start
    }

    /// Forbid the generator from placing content in a scope.
    pub fn exclude_content(&mut self, scope: Handle<Node<B>>)
        requires
            old(self).wf(),
        ensures
            final(self).wf(),
            forall|x: Handle<Node<B>>| #[trigger] final(self)@.excluded.contains(x) <==> (old(self)@.excluded.contains(x) || x == scope),
            final(self)@ == (MissionView::<B> { excluded: final(self)@.excluded, ..old(self)@ }),
    {
        insert_handle(&mut self.content_excluded, scope);
    }

    /// Is the generator barred from placing content here?
    pub fn excludes_content(&self, scope: Handle<Node<B>>) -> (b: bool)
        ensures
            b == self@.excluded.contains(scope),
    {
        holds_handle(&self.content_excluded, scope)
    }

    /// Every scope the generator must leave empty, in handle order.
    pub fn content_excluded_scopes(&self) -> (v: &[Handle<Node<B>>])
        ensures
            v@ == self@.excluded,
    {
        self.content_excluded.as_slice()
    }

    /// Cap how many connections a scope may have. Capping below the current degree removes
    /// nothing: it freezes the scope where it is.
    pub fn set_degree_cap(&mut self, scope: Handle<Node<B>>, max: u32)
        requires
            old(self).wf(),
        ensures
            final(self).wf(),
            forall|x: Handle<Node<B>>| #[trigger] lookup(final(self)@.caps, x) == if x == scope {
                Some(max)
            } else {
                lookup(old(self)@.caps, x)
            },
            final(self)@ == (MissionView::<B> { caps: final(self)@.caps, ..old(self)@ }),
    {
        let ghost old_caps = self.degree_caps@;
        match self.cap_index(scope) {
            Some(i) => {
                self.degree_caps.set(i, (scope, max));
                proof {
                    let new_caps = self.degree_caps@;
                    assert(new_caps == old_caps.update(i as int, (scope, max)));
                    assert(keys_distinct(new_caps)) by {
                        assert forall|a: int, b: int| 0 <= a < b < new_caps.len() implies (#[trigger] new_caps[a]).0 != (#[trigger] new_caps[b]).0 by {
                            assert(old_caps[a].0 != old_caps[b].0);
                        }
                    }
                    assert forall|x: Handle<Node<B>>| #[trigger] lookup(new_caps, x) == if x == scope {
                        Some(max)
                    } else {
                        lookup(old_caps, x)
                    } by {
                        lemma_lookup_at(new_caps, i as int);
                        if x != scope {
                            if exists|j: int| 0 <= j < old_caps.len() && (#[trigger] old_caps[j]).0 == x {
                                let j = choose|j: int| 0 <= j < old_caps.len() && (#[trigger] old_caps[j]).0 == x;
                                lemma_lookup_at(old_caps, j);
                                lemma_lookup_at(new_caps, j);
                                assert(new_caps[j] == old_caps[j]);
                            } else {
                                assert forall|j: int| 0 <= j < new_caps.len() implies (#[trigger] new_caps[j]).0 != x by {
                                    if j != i {
                                        assert(new_caps[j] == old_caps[j]);
                                    }
                                }
                            }
                        }
                    }
                }
                return;
            },
            None => {},
        }
        self.degree_caps.push((scope, max));
        proof {
            let new_caps = self.degree_caps@;
            assert(keys_distinct(new_caps)) by {
                assert forall|a: int, b: int| 0 <= a < b < new_caps.len() implies (#[trigger] new_caps[a]).0 != (#[trigger] new_caps[b]).0 by {
                    if b < old_caps.len() {
                        assert(old_caps[a].0 != old_caps[b].0);
                    } else {
                        assert(old_caps[a].0 != scope);
                    }
                }
            }
            assert forall|x: Handle<Node<B>>| #[trigger] lookup(new_caps, x) == if x == scope {
                Some(max)
            } else {
                lookup(old_caps, x)
            } by {
                lemma_lookup_at(new_caps, old_caps.len() as int);
                if x != scope {
                    if exists|j: int| 0 <= j < old_caps.len() && (#[trigger] old_caps[j]).0 == x {
                        let j = choose|j: int| 0 <= j < old_caps.len() && (#[trigger] old_caps[j]).0 == x;
                        lemma_lookup_at(old_caps, j);
                        lemma_lookup_at(new_caps, j);
                    } else {
                        assert forall|j: int| 0 <= j < new_caps.len() implies (#[trigger] new_caps[j]).0 != x by {
                            if j < old_caps.len() {
                                assert(new_caps[j] == old_caps[j]);
                            }
                        }
                    }
                }
            }
        }
    }

    /// Where `scope`'s cap is recorded, if it is.
    fn cap_index(&self, scope: Handle<Node<B>>) -> (r: Option<usize>)
        ensures
            match r {
                Some(i) => i < self@.caps.len() && self@.caps[i as int].0 == scope,
                None => forall|j: int| 0 <= j < self@.caps.len() ==> (#[trigger] self@.caps[j]).0 != scope,
            },
    {
        let mut i: usize = 0;
        while i < self.degree_caps.len()
            invariant
                i <= self@.caps.len(),
                forall|j: int| 0 <= j < i ==> (#[trigger] self@.caps[j]).0 != scope,
            decreases self@.caps.len() - i,
        {
            if self.degree_caps[i].0 == scope {
                return Some(i);
            }
            i += 1;
        }
        None
    }

    /// The declared cap for a scope, if any.
    #[verifier::loop_isolation(false)]
    pub fn degree_cap(&self, scope: Handle<Node<B>>) -> (c: Option<u32>)
        requires
            self.wf(),
        ensures
            c == lookup(self@.caps, scope),
    {
        let mut i: usize = 0;
        while i < self.degree_caps.len()
            invariant
                i <= self@.caps.len(),
                forall|j: int| 0 <= j < i ==> (#[trigger] self@.caps[j]).0 != scope,
            decreases self@.caps.len() - i,
        {
            if self.degree_caps[i].0 == scope {
                proof {
                    lemma_lookup_at(self@.caps, i as int);
                }
                return Some(self.degree_caps[i].1);
            }
            i += 1;
        }
        None
    }

    /// How many edges touch a scope.
    pub fn degree(&self, scope: Handle<Node<B>>) -> (d: u32)
        ensures
            d == degree_of(self@.edges, scope) as u32,
    {
        let mut n: usize = 0;
        let mut i: usize = 0;
        while i < self.edges.len()
            invariant
                i <= self@.edges.len(),
                n == degree_of(self@.edges.take(i as int), scope),
                n <= i,
            decreases self@.edges.len() - i,
        {
            proof {
                assert(self@.edges.take(i + 1).drop_last() =~= self@.edges.take(i as int));
            }
            if self.edges[i].from == scope || self.edges[i].to == scope {
                n += 1;
            }
            i += 1;
        }
        assert(self@.edges.take(i as int) =~= self@.edges);
        n as u32
    }

    /// Would adding an edge between these two exceed either one's declared cap?
    pub fn would_exceed_cap(&self, a: Handle<Node<B>>, b: Handle<Node<B>>) -> (r: bool)
        requires
            self.wf(),
        ensures
            r == (at_cap(self@, a) || at_cap(self@, b)),
    {
        self.full(a) || self.full(b)
    }

    /// Is this scope at or past its cap?
    fn full(&self, h: Handle<Node<B>>) -> (r: bool)
        requires
            self.wf(),
        ensures
            r == at_cap(self@, h),
    {
        match self.degree_cap(h) {
            Some(cap) => self.degree(h) >= cap,
            None => false,
        }
    }

    /// Set where the world is considered complete.
    pub fn set_goal(&mut self, scope: Handle<Node<B>>)
        requires
            old(self).wf(),
        ensures
            final(self).wf(),
            final(self)@ == (MissionView::<B> { goal: Some(scope), ..old(self)@ }),
    {
        self.goal = Some(scope);
    }

    /// Where the world is considered complete, if declared.
    pub fn goal(&self) -> (g: Option<Handle<Node<B>>>)
        ensures
            g == self@.goal,
    {
        self.goal
    }

    /// Mark a scope as a recovery point: reaching it un-strands a player.
    pub fn add_recovery(&mut self, scope: Handle<Node<B>>)
        requires
            old(self).wf(),
        ensures
            final(self).wf(),
            forall|x: Handle<Node<B>>| #[trigger] final(self)@.recovery.contains(x) <==> (old(self)@.recovery.contains(x) || x == scope),
            final(self)@ == (MissionView::<B> { recovery: final(self)@.recovery, ..old(self)@ }),
    {
        insert_handle(&mut self.recovery, scope);
    }

    /// The recovery points, in handle order.
    pub fn recovery_points(&self) -> (v: &[Handle<Node<B>>])
        ensures
            v@ == self@.recovery,
    {
        self.recovery.as_slice()
    }

    /// Every edge, in insertion order.
    pub fn edges(&self) -> (v: &[MissionEdge<B>])
        ensures
            v@ == self@.edges,
    {
        self.edges.as_slice()
    }

    /// Add an edge, unless a declared degree cap refuses it: the new edge's index, or `None` when
    /// either endpoint is already at its cap.
    pub fn add_edge(&mut self, edge: MissionEdge<B>) -> (r: Option<usize>)
        requires
            old(self).wf(),
        ensures
            final(self).wf(),
            at_cap(old(self)@, edge.from) || at_cap(old(self)@, edge.to) ==> r is None && final(self)@ == old(self)@,
            !(at_cap(old(self)@, edge.from) || at_cap(old(self)@, edge.to)) ==> r == Some(old(self)@.edges.len() as usize)
                && final(self)@ == (MissionView::<B> { edges: old(self)@.edges.push(edge), ..old(self)@ }),
            final(self)@ == edge_requested(old(self)@, edge),
    {
        if self.would_exceed_cap(edge.from, edge.to) {
            return None;
        }
        let index = self.edges.len();
        self.edges.push(edge);
        Some(index)
    }

    /// Make a one-way edge two-way. Whether anything changed.
    pub fn make_reversible(&mut self, index: usize) -> (changed: bool)
        requires
            old(self).wf(),
        ensures
            final(self).wf(),
            changed == (index < old(self)@.edges.len() && !old(self)@.edges[index as int].reversible),
            changed ==> final(self)@ == (MissionView::<B> {
                edges: old(self)@.edges.update(index as int, MissionEdge::<B> { reversible: true, ..old(self)@.edges[index as int] }),
                ..old(self)@
            }),
            !changed ==> final(self)@ == old(self)@,
    {
        if index < self.edges.len() && !self.edges[index].reversible {
            let mut e = self.edges.remove(index);
            e.reversible = true;
            self.edges.insert(index, e);
            assert(self@.edges =~= old(self)@.edges.update(index as int, MissionEdge::<B> { reversible: true, ..old(self)@.edges[index as int] }));
            true
        } else {
            false
        }
    }

    /// Make a two-way edge one-way, oriented `from → to`. Whether anything changed.
    pub fn make_one_way(&mut self, index: usize) -> (changed: bool)
        requires
            old(self).wf(),
        ensures
            final(self).wf(),
            changed == (index < old(self)@.edges.len() && old(self)@.edges[index as int].reversible),
            changed ==> final(self)@ == (MissionView::<B> {
                edges: old(self)@.edges.update(index as int, MissionEdge::<B> { reversible: false, ..old(self)@.edges[index as int] }),
                ..old(self)@
            }),
            !changed ==> final(self)@ == old(self)@,
    {
        if index < self.edges.len() && self.edges[index].reversible {
            let mut e = self.edges.remove(index);
            e.reversible = false;
            self.edges.insert(index, e);
            assert(self@.edges =~= old(self)@.edges.update(index as int, MissionEdge::<B> { reversible: false, ..old(self)@.edges[index as int] }));
            true
        } else {
            false
        }
    }

    /// Replace an edge's rule: how a connection gets gated. Whether the edge exists.
    pub fn gate_edge(&mut self, index: usize, rule: Rule) -> (changed: bool)
        requires
            old(self).wf(),
        ensures
            final(self).wf(),
            changed == (index < old(self)@.edges.len()),
            changed ==> final(self)@ == (MissionView::<B> {
                edges: old(self)@.edges.update(index as int, MissionEdge::<B> { rule, ..old(self)@.edges[index as int] }),
                ..old(self)@
            }),
            !changed ==> final(self)@ == old(self)@,
    {
        if index < self.edges.len() {
            let mut e = self.edges.remove(index);
            e.rule = rule;
            self.edges.insert(index, e);
            assert(self@.edges =~= old(self)@.edges.update(index as int, MissionEdge::<B> { rule, ..old(self)@.edges[index as int] }));
            true
        } else {
            false
        }
    }

    /// Is there an edge between these two scopes already?
    pub fn connects(&self, a: Handle<Node<B>>, b: Handle<Node<B>>) -> (r: bool)
        ensures
            r == exists|i: int| 0 <= i < self@.edges.len() && joins(#[trigger] self@.edges[i], a, b),
    {
        let mut i: usize = 0;
        while i < self.edges.len()
            invariant
                i <= self@.edges.len(),
                forall|j: int| 0 <= j < i ==> !joins(#[trigger] self@.edges[j], a, b),
            decreases self@.edges.len() - i,
        {
            let e = &self.edges[i];
            if (e.from == a && e.to == b) || (e.from == b && e.to == a) {
                assert(joins(self@.edges[i as int], a, b));
                return true;
            }
            i += 1;
        }
        false
    }

    /// How many edges were added as loop-closing shortcuts.
    pub fn shortcut_count(&self) -> (n: usize)
        ensures
            n == count_edges(self@.edges, |e: MissionEdge<B>| e.is_shortcut),
    {
        let mut n: usize = 0;
        let mut i: usize = 0;
        while i < self.edges.len()
            invariant
                i <= self@.edges.len(),
                n == count_edges(self@.edges.take(i as int), |e: MissionEdge<B>| e.is_shortcut),
                n <= i,
            decreases self@.edges.len() - i,
        {
            proof {
                assert(self@.edges.take(i + 1).drop_last() =~= self@.edges.take(i as int));
            }
            if self.edges[i].is_shortcut {
                n += 1;
            }
            i += 1;
        }
        assert(self@.edges.take(i as int) =~= self@.edges);
        n
    }

    /// How many edges are gated.
    pub fn gated_count(&self) -> (n: usize)
        ensures
            n == count_edges(self@.edges, |e: MissionEdge<B>| !(e.rule is Always)),
    {
        let mut n: usize = 0;
        let mut i: usize = 0;
        while i < self.edges.len()
            invariant
                i <= self@.edges.len(),
                n == count_edges(self@.edges.take(i as int), |e: MissionEdge<B>| !(e.rule is Always)),
                n <= i,
            decreases self@.edges.len() - i,
        {
            proof {
                assert(self@.edges.take(i + 1).drop_last() =~= self@.edges.take(i as int));
            }
            if self.edges[i].is_gated() {
                n += 1;
            }
            i += 1;
        }
        assert(self@.edges.take(i as int) =~= self@.edges);
        n
    }
}

/// A scope's degree never exceeds the number of edges.
proof fn lemma_degree_bounded<B>(edges: Seq<MissionEdge<B>>, h: Handle<Node<B>>)
    ensures
        degree_of(edges, h) <= edges.len(),
    decreases edges.len(),
{
    if edges.len() > 0 {
        lemma_degree_bounded(edges.drop_last(), h);
    }
}

/// Does `v` hold `x`?
pub(crate) fn holds_handle<B>(v: &Vec<Handle<Node<B>>>, x: Handle<Node<B>>) -> (b: bool)
    ensures
        b == v@.contains(x),
{
    let mut i: usize = 0;
    while i < v.len()
        invariant
            i <= v@.len(),
            forall|j: int| 0 <= j < i ==> v@[j] != x,
        decreases v@.len() - i,
    {
        if v[i] == x {
            assert(v@[i as int] == x);
            return true;
        }
        i += 1;
    }
    false
}

impl<B> MissionGraph<B> {
    /// Register a location, unless its scope is barred from holding content. Whether it was
    /// added; a location already under that id is replaced.
    pub fn add_location(&mut self, id: LocationId, location: Location<B>) -> (added: bool)
        requires
            old(self).wf(),
        ensures
            final(self).wf(),
            added == !old(self)@.excluded.contains(location.scope),
            !added ==> final(self)@ == old(self)@,
            added ==> forall|k: LocationId| #[trigger] lookup(final(self)@.locations, k) == if k == id {
                Some(location)
            } else {
                lookup(old(self)@.locations, k)
            },
            final(self)@ == (MissionView::<B> { locations: final(self)@.locations, ..old(self)@ }),
    {
        if self.excludes_content(location.scope) {
            return false;
        }
        let ghost old_locs = self.locations@;
        proof {
            lemma_sorted_ids_distinct(old_locs);
        }
        let mut i: usize = 0;
        while i < self.locations.len() && self.locations[i].0.0 < id.0
            invariant
                i <= old_locs.len(),
                self.locations@ == old_locs,
                forall|j: int| 0 <= j < i ==> (#[trigger] old_locs[j]).0.0 < id.0,
            decreases old_locs.len() - i,
        {
            i += 1;
        }
        if i < self.locations.len() && self.locations[i].0.0 == id.0 {
            self.locations.set(i, (id, location));
            proof {
                let new_locs = self.locations@;
                assert(old_locs[i as int].0 == id);
                assert(location_ids(new_locs) =~= location_ids(old_locs));
                lemma_sorted_ids_distinct(new_locs);
                assert forall|k: LocationId| #[trigger] lookup(new_locs, k) == if k == id {
                    Some(location)
                } else {
                    lookup(old_locs, k)
                } by {
                    lemma_lookup_at(new_locs, i as int);
                    if k != id {
                        if exists|j: int| 0 <= j < old_locs.len() && (#[trigger] old_locs[j]).0 == k {
                            let j = choose|j: int| 0 <= j < old_locs.len() && (#[trigger] old_locs[j]).0 == k;
                            lemma_lookup_at(old_locs, j);
                            lemma_lookup_at(new_locs, j);
                        } else {
                            assert forall|j: int| 0 <= j < new_locs.len() implies (#[trigger] new_locs[j]).0 != k by {
                                if j != i {
                                    assert(new_locs[j] == old_locs[j]);
                                }
                            }
                        }
                    }
                }
            }
            return true;
        }
        self.locations.insert(i, (id, location));
        proof {
            let new_locs = self.locations@;
            assert(location_ids(new_locs) =~= location_ids(old_locs).insert(i as int, id));
            assert(ids_sorted(location_ids(new_locs))) by {
                let ids = location_ids(new_locs);
                let old_ids = location_ids(old_locs);
                assert forall|a: int, b: int| 0 <= a < b < ids.len() implies (#[trigger] ids[a]).0 < (#[trigger] ids[b]).0 by {
                    if i < old_locs.len() {
                        assert(old_ids[i as int].0 > id.0);
                    }
                    if b < i {
                        assert(ids[a] == old_ids[a] && ids[b] == old_ids[b]);
                    } else if b == i {
                        assert(ids[a] == old_ids[a]);
                    } else if a < i {
                        assert(ids[a] == old_ids[a] && ids[b] == old_ids[b - 1]);
                        assert(old_ids[a].0 < id.0);
                        if a < b - 1 {
                            assert(old_ids[a].0 < old_ids[b - 1].0);
                        }
                    } else if a == i {
                        assert(ids[b] == old_ids[b - 1]);
                        if b - 1 > i {
                            assert(old_ids[i as int].0 < old_ids[b - 1].0);
                        }
                    } else {
                        assert(ids[a] == old_ids[a - 1] && ids[b] == old_ids[b - 1]);
                    }
                }
            }
            lemma_sorted_ids_distinct(new_locs);
            assert forall|k: LocationId| #[trigger] lookup(new_locs, k) == if k == id {
                Some(location)
            } else {
                lookup(old_locs, k)
            } by {
                lemma_lookup_at(new_locs, i as int);
                if k != id {
                    if exists|j: int| 0 <= j < old_locs.len() && (#[trigger] old_locs[j]).0 == k {
                        let j = choose|j: int| 0 <= j < old_locs.len() && (#[trigger] old_locs[j]).0 == k;
                        lemma_lookup_at(old_locs, j);
                        if j < i {
                            assert(new_locs[j] == old_locs[j]);
                            lemma_lookup_at(new_locs, j);
                        } else {
                            assert(new_locs[j + 1] == old_locs[j]);
                            lemma_lookup_at(new_locs, j + 1);
                        }
                    } else {
                        assert forall|j: int| 0 <= j < new_locs.len() implies (#[trigger] new_locs[j]).0 != k by {
                            if j < i {
                                assert(new_locs[j] == old_locs[j]);
                            } else if j > i {
                                assert(new_locs[j] == old_locs[j - 1]);
                            }
                        }
                    }
                }
            }
        }
        true
    }

    /// Every location, in id order.
    pub fn locations(&self) -> (v: &[(LocationId, Location<B>)])
        ensures
            v@ == self@.locations,
    {
        self.locations.as_slice()
    }

    /// How many locations exist.
    pub fn location_count(&self) -> (n: usize)
        ensures
            n == self@.locations.len(),
    {
        self.locations.len()
    }

    /// Locations inside a scope, in id order.
    pub fn locations_in(&self, scope: Handle<Node<B>>) -> (v: Vec<LocationId>)
        ensures
            v@ == ids_in(self@.locations, scope),
    {
        let mut v: Vec<LocationId> = Vec::new();
        let mut i: usize = 0;
        while i < self.locations.len()
            invariant
                i <= self@.locations.len(),
                v@ == ids_in(self@.locations.take(i as int), scope),
            decreases self@.locations.len() - i,
        {
            proof {
                assert(self@.locations.take(i + 1).drop_last() =~= self@.locations.take(i as int));
            }
            if self.locations[i].1.scope == scope {
                v.push(self.locations[i].0);
            }
            i += 1;
        }
        assert(self@.locations.take(i as int) =~= self@.locations);
        v
    }

    /// Edges gated on an unlock: the locks a key opens, in edge order.
    pub fn locks_for(&self, unlock: ObjectId) -> (v: Vec<&MissionEdge<B>>)
        ensures
            v@.map_values(|r: &MissionEdge<B>| *r) == self@.edges.filter(|e: MissionEdge<B>| mentions(e.rule, unlock)),
    {
        let mut v: Vec<&MissionEdge<B>> = Vec::new();
        let mut i: usize = 0;
        proof {
            reveal(Seq::filter);
            assert(self@.edges.take(0) =~= Seq::<MissionEdge<B>>::empty());
        }
        while i < self.edges.len()
            invariant
                i <= self@.edges.len(),
                v@.map_values(|r: &MissionEdge<B>| *r) == self@.edges.take(i as int).filter(|e: MissionEdge<B>| mentions(e.rule, unlock)),
            decreases self@.edges.len() - i,
        {
            proof {
                reveal(Seq::filter);
                assert(self@.edges.take(i + 1).drop_last() =~= self@.edges.take(i as int));
            }
            let e = &self.edges[i];
            let ids = e.rule.unlocks();
            let ghost before = v@;
            if holds_id(&ids, unlock) {
                v.push(e);
                assert(v@.map_values(|r: &MissionEdge<B>| *r) =~= before.map_values(|r: &MissionEdge<B>| *r).push(*e));
            }
            i += 1;
        }
        assert(self@.edges.take(i as int) =~= self@.edges);
        v
    }
}

/// Sorted ids are distinct.
proof fn lemma_sorted_ids_distinct<B>(locs: Seq<(LocationId, Location<B>)>)
    requires
        ids_sorted(location_ids(locs)),
    ensures
        keys_distinct(locs),
{
    assert forall|a: int, b: int| 0 <= a < b < locs.len() implies (#[trigger] locs[a]).0 != (#[trigger] locs[b]).0 by {
        assert(location_ids(locs)[a].0 < location_ids(locs)[b].0);
    }
}

/// Does `v` hold `x`?
pub(crate) fn holds_id(v: &Vec<ObjectId>, x: ObjectId) -> (b: bool)
    ensures
        b == v@.contains(x),
{
    let mut i: usize = 0;
    while i < v.len()
        invariant
            i <= v@.len(),
            forall|j: int| 0 <= j < i ==> v@[j] != x,
        decreases v@.len() - i,
    {
        if v[i].same(x) {
            assert(v@[i as int] == x);
            return true;
        }
        i += 1;
    }
    false
}

// ---------------------------------------------------------------------------------------------
// Accessibility
// ---------------------------------------------------------------------------------------------

/// Where crossing `e` from `x` leads: forwards always, backwards only if it is reversible.
pub open spec fn crossing<B>(e: MissionEdge<B>, x: Handle<Node<B>>) -> Option<Handle<Node<B>>> {
    if e.from == x {
        Some(e.to)
    } else if e.reversible && e.to == x {
        Some(e.from)
    } else {
        None
    }
}

/// One move from `x` to `y` along some edge, whose rule `held` must satisfy when `gated`.
pub open spec fn moves<B>(es: Seq<MissionEdge<B>>, held: Seq<ObjectId>, gated: bool, x: Handle<Node<B>>, y: Handle<Node<B>>) -> bool {
    exists|k: int|
        0 <= k < es.len() && crossing(#[trigger] es[k], x) == Some(y) && (!gated || satisfied(es[k].rule, held))
}

/// The `i`-th and next entries of `w` are one move apart.
pub open spec fn hop<B>(es: Seq<MissionEdge<B>>, held: Seq<ObjectId>, gated: bool, w: Seq<Handle<Node<B>>>, i: int) -> bool {
    moves(es, held, gated, w[i], w[i + 1])
}

/// `w` is a walk: each entry is one move from the next.
pub open spec fn is_walk<B>(es: Seq<MissionEdge<B>>, held: Seq<ObjectId>, gated: bool, w: Seq<Handle<Node<B>>>) -> bool {
    w.len() >= 1 && forall|i: int| 0 <= i < w.len() - 1 ==> #[trigger] hop(es, held, gated, w, i)
}

/// Some walk leads from `a` to `b`.
pub open spec fn reaches<B>(es: Seq<MissionEdge<B>>, held: Seq<ObjectId>, gated: bool, a: Handle<Node<B>>, b: Handle<Node<B>>) -> bool {
    exists|w: Seq<Handle<Node<B>>>| #[trigger] is_walk(es, held, gated, w) && w[0] == a && w.last() == b
}

/// Every scope an edge touches, and `origin`.
pub open spec fn universe<B>(es: Seq<MissionEdge<B>>, origin: Handle<Node<B>>) -> Seq<Handle<Node<B>>> {
    seq![origin] + es.map_values(|e: MissionEdge<B>| e.from) + es.map_values(|e: MissionEdge<B>| e.to)
}

proof fn lemma_walk_stays<B>(es: Seq<MissionEdge<B>>, held: Seq<ObjectId>, gated: bool, s: Seq<Handle<Node<B>>>, w: Seq<Handle<Node<B>>>)
    requires
        is_walk(es, held, gated, w),
        s.contains(w[0]),
        forall|x: Handle<Node<B>>, y: Handle<Node<B>>| s.contains(x) && #[trigger] moves(es, held, gated, x, y) ==> s.contains(y),
    ensures
        s.contains(w.last()),
    decreases w.len(),
{
    if w.len() > 1 {
        let v = w.drop_last();
        assert forall|i: int| 0 <= i < v.len() - 1 implies #[trigger] hop(es, held, gated, v, i) by {
            assert(hop(es, held, gated, w, i));
        }
        lemma_walk_stays(es, held, gated, s, v);
        assert(hop(es, held, gated, w, w.len() - 2));
    }
}

proof fn lemma_walk_extends<B>(es: Seq<MissionEdge<B>>, held: Seq<ObjectId>, gated: bool, a: Handle<Node<B>>, b: Handle<Node<B>>, c: Handle<Node<B>>)
    requires
        reaches(es, held, gated, a, b),
        moves(es, held, gated, b, c),
    ensures
        reaches(es, held, gated, a, c),
{
    let w = choose|w: Seq<Handle<Node<B>>>| #[trigger] is_walk(es, held, gated, w) && w[0] == a && w.last() == b;
    let v = w.push(c);
    assert forall|i: int| 0 <= i < v.len() - 1 implies #[trigger] hop(es, held, gated, v, i) by {
        if i < w.len() - 1 {
            assert(hop(es, held, gated, w, i));
        }
    }
    assert(is_walk(es, held, gated, v));
}

proof fn lemma_walk_here<B>(es: Seq<MissionEdge<B>>, held: Seq<ObjectId>, gated: bool, a: Handle<Node<B>>)
    ensures
        reaches(es, held, gated, a, a),
{
    assert(is_walk(es, held, gated, seq![a]));
}

/// A list of distinct values is no longer than any list holding all of them.
proof fn lemma_distinct_within<A>(v: Seq<A>, u: Seq<A>)
    requires
        v.no_duplicates(),
        forall|x: A| v.contains(x) ==> u.contains(x),
    ensures
        v.len() <= u.len(),
{
    v.unique_seq_to_set();
    u.lemma_cardinality_of_set();
    vstd::seq_lib::seq_to_set_is_finite(u);
    assert(v.to_set().subset_of(u.to_set()));
    vstd::set_lib::lemma_len_subset(v.to_set(), u.to_set());
}

proof fn lemma_sorted_distinct<B>(s: Seq<Handle<Node<B>>>)
    requires
        handles_sorted(s),
    ensures
        s.no_duplicates(),
{
    assert forall|i: int, j: int| 0 <= i < s.len() && 0 <= j < s.len() && i != j implies s[i] != s[j] by {
        if i < j {
            assert(handle_key(s[i]) < handle_key(s[j]));
        } else {
            assert(handle_key(s[j]) < handle_key(s[i]));
        }
    }
}

proof fn lemma_crossing_in_universe<B>(es: Seq<MissionEdge<B>>, origin: Handle<Node<B>>, k: int, x: Handle<Node<B>>)
    requires
        0 <= k < es.len(),
        crossing(es[k], x) is Some,
    ensures
        universe(es, origin).contains(crossing(es[k], x)->Some_0),
{
    let u = universe(es, origin);
    let n = es.len();
    if es[k].from == x {
        assert(u[1 + n + k] == es[k].to);
    } else {
        assert(u[1 + k] == es[k].from);
    }
}

impl<B> MissionGraph<B> {
    /// Where crossing edge `k` from `at` leads, when `held` opens it (or when gates are ignored).
    fn cross(&self, k: usize, at: Handle<Node<B>>, held: &[ObjectId], gated: bool) -> (r: Option<Handle<Node<B>>>)
        requires
            k < self@.edges.len(),
        ensures
            match r {
                Some(y) => crossing(self@.edges[k as int], at) == Some(y) && (!gated || satisfied(self@.edges[k as int].rule, held@)),
                None => crossing(self@.edges[k as int], at) is None || (gated && !satisfied(self@.edges[k as int].rule, held@)),
            },
    {
        let e = &self.edges[k];
        let next = if e.from == at {
            e.to
        } else if e.reversible && e.to == at {
            e.from
        } else {
            return None;
        };
        if gated && !e.rule.is_satisfied(held) {
            return None;
        }
        Some(next)
    }

    /// **Traverse**: one breadth-first traversal from `origin` with a fixed unlock set. Every
    /// scope a walk of passable edges reaches, `origin` included, in handle order.
    pub fn traverse_from(&self, origin: Handle<Node<B>>, held: &[ObjectId]) -> (seen: Vec<Handle<Node<B>>>)
        ensures
            handles_sorted(seen@),
            forall|x: Handle<Node<B>>| #[trigger] seen@.contains(x) <==> reaches(self@.edges, held@, true, origin, x),
    {
        self.reachable(origin, held, true)
    }

    /// The traversal from the world's start.
    pub fn traverse(&self, held: &[ObjectId]) -> (seen: Vec<Handle<Node<B>>>)
        ensures
            handles_sorted(seen@),
            forall|x: Handle<Node<B>>| #[trigger] seen@.contains(x) <==> reaches(self@.edges, held@, true, self@.start, x),
    {
        self.reachable(self.start, held, true)
    }

    /// Every scope reachable from `origin`, honouring gates or not.
    fn reachable(&self, origin: Handle<Node<B>>, held: &[ObjectId], gated: bool) -> (seen: Vec<Handle<Node<B>>>)
        ensures
            handles_sorted(seen@),
            forall|x: Handle<Node<B>>| #[trigger] seen@.contains(x) <==> reaches(self@.edges, held@, gated, origin, x),
    {
        let ghost es = self@.edges;
        let ghost u = universe(es, origin);
        let mut seen: Vec<Handle<Node<B>>> = Vec::new();
        let mut queue: Vec<Handle<Node<B>>> = Vec::new();
        queue.push(origin);
        proof {
            lemma_walk_here(es, held@, gated, origin);
            assert(queue@[0] == origin);
            assert(u[0] == origin);
        }
        while queue.len() > 0
            invariant
                es == self@.edges,
                u == universe(es, origin),
                handles_sorted(seen@),
                seen@.len() <= u.len(),
                forall|x: Handle<Node<B>>| #[trigger] seen@.contains(x) ==> u.contains(x),
                forall|x: Handle<Node<B>>| #[trigger] queue@.contains(x) ==> u.contains(x),
                forall|x: Handle<Node<B>>| #[trigger] seen@.contains(x) ==> reaches(es, held@, gated, origin, x),
                forall|x: Handle<Node<B>>| #[trigger] queue@.contains(x) ==> reaches(es, held@, gated, origin, x),
                seen@.contains(origin) || queue@.contains(origin),
                forall|x: Handle<Node<B>>, y: Handle<Node<B>>|
                    seen@.contains(x) && #[trigger] moves(es, held@, gated, x, y) ==> seen@.contains(y) || queue@.contains(y),
            decreases u.len() - seen@.len(), queue@.len(),
        {
            let ghost q0 = queue@;
            let at = queue.pop().unwrap();
            proof {
                assert(queue@ =~= q0.drop_last());
                assert(q0.last() == at);
                assert(q0.contains(at));
                assert forall|x: Handle<Node<B>>| #[trigger] q0.contains(x) implies queue@.contains(x) || x == at by {
                    let w = choose|w: int| 0 <= w < q0.len() && q0[w] == x;
                    if w < q0.len() - 1 {
                        assert(queue@[w] == x);
                    }
                }
                assert forall|x: Handle<Node<B>>| #[trigger] queue@.contains(x) implies q0.contains(x) by {
                    let w = choose|w: int| 0 <= w < queue@.len() && queue@[w] == x;
                    assert(q0[w] == x);
                }
            }
            if holds_handle(&seen, at) {
                continue;
            }
            let ghost s0 = seen@;
            insert_handle(&mut seen, at);
            proof {
                lemma_sorted_distinct(seen@);
                lemma_distinct_within(seen@, u);
            }
            let mut k: usize = 0;
            while k < self.edges.len()
                invariant
                    es == self@.edges,
                    u == universe(es, origin),
                    k <= es.len(),
                    handles_sorted(seen@),
                    seen@.len() <= u.len(),
                    seen@.contains(at),
                    forall|x: Handle<Node<B>>| #[trigger] seen@.contains(x) ==> u.contains(x),
                    forall|x: Handle<Node<B>>| #[trigger] queue@.contains(x) ==> u.contains(x),
                    forall|x: Handle<Node<B>>| #[trigger] seen@.contains(x) ==> reaches(es, held@, gated, origin, x),
                    forall|x: Handle<Node<B>>| #[trigger] queue@.contains(x) ==> reaches(es, held@, gated, origin, x),
                    seen@.contains(origin) || queue@.contains(origin),
                    forall|x: Handle<Node<B>>, y: Handle<Node<B>>|
                        seen@.contains(x) && x != at && #[trigger] moves(es, held@, gated, x, y) ==> seen@.contains(y) || queue@.contains(y),
                    forall|j: int|
                        0 <= j < k && #[trigger] crossing(es[j], at) is Some && (!gated || satisfied(es[j].rule, held@)) ==> seen@.contains(crossing(es[j], at)->Some_0)
                            || queue@.contains(crossing(es[j], at)->Some_0),
                decreases es.len() - k,
            {
                match self.cross(k, at, held, gated) {
                    Some(y) => {
                        let ghost qb = queue@;
                        queue.push(y);
                        proof {
                            lemma_crossing_in_universe(es, origin, k as int, at);
                            assert(moves(es, held@, gated, at, y));
                            lemma_walk_extends(es, held@, gated, origin, at, y);
                            assert(queue@[qb.len() as int] == y);
                            assert forall|x: Handle<Node<B>>| #[trigger] qb.contains(x) implies queue@.contains(x) by {
                                let w = choose|w: int| 0 <= w < qb.len() && qb[w] == x;
                                assert(queue@[w] == x);
                            }
                            assert forall|x: Handle<Node<B>>| #[trigger] queue@.contains(x) implies qb.contains(x) || x == y by {
                                let w = choose|w: int| 0 <= w < queue@.len() && queue@[w] == x;
                                if w < qb.len() {
                                    assert(qb[w] == x);
                                }
                            }
                        }
                    },
                    None => {},
                }
                k += 1;
            }
            proof {
                assert forall|x: Handle<Node<B>>, y: Handle<Node<B>>|
                    seen@.contains(x) && #[trigger] moves(es, held@, gated, x, y) implies seen@.contains(y) || queue@.contains(y) by {
                    if x == at {
                        let j = choose|j: int| 0 <= j < es.len() && crossing(#[trigger] es[j], x) == Some(y) && (!gated || satisfied(es[j].rule, held@));
                    }
                }
            }
        }
        proof {
            assert forall|x: Handle<Node<B>>| reaches(es, held@, gated, origin, x) implies #[trigger] seen@.contains(x) by {
                let w = choose|w: Seq<Handle<Node<B>>>| #[trigger] is_walk(es, held@, gated, w) && w[0] == origin && w.last() == x;
                lemma_walk_stays(es, held@, gated, seen@, w);
            }
        }
        seen
    }
}

/// Is `y` first reached in exactly `k` hops from `origin`, gates ignored?
pub open spec fn in_ring<B>(es: Seq<MissionEdge<B>>, origin: Handle<Node<B>>, k: nat, y: Handle<Node<B>>) -> bool
    decreases k, 0nat,
{
    if k == 0 {
        y == origin
    } else {
        &&& !in_within(es, origin, (k - 1) as nat, y)
        &&& exists|x: Handle<Node<B>>| in_ring(es, origin, (k - 1) as nat, x) && #[trigger] moves(es, Seq::empty(), false, x, y)
    }
}

/// Is `y` reached within `k` hops from `origin`, gates ignored?
pub open spec fn in_within<B>(es: Seq<MissionEdge<B>>, origin: Handle<Node<B>>, k: nat, y: Handle<Node<B>>) -> bool
    decreases k, 1nat,
{
    if k == 0 {
        y == origin
    } else {
        in_within(es, origin, (k - 1) as nat, y) || in_ring(es, origin, k, y)
    }
}

/// The distance recorded for `y`, if any.
pub open spec fn distance_of<B>(d: Seq<(Handle<Node<B>>, u32)>, y: Handle<Node<B>>) -> Option<u32> {
    lookup(d, y)
}

/// The keys of a distance table, in order.
pub open spec fn table_keys<B>(d: Seq<(Handle<Node<B>>, u32)>) -> Seq<Handle<Node<B>>> {
    d.map_values(|e: (Handle<Node<B>>, u32)| e.0)
}

proof fn lemma_within_has_ring<B>(es: Seq<MissionEdge<B>>, origin: Handle<Node<B>>, k: nat, y: Handle<Node<B>>)
    requires
        in_within(es, origin, k, y),
    ensures
        exists|j: nat| j <= k && #[trigger] in_ring(es, origin, j, y),
    decreases k,
{
    if k == 0 {
        assert(in_ring(es, origin, 0, y));
    } else if in_within(es, origin, (k - 1) as nat, y) {
        lemma_within_has_ring(es, origin, (k - 1) as nat, y);
    } else {
        assert(in_ring(es, origin, k, y));
    }
}

pub(crate) proof fn lemma_within_grows<B>(es: Seq<MissionEdge<B>>, origin: Handle<Node<B>>, j: nat, k: nat, y: Handle<Node<B>>)
    requires
        j <= k,
        in_within(es, origin, j, y) || in_ring(es, origin, j, y),
    ensures
        in_within(es, origin, k, y),
    decreases k,
{
    if j == 0 && k == 0 {
    } else if j == k {
    } else {
        lemma_within_grows(es, origin, j, (k - 1) as nat, y);
    }
}

/// Once a ring is empty, everything reachable is within that many hops.
proof fn lemma_rings_cover<B>(es: Seq<MissionEdge<B>>, origin: Handle<Node<B>>, d: nat, w: Seq<Handle<Node<B>>>)
    requires
        forall|y: Handle<Node<B>>| !#[trigger] in_ring(es, origin, d + 1, y),
        is_walk(es, Seq::empty(), false, w),
        w[0] == origin,
    ensures
        in_within(es, origin, d, w.last()),
    decreases w.len(),
{
    if w.len() == 1 {
        lemma_within_grows(es, origin, 0, d, origin);
    } else {
        let v = w.drop_last();
        assert forall|i: int| 0 <= i < v.len() - 1 implies #[trigger] hop(es, Seq::empty(), false, v, i) by {
            assert(hop(es, Seq::empty(), false, w, i));
        }
        lemma_rings_cover(es, origin, d, v);
        let x = v.last();
        let y = w.last();
        assert(hop(es, Seq::empty(), false, w, w.len() - 2));
        assert(moves(es, Seq::empty(), false, x, y));
        lemma_within_has_ring(es, origin, d, x);
        let j = choose|j: nat| j <= d && #[trigger] in_ring(es, origin, j, x);
        if in_within(es, origin, j, y) {
            lemma_within_grows(es, origin, j, d, y);
        } else {
            assert(in_ring(es, origin, j + 1, y));
            if j + 1 <= d {
                lemma_within_grows(es, origin, j + 1, d, y);
            } else {
                assert(j == d);
            }
        }
    }
}

/// Whatever is within some number of hops is reachable.
pub(crate) proof fn lemma_ring_reached<B>(es: Seq<MissionEdge<B>>, origin: Handle<Node<B>>, k: nat, y: Handle<Node<B>>)
    requires
        in_ring(es, origin, k, y) || in_within(es, origin, k, y),
    ensures
        reaches(es, Seq::empty(), false, origin, y),
    decreases k, if in_ring(es, origin, k, y) { 0nat } else { 1nat },
{
    if k == 0 {
        lemma_walk_here(es, Seq::empty(), false, origin);
    } else if in_ring(es, origin, k, y) {
        let x = choose|x: Handle<Node<B>>| in_ring(es, origin, (k - 1) as nat, x) && #[trigger] moves(es, Seq::empty(), false, x, y);
        lemma_ring_reached(es, origin, (k - 1) as nat, x);
        lemma_walk_extends(es, Seq::empty(), false, origin, x, y);
    } else if in_within(es, origin, (k - 1) as nat, y) {
        lemma_ring_reached(es, origin, (k - 1) as nat, y);
    } else {
        lemma_ring_reached(es, origin, k, y);
    }
}

/// Insert an entry for a new key into a table sorted by handle.
pub(crate) fn insert_entry<B>(table: &mut Vec<(Handle<Node<B>>, u32)>, h: Handle<Node<B>>, v: u32)
    requires
        handles_sorted(table_keys(old(table)@)),
        !table_keys(old(table)@).contains(h),
    ensures
        handles_sorted(table_keys(final(table)@)),
        final(table)@.len() == old(table)@.len() + 1,
        forall|x: Handle<Node<B>>| #[trigger] table_keys(final(table)@).contains(x) <==> (table_keys(old(table)@).contains(x) || x == h),
        forall|i: int| 0 <= i < final(table)@.len() ==> (old(table)@.contains(#[trigger] final(table)@[i]) || final(table)@[i] == (h, v)),
{
    let ghost keys0 = table_keys(table@);
    let mut i: usize = 0;
    while i < table.len() && handle_before(table[i].0, h)
        invariant
            i <= table@.len(),
            table@ == old(table)@,
            keys0 == table_keys(table@),
            handles_sorted(keys0),
            forall|j: int| 0 <= j < i ==> handle_key(keys0[j]) < handle_key(h),
        decreases table@.len() - i,
    {
        assert(keys0[i as int] == table@[i as int].0);
        i += 1;
    }
    proof {
        if i < table@.len() {
            assert(keys0[i as int] == table@[i as int].0);
            lemma_key_determines(keys0[i as int], h);
            assert(keys0[i as int] != h) by {
                assert(keys0.contains(keys0[i as int]));
            }
        }
    }
    table.insert(i, (h, v));
    proof {
        let keys1 = table_keys(table@);
        assert(keys1 =~= keys0.insert(i as int, h));
        assert(handles_sorted(keys1)) by {
            assert forall|a: int, b: int| 0 <= a < b < keys1.len() implies handle_key(#[trigger] keys1[a]) < handle_key(#[trigger] keys1[b]) by {
                if b < i {
                    assert(keys1[a] == keys0[a] && keys1[b] == keys0[b]);
                } else if b == i {
                    assert(keys1[a] == keys0[a]);
                } else if a < i {
                    assert(keys1[a] == keys0[a] && keys1[b] == keys0[b - 1]);
                    if i < keys0.len() {
                        assert(handle_key(keys0[i as int]) >= handle_key(h));
                        if b - 1 > i {
                            assert(handle_key(keys0[i as int]) < handle_key(keys0[b - 1]));
                        }
                    }
                } else if a == i {
                    assert(keys1[b] == keys0[b - 1]);
                    assert(handle_key(keys0[i as int]) >= handle_key(h));
                    if b - 1 > i {
                        assert(handle_key(keys0[i as int]) < handle_key(keys0[b - 1]));
                    }
                    lemma_key_determines(keys0[i as int], h);
                } else {
                    assert(keys1[a] == keys0[a - 1] && keys1[b] == keys0[b - 1]);
                }
            }
        }
        assert forall|x: Handle<Node<B>>| #[trigger] keys1.contains(x) <==> (keys0.contains(x) || x == h) by {
            if keys0.contains(x) {
                let k = choose|k: int| 0 <= k < keys0.len() && keys0[k] == x;
                if k < i {
                    assert(keys1[k] == x);
                } else {
                    assert(keys1[k + 1] == x);
                }
            }
            if x == h {
                assert(keys1[i as int] == x);
            }
            if keys1.contains(x) {
                let k = choose|k: int| 0 <= k < keys1.len() && keys1[k] == x;
                if k < i {
                    assert(keys0[k] == x);
                } else if k > i {
                    assert(keys0[k - 1] == x);
                }
            }
        }
        assert forall|j: int| 0 <= j < table@.len() implies (old(table)@.contains(#[trigger] table@[j]) || table@[j] == (h, v)) by {
            if j < i {
                assert(old(table)@[j] == table@[j]);
            } else if j > i {
                assert(old(table)@[j - 1] == table@[j]);
            }
        }
    }
}

/// Does the table have an entry for `h`?
pub(crate) fn in_table<B>(table: &Vec<(Handle<Node<B>>, u32)>, h: Handle<Node<B>>) -> (b: bool)
    ensures
        b == table_keys(table@).contains(h),
{
    let mut i: usize = 0;
    while i < table.len()
        invariant
            i <= table@.len(),
            forall|j: int| 0 <= j < i ==> table@[j].0 != h,
        decreases table@.len() - i,
    {
        if table[i].0 == h {
            assert(table_keys(table@)[i as int] == h);
            return true;
        }
        i += 1;
    }
    proof {
        if table_keys(table@).contains(h) {
            let k = choose|k: int| 0 <= k < table@.len() && table_keys(table@)[k] == h;
            assert(table@[k].0 == h);
        }
    }
    false
}

impl<B> MissionGraph<B> {
    /// Hop distance from `origin` to every scope it connects to, ignoring gating, in handle order.
    ///
    /// Ignoring gates is deliberate: this measures spatial separation. Each distance is the ring
    /// of the breadth-first search the scope first appears in.
    #[verifier::loop_isolation(false)]
    pub fn distances_from(&self, origin: Handle<Node<B>>) -> (d: Vec<(Handle<Node<B>>, u32)>)
        requires
            self@.edges.len() < 0x8000_0000,
        ensures
            handles_sorted(table_keys(d@)),
            forall|y: Handle<Node<B>>| #[trigger] table_keys(d@).contains(y) <==> reaches(self@.edges, Seq::empty(), false, origin, y),
            forall|i: int| 0 <= i < d@.len() ==> #[trigger] in_ring(self@.edges, origin, d@[i].1 as nat, d@[i].0),
    {
        let ghost es = self@.edges;
        let ghost u = universe(es, origin);
        let mut table: Vec<(Handle<Node<B>>, u32)> = Vec::new();
        table.push((origin, 0));
        let mut ring: Vec<Handle<Node<B>>> = Vec::new();
        ring.push(origin);
        let mut d: u32 = 0;
        let none: [ObjectId; 0] = [];
        proof {
            assert(u[0] == origin);
            assert(table_keys(table@)[0] == origin);
            assert(ring@[0] == origin);
            assert forall|y: Handle<Node<B>>| #[trigger] table_keys(table@).contains(y) <==> in_within(es, origin, 0, y) by {
                if table_keys(table@).contains(y) {
                    let k = choose|k: int| 0 <= k < table_keys(table@).len() && table_keys(table@)[k] == y;
                }
            }
            assert forall|y: Handle<Node<B>>| #[trigger] ring@.contains(y) <==> in_ring(es, origin, 0, y) by {
                if ring@.contains(y) {
                    let k = choose|k: int| 0 <= k < ring@.len() && ring@[k] == y;
                }
            }
        }
        while ring.len() > 0
            invariant
                es == self@.edges,
                u == universe(es, origin),
                es.len() < 0x8000_0000,
                handles_sorted(table_keys(table@)),
                table@.len() <= u.len(),
                d <= table@.len(),
                ring@.len() > 0 ==> d < table@.len(),
                forall|y: Handle<Node<B>>| #[trigger] table_keys(table@).contains(y) <==> in_within(es, origin, d as nat, y),
                forall|y: Handle<Node<B>>| #[trigger] table_keys(table@).contains(y) ==> u.contains(y),
                forall|i: int| 0 <= i < table@.len() ==> #[trigger] in_ring(es, origin, table@[i].1 as nat, table@[i].0),
                forall|y: Handle<Node<B>>| #[trigger] ring@.contains(y) <==> in_ring(es, origin, d as nat, y),
            decreases u.len() - table@.len(), ring@.len(),
        {
            let mut next: Vec<Handle<Node<B>>> = Vec::new();
            let mut i: usize = 0;
            while i < ring.len()
                invariant
                    i <= ring@.len(),
                    handles_sorted(next@),
                    forall|y: Handle<Node<B>>| #[trigger] next@.contains(y) <==> (!in_within(es, origin, d as nat, y) && exists|j: int| 0 <= j < i && #[trigger] moves(es, Seq::empty(), false, ring@[j], y)),
                decreases ring@.len() - i,
            {
                let x = ring[i];
                let mut k: usize = 0;
                while k < self.edges.len()
                    invariant
                        k <= es.len(),
                        x == ring@[i as int],
                        handles_sorted(next@),
                        forall|y: Handle<Node<B>>| #[trigger] next@.contains(y) <==> (!in_within(es, origin, d as nat, y) && (
                            (exists|j: int| 0 <= j < i && #[trigger] moves(es, Seq::empty(), false, ring@[j], y))
                            || exists|kk: int| 0 <= kk < k && crossing(#[trigger] es[kk], x) == Some(y))),
                    decreases es.len() - k,
                {
                    match self.cross(k, x, &none, false) {
                        Some(y) => {
                            if !in_table(&table, y) {
                                insert_handle(&mut next, y);
                            }
                        },
                        None => {},
                    }
                    k += 1;
                }
                proof {
                    assert forall|y: Handle<Node<B>>| #[trigger] next@.contains(y) <==> (!in_within(es, origin, d as nat, y) && exists|j: int| 0 <= j < i + 1 && #[trigger] moves(es, Seq::empty(), false, ring@[j], y)) by {
                        if next@.contains(y) && !(exists|j: int| 0 <= j < i && #[trigger] moves(es, Seq::empty(), false, ring@[j], y)) {
                            let kk = choose|kk: int| 0 <= kk < es.len() && crossing(#[trigger] es[kk], x) == Some(y);
                            assert(moves(es, Seq::empty(), false, ring@[i as int], y));
                        }
                        if exists|j: int| 0 <= j < i + 1 && #[trigger] moves(es, Seq::empty(), false, ring@[j], y) {
                            let j = choose|j: int| 0 <= j < i + 1 && #[trigger] moves(es, Seq::empty(), false, ring@[j], y);
                            if j == i {
                                let kk = choose|kk: int| 0 <= kk < es.len() && crossing(#[trigger] es[kk], ring@[j]) == Some(y) && (!false || satisfied(es[kk].rule, Seq::empty()));
                            }
                        }
                    }
                }
                i += 1;
            }
            proof {
                assert forall|y: Handle<Node<B>>| #[trigger] next@.contains(y) <==> in_ring(es, origin, (d + 1) as nat, y) by {
                    if next@.contains(y) {
                        let j = choose|j: int| 0 <= j < ring@.len() && #[trigger] moves(es, Seq::empty(), false, ring@[j], y);
                        assert(ring@.contains(ring@[j]));
                    }
                    if in_ring(es, origin, (d + 1) as nat, y) {
                        let x = choose|x: Handle<Node<B>>| in_ring(es, origin, d as nat, x) && #[trigger] moves(es, Seq::empty(), false, x, y);
                        assert(ring@.contains(x));
                        let j = choose|j: int| 0 <= j < ring@.len() && ring@[j] == x;
                        assert(moves(es, Seq::empty(), false, ring@[j], y));
                    }
                }
                assert forall|y: Handle<Node<B>>| #[trigger] next@.contains(y) implies u.contains(y) by {
                    let j = choose|j: int| 0 <= j < ring@.len() && #[trigger] moves(es, Seq::empty(), false, ring@[j], y);
                    let kk = choose|kk: int| 0 <= kk < es.len() && crossing(#[trigger] es[kk], ring@[j]) == Some(y) && (!false || satisfied(es[kk].rule, Seq::empty()));
                    lemma_crossing_in_universe(es, origin, kk, ring@[j]);
                }
            }
            let ghost t0 = table@;
            let mut m: usize = 0;
            while m < next.len()
                invariant
                    m <= next@.len(),
                    handles_sorted(table_keys(table@)),
                    table@.len() == t0.len() + m,
                    forall|y: Handle<Node<B>>| #[trigger] table_keys(table@).contains(y) <==> (table_keys(t0).contains(y) || next@.take(m as int).contains(y)),
                    forall|q: int| 0 <= q < table@.len() ==> (t0.contains(#[trigger] table@[q]) || (next@.take(m as int).contains(table@[q].0) && table@[q].1 == d + 1)),
                    forall|z: Handle<Node<B>>| #[trigger] table_keys(t0).contains(z) <==> in_within(es, origin, d as nat, z),
                    forall|z: Handle<Node<B>>| #[trigger] next@.contains(z) <==> in_ring(es, origin, (d + 1) as nat, z),
                decreases next@.len() - m,
            {
                let y = next[m];
                proof {
                    assert(next@.contains(y));
                    assert(in_ring(es, origin, (d + 1) as nat, y));
                    assert(!table_keys(t0).contains(y));
                    lemma_sorted_distinct(next@);
                    let tm = next@.take(m as int);
                    if table_keys(table@).contains(y) {
                        if tm.contains(y) {
                            let w = choose|w: int| 0 <= w < tm.len() && tm[w] == y;
                            assert(next@[w] == next@[m as int]);
                        }
                    }
                    assert(next@.take(m + 1) =~= next@.take(m as int).push(y));
                }
                insert_entry(&mut table, y, d + 1);
                proof {
                    let t1 = next@.take(m + 1);
                    let tm = next@.take(m as int);
                    assert forall|q: int| 0 <= q < table@.len() implies (t0.contains(#[trigger] table@[q]) || (t1.contains(table@[q].0) && table@[q].1 == d + 1)) by {
                        if table@[q] == (y, (d + 1) as u32) {
                            assert(t1[m as int] == y);
                        } else {
                            let e = table@[q];
                        }
                    }
                    assert forall|z: Handle<Node<B>>| #[trigger] tm.contains(z) implies t1.contains(z) by {
                        let w = choose|w: int| 0 <= w < tm.len() && tm[w] == z;
                        assert(t1[w] == z);
                    }
                    assert forall|z: Handle<Node<B>>| #[trigger] t1.contains(z) implies (tm.contains(z) || z == y) by {
                        let w = choose|w: int| 0 <= w < t1.len() && t1[w] == z;
                        if w < m {
                            assert(tm[w] == z);
                        }
                    }
                    assert(t1[m as int] == y);
                }
                m += 1;
            }
            proof {
                assert(next@.take(next@.len() as int) =~= next@);
                assert forall|y: Handle<Node<B>>| #[trigger] table_keys(table@).contains(y) <==> in_within(es, origin, (d + 1) as nat, y) by {}
                assert forall|q: int| 0 <= q < table@.len() implies #[trigger] in_ring(es, origin, table@[q].1 as nat, table@[q].0) by {
                    if !t0.contains(table@[q]) {
                        assert(in_ring(es, origin, (d + 1) as nat, table@[q].0));
                    } else {
                        let w = choose|w: int| 0 <= w < t0.len() && t0[w] == table@[q];
                        assert(in_ring(es, origin, t0[w].1 as nat, t0[w].0));
                    }
                }
                assert forall|y: Handle<Node<B>>| #[trigger] table_keys(table@).contains(y) implies u.contains(y) by {}
                let tk = table_keys(table@);
                lemma_sorted_distinct(tk);
                lemma_distinct_within(tk, u);
                if next@.len() > 0 {
                    assert(table@.len() > t0.len());
                }
            }
            ring = next;
            d = d + 1;
        }
        proof {
            assert forall|y: Handle<Node<B>>| !#[trigger] in_ring(es, origin, (d + 1) as nat, y) by {
                if in_ring(es, origin, (d + 1) as nat, y) {
                    let x = choose|x: Handle<Node<B>>| in_ring(es, origin, d as nat, x) && #[trigger] moves(es, Seq::empty(), false, x, y);
                    assert(ring@.contains(x));
                }
            }
            assert forall|y: Handle<Node<B>>| #[trigger] table_keys(table@).contains(y) <==> reaches(es, Seq::empty(), false, origin, y) by {
                if reaches(es, Seq::empty(), false, origin, y) {
                    let w = choose|w: Seq<Handle<Node<B>>>| #[trigger] is_walk(es, Seq::empty(), false, w) && w[0] == origin && w.last() == y;
                    lemma_rings_cover(es, origin, d as nat, w);
                }
                if table_keys(table@).contains(y) {
                    lemma_ring_reached(es, origin, d as nat, y);
                }
            }
        }
        table
    }
}

// ---------------------------------------------------------------------------------------------
// Spheres
// ---------------------------------------------------------------------------------------------

/// Strictly increasing by `key`.
pub open spec fn sorted_by<A>(s: Seq<A>, key: spec_fn(A) -> int) -> bool {
    forall|i: int, j: int| 0 <= i < j < s.len() ==> key(#[trigger] s[i]) < key(#[trigger] s[j])
}

/// The members of `p`, listed in increasing `key` order.
pub open spec fn sorted_set<A>(p: spec_fn(A) -> bool, key: spec_fn(A) -> int) -> Seq<A> {
    choose|v: Seq<A>| sorted_by(v, key) && forall|x: A| #[trigger] v.contains(x) <==> p(x)
}

/// The sort key of a handle.
pub open spec fn by_handle<B>() -> spec_fn(Handle<Node<B>>) -> int {
    |h: Handle<Node<B>>| handle_key(h)
}

/// The sort key of an id.
pub open spec fn by_raw() -> spec_fn(ObjectId) -> int {
    |c: ObjectId| c.raw() as int
}

/// The sort key of a location id.
pub open spec fn by_location() -> spec_fn(LocationId) -> int {
    |l: LocationId| l.0 as int
}

/// Two lists sorted by the same injective key, holding the same values, are the same list.
proof fn lemma_sorted_unique<A>(a: Seq<A>, b: Seq<A>, key: spec_fn(A) -> int)
    requires
        sorted_by(a, key),
        sorted_by(b, key),
        forall|x: A| a.contains(x) <==> b.contains(x),
        forall|x: A, y: A| #[trigger] key(x) == #[trigger] key(y) ==> x == y,
    ensures
        a == b,
    decreases a.len(),
{
    if a.len() == 0 {
        if b.len() > 0 {
            assert(b.contains(b[0]));
        }
        assert(a =~= b);
    } else {
        assert(a.contains(a[0]));
        assert(b.len() > 0);
        assert(b.contains(b[0]));
        let i = choose|i: int| 0 <= i < a.len() && a[i] == b[0];
        let j = choose|j: int| 0 <= j < b.len() && b[j] == a[0];
        if i > 0 {
            assert(key(a[0]) < key(a[i]));
        }
        if j > 0 {
            assert(key(b[0]) < key(b[j]));
        }
        assert(a[0] == b[0]);
        let ta = a.drop_first();
        let tb = b.drop_first();
        assert forall|x: A| ta.contains(x) <==> tb.contains(x) by {
            if ta.contains(x) {
                let k = choose|k: int| 0 <= k < ta.len() && ta[k] == x;
                assert(a[k + 1] == x);
                assert(key(a[0]) < key(a[k + 1]));
                assert(b.contains(x));
                let l = choose|l: int| 0 <= l < b.len() && b[l] == x;
                if l == 0 {
                    assert(false);
                }
                assert(tb[l - 1] == x);
            }
            if tb.contains(x) {
                let k = choose|k: int| 0 <= k < tb.len() && tb[k] == x;
                assert(b[k + 1] == x);
                assert(key(b[0]) < key(b[k + 1]));
                assert(a.contains(x));
                let l = choose|l: int| 0 <= l < a.len() && a[l] == x;
                if l == 0 {
                    assert(false);
                }
                assert(ta[l - 1] == x);
            }
        }
        assert(sorted_by(ta, key)) by {
            assert forall|p: int, q: int| 0 <= p < q < ta.len() implies key(#[trigger] ta[p]) < key(#[trigger] ta[q]) by {
                assert(ta[p] == a[p + 1] && ta[q] == a[q + 1]);
            }
        }
        assert(sorted_by(tb, key)) by {
            assert forall|p: int, q: int| 0 <= p < q < tb.len() implies key(#[trigger] tb[p]) < key(#[trigger] tb[q]) by {
                assert(tb[p] == b[p + 1] && tb[q] == b[q + 1]);
            }
        }
        lemma_sorted_unique(ta, tb, key);
        assert(a =~= seq![a[0]] + ta);
        assert(b =~= seq![b[0]] + tb);
    }
}

/// A list sorted by key with exactly the members of `p` is the sorted set of `p`.
pub(crate) proof fn lemma_is_sorted_set<A>(v: Seq<A>, p: spec_fn(A) -> bool, key: spec_fn(A) -> int)
    requires
        sorted_by(v, key),
        forall|x: A| #[trigger] v.contains(x) <==> p(x),
        forall|x: A, y: A| #[trigger] key(x) == #[trigger] key(y) ==> x == y,
    ensures
        sorted_set(p, key) == v,
{
    let w = sorted_set(p, key);
    assert(sorted_by(w, key) && forall|x: A| #[trigger] w.contains(x) <==> p(x));
    lemma_sorted_unique(w, v, key);
}

proof fn lemma_handle_key_injective<B>()
    ensures
        forall|x: Handle<Node<B>>, y: Handle<Node<B>>| #[trigger] by_handle::<B>()(x) == #[trigger] by_handle::<B>()(y) ==> x == y,
{
    assert forall|x: Handle<Node<B>>, y: Handle<Node<B>>| #[trigger] by_handle::<B>()(x) == #[trigger] by_handle::<B>()(y) implies x == y by {
        lemma_key_determines(x, y);
    }
}

/// One round of progression as plain values.
pub struct SphereView<B> {
    /// How deep this sphere is; sphere 0 needs nothing.
    pub index: u32,
    /// Scopes that became accessible in this round, in handle order.
    pub scopes: Seq<Handle<Node<B>>>,
    /// Locations that became available in this round.
    pub locations: Seq<LocationId>,
    /// Unlocks obtained from those locations, in id order.
    pub granted: Seq<ObjectId>,
}

/// Where a sweep stands between rounds.
pub struct SweepState<B> {
    /// What is held.
    pub held: Seq<ObjectId>,
    /// What is accessible.
    pub scopes: Seq<Handle<Node<B>>>,
    /// What locations are available.
    pub locations: Seq<LocationId>,
    /// The rounds so far.
    pub spheres: Seq<SphereView<B>>,
}

/// What a sweep starts from and consults: the graph, the origin, what sits where, and what each
/// item grants.
pub struct SweepInput<B> {
    /// The mission graph.
    pub graph: MissionView<B>,
    /// Where the player starts.
    pub origin: Handle<Node<B>>,
    /// The item at each location.
    pub placements: Seq<(LocationId, ObjectId)>,
    /// The unlocks each item grants.
    pub grants: Seq<(ObjectId, Seq<ObjectId>)>,
}

/// The value recorded for `key` by the first entry that has it.
pub open spec fn first_value<K, V>(entries: Seq<(K, V)>, key: K) -> Option<V>
    decreases entries.len(),
{
    if entries.len() == 0 {
        None
    } else if entries[0].0 == key {
        Some(entries[0].1)
    } else {
        first_value(entries.drop_first(), key)
    }
}

/// What finding location `l` yields: the unlocks its item grants.
pub open spec fn yield_of<B>(inp: SweepInput<B>, l: LocationId) -> Seq<ObjectId> {
    yield_in(inp.placements, inp.grants, l)
}

/// The ids of the locations in the scopes `ss`, scope by scope.
pub open spec fn ids_in_all<B>(locations: Seq<(LocationId, Location<B>)>, ss: Seq<Handle<Node<B>>>) -> Seq<LocationId>
    decreases ss.len(),
{
    if ss.len() == 0 {
        Seq::empty()
    } else {
        ids_in_all(locations, ss.drop_last()) + ids_in(locations, ss.last())
    }
}

/// The scopes this round opens: reachable with what is held, and not accessible before.
pub open spec fn round_scopes<B>(inp: SweepInput<B>, st: SweepState<B>) -> Seq<Handle<Node<B>>> {
    sorted_set(|x: Handle<Node<B>>| reaches(inp.graph.edges, st.held, true, inp.origin, x) && !st.scopes.contains(x), by_handle())
}

/// The locations this round makes available, scope by scope.
pub open spec fn round_locations<B>(inp: SweepInput<B>, st: SweepState<B>) -> Seq<LocationId> {
    ids_in_all(inp.graph.locations, round_scopes(inp, st)).filter(not_listed(st.locations))
}

/// Not among `locs`.
pub open spec fn not_listed(locs: Seq<LocationId>) -> spec_fn(LocationId) -> bool {
    |l: LocationId| !locs.contains(l)
}

/// The unlocks this round yields that were not already held, in id order.
pub open spec fn round_granted<B>(inp: SweepInput<B>, st: SweepState<B>) -> Seq<ObjectId> {
    sorted_set(
        |c: ObjectId| !st.held.contains(c) && exists|l: LocationId| #[trigger] round_locations(inp, st).contains(l) && yield_of(inp, l).contains(c),
        by_raw(),
    )
}

/// Did this round find anything?
pub open spec fn progressed<B>(inp: SweepInput<B>, st: SweepState<B>) -> bool {
    round_scopes(inp, st).len() > 0 || round_granted(inp, st).len() > 0
}

/// The state after this round.
pub open spec fn after_round<B>(inp: SweepInput<B>, st: SweepState<B>) -> SweepState<B> {
    let ns = round_scopes(inp, st);
    let nl = round_locations(inp, st);
    let ng = round_granted(inp, st);
    SweepState {
        held: sorted_set(|c: ObjectId| st.held.contains(c) || ng.contains(c), by_raw()),
        scopes: sorted_set(|x: Handle<Node<B>>| st.scopes.contains(x) || ns.contains(x), by_handle()),
        locations: sorted_set(|l: LocationId| st.locations.contains(l) || nl.contains(l), by_location()),
        spheres: st.spheres.push(SphereView { index: st.spheres.len() as u32, scopes: ns, locations: nl, granted: ng }),
    }
}

/// Rounds until one finds nothing, at most `fuel` of them.
pub open spec fn sweep_rounds<B>(inp: SweepInput<B>, st: SweepState<B>, fuel: nat) -> SweepState<B>
    decreases fuel,
{
    if fuel == 0 || !progressed(inp, st) {
        st
    } else {
        sweep_rounds(inp, after_round(inp, st), (fuel - 1) as nat)
    }
}

/// Everything a sweep could ever add: every scope an edge touches, the origin, and every unlock
/// any item grants.
pub open spec fn flat_grants(grants: Seq<(ObjectId, Seq<ObjectId>)>) -> Seq<ObjectId>
    decreases grants.len(),
{
    if grants.len() == 0 {
        Seq::empty()
    } else {
        flat_grants(grants.drop_last()) + grants.last().1
    }
}

/// Enough rounds to reach the fixed point: each round that finds anything adds a scope or an
/// unlock, and there are only so many of either.
pub open spec fn round_bound<B>(inp: SweepInput<B>, initial: Seq<ObjectId>) -> nat {
    universe(inp.graph.edges, inp.origin).len() + initial.len() + flat_grants(inp.grants).len() + 1
}

/// Where a sweep starts: holding `initial` (sorted, each once), nothing accessible yet.
pub open spec fn sweep_start<B>(initial: Seq<ObjectId>) -> SweepState<B> {
    SweepState {
        held: sorted_set(|c: ObjectId| initial.contains(c), by_raw()),
        scopes: Seq::empty(),
        locations: Seq::empty(),
        spheres: Seq::empty(),
    }
}

/// The outcome of a sweep from `origin`.
pub open spec fn swept<B>(inp: SweepInput<B>, initial: Seq<ObjectId>) -> SweepState<B> {
    sweep_rounds(inp, sweep_start(initial), round_bound(inp, initial))
}

/// The spheres of a sweep partition what it reached: numbered from 0 in order, no scope in two of
/// them, every accessible scope in one, and the first holding the origin, which needs nothing.
pub open spec fn layered<B>(st: SweepState<B>, origin: Handle<Node<B>>) -> bool {
    &&& forall|i: int| 0 <= i < st.spheres.len() ==> (#[trigger] st.spheres[i]).index == i as u32
    &&& forall|x: Handle<Node<B>>| #[trigger] st.scopes.contains(x)
        <==> exists|i: int| 0 <= i < st.spheres.len() && (#[trigger] st.spheres[i]).scopes.contains(x)
    &&& forall|i: int, j: int, x: Handle<Node<B>>|
        0 <= i < j < st.spheres.len() && #[trigger] st.spheres[i].scopes.contains(x) ==> !#[trigger] st.spheres[j].scopes.contains(x)
    &&& st.spheres.len() > 0
    &&& st.spheres[0].scopes.contains(origin)
}

/// One round of progression: what became accessible, and what it yielded.
#[derive(Clone, Debug, PartialEq)]
pub struct Sphere<B> {
    /// How deep this sphere is; sphere 0 needs nothing.
    pub index: u32,
    /// Scopes that became accessible in this round, in handle order.
    pub scopes: Vec<Handle<Node<B>>>,
    /// Locations that became available in this round.
    pub locations: Vec<LocationId>,
    /// Unlocks obtained from those locations, opening the next sphere, in id order.
    pub granted: Vec<ObjectId>,
}

/// The outcome of a reachability sweep.
#[derive(Clone, Debug, PartialEq)]
pub struct Accessibility<B> {
    /// Every accessible scope, in handle order.
    pub scopes: Vec<Handle<Node<B>>>,
    /// Every accessible location, in id order.
    pub locations: Vec<LocationId>,
    /// Every unlock obtainable, in id order.
    pub held: Vec<ObjectId>,
    /// The progression, round by round.
    pub spheres: Vec<Sphere<B>>,
}

/// A sphere as plain values.
pub open spec fn sphere_view<B>(sp: Sphere<B>) -> SphereView<B> {
    SphereView { index: sp.index, scopes: sp.scopes@, locations: sp.locations@, granted: sp.granted@ }
}

/// A sweep's outcome as plain values.
pub open spec fn access_view<B>(a: Accessibility<B>) -> SweepState<B> {
    SweepState {
        held: a.held@,
        scopes: a.scopes@,
        locations: a.locations@,
        spheres: a.spheres@.map_values(|sp: Sphere<B>| sphere_view(sp)),
    }
}

/// The grant lists as plain values.
pub open spec fn grants_view(grants: Seq<(ObjectId, Vec<ObjectId>)>) -> Seq<(ObjectId, Seq<ObjectId>)> {
    grants.map_values(|e: (ObjectId, Vec<ObjectId>)| (e.0, e.1@))
}

impl<B> Accessibility<B> {
    /// Is a scope accessible?
    pub fn accessible(&self, scope: Handle<Node<B>>) -> (b: bool)
        ensures
            b == self.scopes@.contains(scope),
    {
        holds_handle(&self.scopes, scope)
    }

    /// How many rounds of progression this world has: a direct measure of how gated it is.
    pub fn depth(&self) -> (d: u32)
        ensures
            d == self.spheres@.len() as u32,
    {
        self.spheres.len() as u32
    }

    /// Which sphere a scope first became accessible in.
    pub fn sphere_of(&self, scope: Handle<Node<B>>) -> (r: Option<u32>)
        ensures
            match r {
                Some(k) => exists|i: int| 0 <= i < self.spheres@.len() && (#[trigger] self.spheres@[i]).index == k
                    && self.spheres@[i].scopes@.contains(scope) && forall|j: int| 0 <= j < i ==> !(#[trigger] self.spheres@[j]).scopes@.contains(scope),
                None => forall|i: int| 0 <= i < self.spheres@.len() ==> !(#[trigger] self.spheres@[i]).scopes@.contains(scope),
            },
    {
        let mut i: usize = 0;
        while i < self.spheres.len()
            invariant
                i <= self.spheres@.len(),
                forall|j: int| 0 <= j < i ==> !(#[trigger] self.spheres@[j]).scopes@.contains(scope),
            decreases self.spheres@.len() - i,
        {
            if holds_handle(&self.spheres[i].scopes, scope) {
                return Some(self.spheres[i].index);
            }
            i += 1;
        }
        None
    }
}

/// The value the first entry with key `l` records.
fn first_item(placements: &[(LocationId, ObjectId)], l: LocationId) -> (r: Option<ObjectId>)
    ensures
        r == first_value(placements@, l),
{
    let mut i: usize = 0;
    assert(placements@.skip(0) =~= placements@);
    while i < placements.len()
        invariant
            i <= placements@.len(),
            first_value(placements@, l) == first_value(placements@.skip(i as int), l),
        decreases placements@.len() - i,
    {
        proof {
            assert(placements@.skip(i as int).drop_first() =~= placements@.skip(i + 1));
        }
        if placements[i].0.0 == l.0 {
            return Some(placements[i].1);
        }
        i += 1;
    }
    None
}

/// The grant list of the first entry for `item`.
fn first_grant(grants: &[(ObjectId, Vec<ObjectId>)], item: ObjectId) -> (r: Option<&Vec<ObjectId>>)
    ensures
        match first_value(grants_view(grants@), item) {
            Some(us) => r is Some && r->Some_0@ == us,
            None => r is None,
        },
{
    let ghost gv = grants_view(grants@);
    let mut i: usize = 0;
    assert(gv.skip(0) =~= gv);
    while i < grants.len()
        invariant
            i <= grants@.len(),
            gv == grants_view(grants@),
            first_value(gv, item) == first_value(gv.skip(i as int), item),
        decreases grants@.len() - i,
    {
        proof {
            assert(gv.skip(i as int).drop_first() =~= gv.skip(i + 1));
            assert(gv.skip(i as int)[0] == (grants@[i as int].0, grants@[i as int].1@));
        }
        if grants[i].0.same(item) {
            return Some(&grants[i].1);
        }
        i += 1;
    }
    None
}

/// Insert a location id into a strictly increasing list, keeping it so.
fn insert_location_id(out: &mut Vec<LocationId>, id: LocationId)
    requires
        ids_sorted(old(out)@),
    ensures
        ids_sorted(final(out)@),
        forall|x: LocationId| #[trigger] final(out)@.contains(x) <==> (old(out)@.contains(x) || x == id),
{
    let mut i: usize = 0;
    while i < out.len() && out[i].0 < id.0
        invariant
            i <= out@.len(),
            out@ == old(out)@,
            ids_sorted(out@),
            forall|j: int| 0 <= j < i ==> out@[j].0 < id.0,
        decreases out@.len() - i,
    {
        i += 1;
    }
    if i < out.len() && out[i].0 == id.0 {
        assert(out@[i as int] == id);
        return;
    }
    out.insert(i, id);
    proof {
        assert forall|x: LocationId| #[trigger] final(out)@.contains(x) <==> (old(out)@.contains(x) || x == id) by {
            if old(out)@.contains(x) {
                let k = choose|k: int| 0 <= k < old(out)@.len() && old(out)@[k] == x;
                if k < i {
                    assert(final(out)@[k] == x);
                } else {
                    assert(final(out)@[k + 1] == x);
                }
            }
            if x == id {
                assert(final(out)@[i as int] == x);
            }
            if final(out)@.contains(x) {
                let k = choose|k: int| 0 <= k < final(out)@.len() && final(out)@[k] == x;
                if k < i {
                    assert(old(out)@[k] == x);
                } else if k > i {
                    assert(old(out)@[k - 1] == x);
                }
            }
        }
    }
}

/// Does `v` hold `x`?
fn holds_location(v: &Vec<LocationId>, x: LocationId) -> (b: bool)
    ensures
        b == v@.contains(x),
{
    let mut i: usize = 0;
    while i < v.len()
        invariant
            i <= v@.len(),
            forall|j: int| 0 <= j < i ==> v@[j] != x,
        decreases v@.len() - i,
    {
        if v[i].0 == x.0 {
            assert(v@[i as int] == x);
            return true;
        }
        i += 1;
    }
    false
}

/// The members of the sorted `round` not in `scopes`, in order.
fn fresh_scopes<B>(round: &Vec<Handle<Node<B>>>, scopes: &Vec<Handle<Node<B>>>) -> (out: Vec<Handle<Node<B>>>)
    requires
        handles_sorted(round@),
    ensures
        handles_sorted(out@),
        forall|x: Handle<Node<B>>| #[trigger] out@.contains(x) <==> (round@.contains(x) && !scopes@.contains(x)),
{
    let mut out: Vec<Handle<Node<B>>> = Vec::new();
    let mut i: usize = 0;
    while i < round.len()
        invariant
            i <= round@.len(),
            handles_sorted(round@),
            handles_sorted(out@),
            forall|k: int| 0 <= k < out@.len() ==> exists|j: int| 0 <= j < i && round@[j] == #[trigger] out@[k],
            forall|x: Handle<Node<B>>| #[trigger] out@.contains(x) <==> (round@.take(i as int).contains(x) && !scopes@.contains(x)),
        decreases round@.len() - i,
    {
        let x = round[i];
        let ghost before = out@;
        let ghost t0 = round@.take(i as int);
        let ghost t1 = round@.take(i + 1);
        proof {
            assert(t1 =~= t0.push(x));
        }
        if !holds_handle(scopes, x) {
            out.push(x);
            proof {
                assert forall|a: int, b: int| 0 <= a < b < out@.len() implies handle_key(#[trigger] out@[a]) < handle_key(#[trigger] out@[b]) by {
                    if b == before.len() {
                        let j = choose|j: int| 0 <= j < i && round@[j] == #[trigger] before[a];
                        assert(handle_key(round@[j]) < handle_key(round@[i as int]));
                    } else {
                        assert(out@[a] == before[a] && out@[b] == before[b]);
                    }
                }
                assert forall|k: int| 0 <= k < out@.len() implies exists|j: int| 0 <= j < i + 1 && round@[j] == #[trigger] out@[k] by {
                    if k < before.len() {
                        assert(out@[k] == before[k]);
                        let j = choose|j: int| 0 <= j < i && round@[j] == #[trigger] before[k];
                    } else {
                        assert(round@[i as int] == out@[k]);
                    }
                }
                assert forall|y: Handle<Node<B>>| #[trigger] out@.contains(y) <==> (t1.contains(y) && !scopes@.contains(y)) by {
                    if out@.contains(y) {
                        let k = choose|k: int| 0 <= k < out@.len() && out@[k] == y;
                        if k < before.len() {
                            assert(before[k] == y);
                            assert(before.contains(y));
                            let w = choose|w: int| 0 <= w < t0.len() && t0[w] == y;
                            assert(t1[w] == y);
                        } else {
                            assert(t1[i as int] == y);
                        }
                    }
                    if t1.contains(y) && !scopes@.contains(y) {
                        let w = choose|w: int| 0 <= w < t1.len() && t1[w] == y;
                        if w < i {
                            assert(t0[w] == y);
                            assert(before.contains(y));
                            let k = choose|k: int| 0 <= k < before.len() && before[k] == y;
                            assert(out@[k] == y);
                        } else {
                            assert(out@[before.len() as int] == y);
                        }
                    }
                }
            }
        } else {
            proof {
                assert forall|k: int| 0 <= k < out@.len() implies exists|j: int| 0 <= j < i + 1 && round@[j] == #[trigger] out@[k] by {
                    let j = choose|j: int| 0 <= j < i && round@[j] == #[trigger] out@[k];
                }
                assert forall|y: Handle<Node<B>>| #[trigger] out@.contains(y) <==> (t1.contains(y) && !scopes@.contains(y)) by {
                    if out@.contains(y) {
                        let w = choose|w: int| 0 <= w < t0.len() && t0[w] == y;
                        assert(t1[w] == y);
                    }
                    if t1.contains(y) && !scopes@.contains(y) {
                        let w = choose|w: int| 0 <= w < t1.len() && t1[w] == y;
                        if w < i {
                            assert(t0[w] == y);
                        }
                    }
                }
            }
        }
        i += 1;
    }
    assert(round@.take(i as int) =~= round@);
    out
}

impl<B> MissionGraph<B> {
    /// The ids of the locations in the scopes `ns`, scope by scope, that are not in `locs`.
    pub(crate) fn fresh_locations(&self, ns: &Vec<Handle<Node<B>>>, locs: &Vec<LocationId>) -> (out: Vec<LocationId>)
        ensures
            out@ == ids_in_all(self@.locations, ns@).filter(not_listed(locs@)),
    {
        broadcast use Seq::filter_distributes_over_add;

        let mut out: Vec<LocationId> = Vec::new();
        let mut i: usize = 0;
        proof {
            reveal(Seq::filter);
            assert(ns@.take(0) =~= Seq::<Handle<Node<B>>>::empty());
        }
        while i < ns.len()
            invariant
                i <= ns@.len(),
                out@ == ids_in_all(self@.locations, ns@.take(i as int)).filter(not_listed(locs@)),
            decreases ns@.len() - i,
        {
            let ids = self.locations_in(ns[i]);
            let ghost base = out@;
            let mut j: usize = 0;
            proof {
                reveal(Seq::filter);
                assert(ids@.take(0) =~= Seq::<LocationId>::empty());
                assert(base + ids@.take(0).filter(not_listed(locs@)) =~= base);
            }
            while j < ids.len()
                invariant
                    j <= ids@.len(),
                    out@ == base + ids@.take(j as int).filter(not_listed(locs@)),
                decreases ids@.len() - j,
            {
                let l = ids[j];
                proof {
                    reveal(Seq::filter);
                    assert(ids@.take(j + 1).drop_last() =~= ids@.take(j as int));
                }
                if !holds_location(locs, l) {
                    out.push(l);
                    assert(out@ =~= base + ids@.take(j + 1).filter(not_listed(locs@)));
                } else {
                    assert(out@ =~= base + ids@.take(j + 1).filter(not_listed(locs@)));
                }
                j += 1;
            }
            proof {
                assert(ids@.take(j as int) =~= ids@);
                let t1 = ns@.take(i + 1);
                assert(t1.drop_last() =~= ns@.take(i as int));
                assert(t1.last() == ns@[i as int]);
                assert(ids_in_all(self@.locations, t1) == ids_in_all(self@.locations, ns@.take(i as int)) + ids@);
            }
            i += 1;
        }
        assert(ns@.take(i as int) =~= ns@);
        out
    }
}

/// The unlocks the locations `nl` yield that `held` lacks, in id order, each once.
pub(crate) fn fresh_unlocks(
    nl: &Vec<LocationId>,
    placements: &[(LocationId, ObjectId)],
    grants: &[(ObjectId, Vec<ObjectId>)],
    held: &Vec<ObjectId>,
) -> (out: Vec<ObjectId>)
    ensures
        strictly_sorted(out@),
        forall|c: ObjectId| #[trigger] out@.contains(c) <==> (!held@.contains(c) && exists|l: LocationId|
            #[trigger] nl@.contains(l) && yield_in(placements@, grants_view(grants@), l).contains(c)),
{
    let mut out: Vec<ObjectId> = Vec::new();
    let mut i: usize = 0;
    while i < nl.len()
        invariant
            i <= nl@.len(),
            strictly_sorted(out@),
            forall|c: ObjectId| #[trigger] out@.contains(c) <==> (!held@.contains(c) && exists|j: int|
                0 <= j < i && yield_in(placements@, grants_view(grants@), #[trigger] nl@[j]).contains(c)),
        decreases nl@.len() - i,
    {
        let l = nl[i];
        let ghost ys = yield_in(placements@, grants_view(grants@), l);
        let ghost before = out@;
        match first_item(placements, l) {
            Some(item) => match first_grant(grants, item) {
                Some(us) => {
                    assert(us@ == ys);
                    let mut k: usize = 0;
                    while k < us.len()
                        invariant
                            k <= us@.len(),
                            us@ == ys,
                            strictly_sorted(out@),
                            forall|c: ObjectId| #[trigger] out@.contains(c) <==> (before.contains(c) || (!held@.contains(c) && us@.take(k as int).contains(c))),
                        decreases us@.len() - k,
                    {
                        let u = us[k];
                        let ghost t0 = us@.take(k as int);
                        let ghost t1 = us@.take(k + 1);
                        proof {
                            assert(t1 =~= t0.push(u));
                            assert forall|c: ObjectId| t1.contains(c) <==> (t0.contains(c) || c == u) by {
                                if t1.contains(c) {
                                    let w = choose|w: int| 0 <= w < t1.len() && t1[w] == c;
                                    if w < k {
                                        assert(t0[w] == c);
                                    }
                                }
                                if t0.contains(c) {
                                    let w = choose|w: int| 0 <= w < t0.len() && t0[w] == c;
                                    assert(t1[w] == c);
                                }
                                if c == u {
                                    assert(t1[k as int] == c);
                                }
                            }
                        }
                        if !holds_id(held, u) {
                            insert_sorted(&mut out, u);
                        }
                        k += 1;
                    }
                    assert(us@.take(k as int) =~= us@);
                },
                None => {
                    assert(ys =~= Seq::<ObjectId>::empty());
                },
            },
            None => {
                assert(ys =~= Seq::<ObjectId>::empty());
            },
        }
        proof {
            assert forall|c: ObjectId| #[trigger] out@.contains(c) <==> (!held@.contains(c) && exists|j: int|
                0 <= j < i + 1 && yield_in(placements@, grants_view(grants@), #[trigger] nl@[j]).contains(c)) by {
                if out@.contains(c) && !before.contains(c) {
                    assert(yield_in(placements@, grants_view(grants@), nl@[i as int]).contains(c));
                }
                if !held@.contains(c) && exists|j: int| 0 <= j < i + 1 && yield_in(placements@, grants_view(grants@), #[trigger] nl@[j]).contains(c) {
                    let j = choose|j: int| 0 <= j < i + 1 && yield_in(placements@, grants_view(grants@), #[trigger] nl@[j]).contains(c);
                    if j == i {
                        if ys.len() == 0 {
                            assert(false);
                        }
                    }
                }
            }
        }
        i += 1;
    }
    proof {
        assert forall|c: ObjectId| #[trigger] out@.contains(c) <==> (!held@.contains(c) && exists|l: LocationId|
            #[trigger] nl@.contains(l) && yield_in(placements@, grants_view(grants@), l).contains(c)) by {
            if out@.contains(c) {
                let j = choose|j: int| 0 <= j < nl@.len() && yield_in(placements@, grants_view(grants@), #[trigger] nl@[j]).contains(c);
                assert(nl@.contains(nl@[j]));
            }
            if !held@.contains(c) && exists|l: LocationId| #[trigger] nl@.contains(l) && yield_in(placements@, grants_view(grants@), l).contains(c) {
                let l = choose|l: LocationId| #[trigger] nl@.contains(l) && yield_in(placements@, grants_view(grants@), l).contains(c);
                let j = choose|j: int| 0 <= j < nl@.len() && nl@[j] == l;
                assert(yield_in(placements@, grants_view(grants@), nl@[j]).contains(c));
            }
        }
    }
    out
}

/// What finding location `l` yields, given what sits where and what each item grants.
pub open spec fn yield_in(placements: Seq<(LocationId, ObjectId)>, grants: Seq<(ObjectId, Seq<ObjectId>)>, l: LocationId) -> Seq<ObjectId> {
    match first_value(placements, l) {
        Some(item) => match first_value(grants, item) {
            Some(us) => us,
            None => Seq::empty(),
        },
        None => Seq::empty(),
    }
}

proof fn lemma_reach_in_universe<B>(es: Seq<MissionEdge<B>>, held: Seq<ObjectId>, gated: bool, origin: Handle<Node<B>>, x: Handle<Node<B>>)
    requires
        reaches(es, held, gated, origin, x),
    ensures
        universe(es, origin).contains(x),
{
    let w = choose|w: Seq<Handle<Node<B>>>| #[trigger] is_walk(es, held, gated, w) && w[0] == origin && w.last() == x;
    if w.len() == 1 {
        assert(universe(es, origin)[0] == origin);
    } else {
        assert(hop(es, held, gated, w, w.len() - 2));
        let k = choose|k: int| 0 <= k < es.len() && crossing(#[trigger] es[k], w[w.len() - 2]) == Some(w[w.len() - 1]) && (!gated || satisfied(es[k].rule, held));
        lemma_crossing_in_universe(es, origin, k, w[w.len() - 2]);
    }
}

proof fn lemma_first_value_in<K, V>(entries: Seq<(K, V)>, key: K)
    requires
        first_value(entries, key) is Some,
    ensures
        exists|i: int| 0 <= i < entries.len() && #[trigger] entries[i] == (key, first_value(entries, key)->Some_0),
    decreases entries.len(),
{
    if entries[0].0 != key {
        lemma_first_value_in(entries.drop_first(), key);
        let i = choose|i: int| 0 <= i < entries.drop_first().len() && #[trigger] entries.drop_first()[i] == (key, first_value(entries.drop_first(), key)->Some_0);
        assert(entries[i + 1] == entries.drop_first()[i]);
    } else {
        assert(entries[0] == (key, first_value(entries, key)->Some_0));
    }
}

proof fn lemma_flat_holds(grants: Seq<(ObjectId, Seq<ObjectId>)>, i: int, c: ObjectId)
    requires
        0 <= i < grants.len(),
        grants[i].1.contains(c),
    ensures
        flat_grants(grants).contains(c),
    decreases grants.len(),
{
    let f = flat_grants(grants);
    let front = flat_grants(grants.drop_last());
    let last = grants.last().1;
    assert(f == front + last);
    if i == grants.len() - 1 {
        let j = choose|j: int| 0 <= j < last.len() && last[j] == c;
        assert(f[front.len() + j] == c);
    } else {
        assert(grants.drop_last()[i] == grants[i]);
        lemma_flat_holds(grants.drop_last(), i, c);
        let j = choose|j: int| 0 <= j < front.len() && front[j] == c;
        assert(f[j] == c);
    }
}

proof fn lemma_yield_in_pool(placements: Seq<(LocationId, ObjectId)>, grants: Seq<(ObjectId, Seq<ObjectId>)>, l: LocationId, c: ObjectId)
    requires
        yield_in(placements, grants, l).contains(c),
    ensures
        flat_grants(grants).contains(c),
{
    let item = first_value(placements, l)->Some_0;
    lemma_first_value_in(grants, item);
    let i = choose|i: int| 0 <= i < grants.len() && #[trigger] grants[i] == (item, first_value(grants, item)->Some_0);
    lemma_flat_holds(grants, i, c);
}

/// How far a sweep still is from every scope and unlock it could ever add.
pub open spec fn sweep_slack<B>(inp: SweepInput<B>, initial: Seq<ObjectId>, st: SweepState<B>) -> int {
    (universe(inp.graph.edges, inp.origin).len() - st.scopes.len()) + ((initial + flat_grants(inp.grants)).len() - st.held.len())
}

impl<B> MissionGraph<B> {
    /// **Sweep**: what is accessible from the world's start, given a starting unlock set and what
    /// sits at each location.
    pub fn sweep(
        &self,
        initial: &[ObjectId],
        placements: &[(LocationId, ObjectId)],
        grants: &[(ObjectId, Vec<ObjectId>)],
    ) -> (a: Accessibility<B>)
        requires
            self.wf(),
        ensures
            access_view(a) == swept(
                SweepInput { graph: self@, origin: self@.start, placements: placements@, grants: grants_view(grants@) },
                initial@,
            ),
            layered(access_view(a), self@.start),
            forall|x: Handle<Node<B>>| #[trigger] access_view(a).spheres[0].scopes.contains(x)
                <==> reaches(self@.edges, sweep_start::<B>(initial@).held, true, self@.start, x),
            !progressed(SweepInput { graph: self@, origin: self@.start, placements: placements@, grants: grants_view(grants@) }, access_view(a)),
            closed(SweepInput { graph: self@, origin: self@.start, placements: placements@, grants: grants_view(grants@) }, access_view(a)),
            holds_all(initial@, access_view(a).held),
            rules_free(self@.edges) ==> least(
                SweepInput { graph: self@, origin: self@.start, placements: placements@, grants: grants_view(grants@) },
                initial@,
                access_view(a),
            ),
    {
        self.sweep_from(self.start, initial, placements, grants)
    }

    /// A sweep starting somewhere other than the world's start.
    ///
    /// A fixed point rather than a single traversal: reaching a room may yield an item that opens
    /// another room, so the search repeats until a round adds nothing. Each round is a sphere.
    #[verifier::loop_isolation(false)]
    pub fn sweep_from(
        &self,
        origin: Handle<Node<B>>,
        initial: &[ObjectId],
        placements: &[(LocationId, ObjectId)],
        grants: &[(ObjectId, Vec<ObjectId>)],
    ) -> (a: Accessibility<B>)
        requires
            self.wf(),
        ensures
            access_view(a) == swept(
                SweepInput { graph: self@, origin, placements: placements@, grants: grants_view(grants@) },
                initial@,
            ),
            layered(access_view(a), origin),
            forall|x: Handle<Node<B>>| #[trigger] access_view(a).spheres[0].scopes.contains(x)
                <==> reaches(self@.edges, sweep_start::<B>(initial@).held, true, origin, x),
            !progressed(SweepInput { graph: self@, origin, placements: placements@, grants: grants_view(grants@) }, access_view(a)),
            closed(SweepInput { graph: self@, origin, placements: placements@, grants: grants_view(grants@) }, access_view(a)),
            holds_all(initial@, access_view(a).held),
            rules_free(self@.edges) ==> least(
                SweepInput { graph: self@, origin, placements: placements@, grants: grants_view(grants@) },
                initial@,
                access_view(a),
            ),
    {
        let ghost inp = SweepInput { graph: self@, origin, placements: placements@, grants: grants_view(grants@) };
        let ghost u = universe(self@.edges, origin);
        let ghost pool = initial@ + flat_grants(inp.grants);
        proof {
            lemma_handle_key_injective::<B>();
        }
        let mut held: Vec<ObjectId> = Vec::new();
        let mut i: usize = 0;
        while i < initial.len()
            invariant
                i <= initial@.len(),
                strictly_sorted(held@),
                forall|c: ObjectId| #[trigger] held@.contains(c) <==> initial@.take(i as int).contains(c),
            decreases initial@.len() - i,
        {
            let c = initial[i];
            let ghost t0 = initial@.take(i as int);
            let ghost t1 = initial@.take(i + 1);
            proof {
                assert(t1 =~= t0.push(c));
                assert forall|x: ObjectId| t1.contains(x) <==> (t0.contains(x) || x == c) by {
                    if t1.contains(x) {
                        let w = choose|w: int| 0 <= w < t1.len() && t1[w] == x;
                        if w < i {
                            assert(t0[w] == x);
                        }
                    }
                    if t0.contains(x) {
                        let w = choose|w: int| 0 <= w < t0.len() && t0[w] == x;
                        assert(t1[w] == x);
                    }
                    if x == c {
                        assert(t1[i as int] == x);
                    }
                }
            }
            insert_sorted(&mut held, c);
            i += 1;
        }
        proof {
            assert(initial@.take(i as int) =~= initial@);
            lemma_is_sorted_set(held@, |c: ObjectId| initial@.contains(c), by_raw());
            assert forall|c: ObjectId| #[trigger] held@.contains(c) implies pool.contains(c) by {
                let w = choose|w: int| 0 <= w < initial@.len() && initial@[w] == c;
                assert(pool[w] == c);
            }
            held@.lemma_cardinality_of_set();
        }
        let mut scopes: Vec<Handle<Node<B>>> = Vec::new();
        let mut locations: Vec<LocationId> = Vec::new();
        let mut spheres: Vec<Sphere<B>> = Vec::new();
        let ghost mut fuel: nat = round_bound(inp, initial@);
        proof {
            lemma_strictly_sorted_distinct(held@);
            lemma_distinct_within(held@, pool);
            let st0 = SweepState { held: held@, scopes: scopes@, locations: locations@, spheres: spheres@.map_values(|sp: Sphere<B>| sphere_view(sp)) };
            assert(st0.spheres =~= Seq::<SphereView<B>>::empty());
            assert(st0.scopes =~= Seq::<Handle<Node<B>>>::empty());
            assert(st0.locations =~= Seq::<LocationId>::empty());
            assert(st0 == sweep_start::<B>(initial@));
            assert forall|g: SweepState<B>| #[trigger] closed(inp, g) && holds_all(initial@, g.held) implies scopes_within(scopes@, g.scopes) && holds_all(held@, g.held) by {
                assert forall|c: ObjectId| #[trigger] held@.contains(c) implies g.held.contains(c) by {
                    assert(initial@.contains(c));
                }
            }
        }
        loop
            invariant
                inp == (SweepInput { graph: self@, origin, placements: placements@, grants: grants_view(grants@) }),
                u == universe(self@.edges, origin),
                pool == initial@ + flat_grants(inp.grants),
                handles_sorted(scopes@),
                strictly_sorted(held@),
                ids_sorted(locations@),
                forall|x: Handle<Node<B>>| #[trigger] scopes@.contains(x) ==> u.contains(x),
                forall|c: ObjectId| #[trigger] held@.contains(c) ==> pool.contains(c),
                scopes@.len() <= u.len(),
                held@.len() <= pool.len(),
                fuel >= sweep_slack(inp, initial@, SweepState { held: held@, scopes: scopes@, locations: locations@, spheres: spheres@.map_values(|sp: Sphere<B>| sphere_view(sp)) }) + 1,
                swept(inp, initial@) == sweep_rounds(inp, SweepState { held: held@, scopes: scopes@, locations: locations@, spheres: spheres@.map_values(|sp: Sphere<B>| sphere_view(sp)) }, fuel),
                forall|i: int| 0 <= i < spheres@.len() ==> (#[trigger] spheres@[i]).index == i as u32,
                forall|x: Handle<Node<B>>| #[trigger] scopes@.contains(x)
                    <==> exists|i: int| 0 <= i < spheres@.len() && (#[trigger] spheres@[i]).scopes@.contains(x),
                forall|i: int, j: int, x: Handle<Node<B>>|
                    0 <= i < j < spheres@.len() && #[trigger] spheres@[i].scopes@.contains(x) ==> !#[trigger] spheres@[j].scopes@.contains(x),
                spheres@.len() > 0 ==> spheres@[0].scopes@.contains(origin),
                spheres@.len() == 0 ==> held@ == sweep_start::<B>(initial@).held,
                holds_all(initial@, held@),
                forall|x: Handle<Node<B>>, l: LocationId|
                    scopes@.contains(x) && #[trigger] ids_in(self@.locations, x).contains(l) ==> locations@.contains(l),
                forall|l: LocationId, c: ObjectId|
                    locations@.contains(l) && #[trigger] yield_of(inp, l).contains(c) ==> held@.contains(c),
                rules_free(self@.edges) ==> forall|g: SweepState<B>|
                    #[trigger] closed(inp, g) && holds_all(initial@, g.held) ==> scopes_within(scopes@, g.scopes) && holds_all(held@, g.held),
                spheres@.len() > 0 ==> forall|x: Handle<Node<B>>| #[trigger] spheres@[0].scopes@.contains(x)
                    <==> reaches(self@.edges, sweep_start::<B>(initial@).held, true, origin, x),
            decreases fuel,
        {
            let ghost st = SweepState { held: held@, scopes: scopes@, locations: locations@, spheres: spheres@.map_values(|sp: Sphere<B>| sphere_view(sp)) };
            let round = self.reachable(origin, held.as_slice(), true);
            let ns = fresh_scopes(&round, &scopes);
            proof {
                lemma_is_sorted_set(ns@, |x: Handle<Node<B>>| reaches(inp.graph.edges, st.held, true, inp.origin, x) && !st.scopes.contains(x), by_handle());
                assert(ns@ == round_scopes(inp, st));
            }
            let nl = self.fresh_locations(&ns, &locations);
            assert(nl@ == round_locations(inp, st));
            let ng = fresh_unlocks(&nl, placements, grants, &held);
            proof {
                assert(grants_view(grants@) == inp.grants);
                lemma_is_sorted_set(
                    ng@,
                    |c: ObjectId| !st.held.contains(c) && exists|l: LocationId| #[trigger] round_locations(inp, st).contains(l) && yield_of(inp, l).contains(c),
                    by_raw(),
                );
                assert(ng@ == round_granted(inp, st));
            }
            let ghost sp0 = spheres@;
            proof {
                lemma_walk_here(self@.edges, held@, true, origin);
                if sp0.len() == 0 {
                    assert(!scopes@.contains(origin));
                    assert(ns@.contains(origin));
                    assert forall|x: Handle<Node<B>>| #[trigger] ns@.contains(x) <==> reaches(self@.edges, sweep_start::<B>(initial@).held, true, origin, x) by {
                        if reaches(self@.edges, held@, true, origin, x) {
                            assert(round@.contains(x));
                            assert(!scopes@.contains(x));
                        }
                    }
                }
            }
            if ns.len() == 0 && ng.len() == 0 {
                proof {
                    assert(!progressed(inp, st));
                    assert(fuel > 0);
                    assert forall|x: Handle<Node<B>>| #[trigger] reaches(self@.edges, held@, true, origin, x) implies scopes@.contains(x) by {
                        assert(round@.contains(x));
                        if !scopes@.contains(x) {
                            assert(ns@.contains(x));
                        }
                    }
                }
                break;
            }
            let ghost s0 = scopes@;
            let mut k: usize = 0;
            while k < ns.len()
                invariant
                    k <= ns@.len(),
                    handles_sorted(scopes@),
                    scopes@.len() == s0.len() + k,
                    forall|x: Handle<Node<B>>| #[trigger] scopes@.contains(x) <==> (s0.contains(x) || ns@.take(k as int).contains(x)),
                decreases ns@.len() - k,
            {
                let x = ns[k];
                let ghost t0 = ns@.take(k as int);
                let ghost t1 = ns@.take(k + 1);
                proof {
                    lemma_sorted_distinct(ns@);
                    assert(t1 =~= t0.push(x));
                    assert(!s0.contains(x)) by {
                        assert(ns@.contains(x));
                    }
                    if t0.contains(x) {
                        let w = choose|w: int| 0 <= w < t0.len() && t0[w] == x;
                        assert(ns@[w] == ns@[k as int]);
                    }
                    assert forall|y: Handle<Node<B>>| t1.contains(y) <==> (t0.contains(y) || y == x) by {
                        if t1.contains(y) {
                            let w = choose|w: int| 0 <= w < t1.len() && t1[w] == y;
                            if w < k {
                                assert(t0[w] == y);
                            }
                        }
                        if t0.contains(y) {
                            let w = choose|w: int| 0 <= w < t0.len() && t0[w] == y;
                            assert(t1[w] == y);
                        }
                        if y == x {
                            assert(t1[k as int] == y);
                        }
                    }
                }
                insert_handle(&mut scopes, x);
                k += 1;
            }
            let ghost l0 = locations@;
            let mut k: usize = 0;
            while k < nl.len()
                invariant
                    k <= nl@.len(),
                    ids_sorted(locations@),
                    forall|x: LocationId| #[trigger] locations@.contains(x) <==> (l0.contains(x) || nl@.take(k as int).contains(x)),
                decreases nl@.len() - k,
            {
                let x = nl[k];
                let ghost t0 = nl@.take(k as int);
                let ghost t1 = nl@.take(k + 1);
                proof {
                    assert(t1 =~= t0.push(x));
                    assert forall|y: LocationId| t1.contains(y) <==> (t0.contains(y) || y == x) by {
                        if t1.contains(y) {
                            let w = choose|w: int| 0 <= w < t1.len() && t1[w] == y;
                            if w < k {
                                assert(t0[w] == y);
                            }
                        }
                        if t0.contains(y) {
                            let w = choose|w: int| 0 <= w < t0.len() && t0[w] == y;
                            assert(t1[w] == y);
                        }
                        if y == x {
                            assert(t1[k as int] == y);
                        }
                    }
                }
                insert_location_id(&mut locations, x);
                k += 1;
            }
            let ghost h0 = held@;
            let mut k: usize = 0;
            while k < ng.len()
                invariant
                    k <= ng@.len(),
                    strictly_sorted(held@),
                    held@.len() == h0.len() + k,
                    forall|x: ObjectId| #[trigger] held@.contains(x) <==> (h0.contains(x) || ng@.take(k as int).contains(x)),
                decreases ng@.len() - k,
            {
                let x = ng[k];
                let ghost t0 = ng@.take(k as int);
                let ghost t1 = ng@.take(k + 1);
                proof {
                    lemma_strictly_sorted_distinct(ng@);
                    assert(t1 =~= t0.push(x));
                    assert(!h0.contains(x)) by {
                        assert(ng@.contains(x));
                    }
                    if t0.contains(x) {
                        let w = choose|w: int| 0 <= w < t0.len() && t0[w] == x;
                        assert(ng@[w] == ng@[k as int]);
                    }
                    assert forall|y: ObjectId| t1.contains(y) <==> (t0.contains(y) || y == x) by {
                        if t1.contains(y) {
                            let w = choose|w: int| 0 <= w < t1.len() && t1[w] == y;
                            if w < k {
                                assert(t0[w] == y);
                            }
                        }
                        if t0.contains(y) {
                            let w = choose|w: int| 0 <= w < t0.len() && t0[w] == y;
                            assert(t1[w] == y);
                        }
                        if y == x {
                            assert(t1[k as int] == y);
                        }
                    }
                }
                insert_sorted(&mut held, x);
                k += 1;
            }
            proof {
                assert(ns@.take(ns@.len() as int) =~= ns@);
                assert(nl@.take(nl@.len() as int) =~= nl@);
                assert(ng@.take(ng@.len() as int) =~= ng@);
                assert(h0 == st.held && s0 == st.scopes && l0 == st.locations);
                assert forall|x: Handle<Node<B>>, l: LocationId|
                    scopes@.contains(x) && #[trigger] ids_in(self@.locations, x).contains(l) implies locations@.contains(l) by {
                    if !s0.contains(x) {
                        assert(ns@.contains(x));
                        let j = choose|j: int| 0 <= j < ns@.len() && ns@[j] == x;
                        lemma_ids_in_all(self@.locations, ns@, l);
                        lemma_filter_has(ids_in_all(self@.locations, ns@), not_listed(l0), l);
                        if !l0.contains(l) {
                            assert(nl@.contains(l));
                        }
                    }
                }
                assert forall|l: LocationId, c: ObjectId|
                    locations@.contains(l) && #[trigger] yield_of(inp, l).contains(c) implies held@.contains(c) by {
                    if !l0.contains(l) {
                        assert(nl@.contains(l));
                        if !h0.contains(c) {
                            assert(ng@.contains(c));
                        }
                    }
                }
                assert(holds_all(initial@, held@));
                if rules_free(self@.edges) {
                    assert forall|g: SweepState<B>| #[trigger] closed(inp, g) && holds_all(initial@, g.held) implies scopes_within(scopes@, g.scopes) && holds_all(held@, g.held) by {
                        assert(scopes_within(s0, g.scopes) && holds_all(h0, g.held));
                        assert forall|x: Handle<Node<B>>| #[trigger] scopes@.contains(x) implies g.scopes.contains(x) by {
                            if !s0.contains(x) {
                                assert(ns@.contains(x));
                                assert(round@.contains(x));
                                lemma_reach_grows(self@.edges, h0, g.held, origin, x);
                            }
                        }
                        assert forall|c: ObjectId| #[trigger] held@.contains(c) implies g.held.contains(c) by {
                            if !h0.contains(c) {
                                assert(ng@.contains(c));
                                let l = choose|l: LocationId| #[trigger] nl@.contains(l) && yield_in(placements@, grants_view(grants@), l).contains(c);
                                lemma_filter_has(ids_in_all(self@.locations, ns@), not_listed(l0), l);
                                lemma_ids_in_all(self@.locations, ns@, l);
                                let j = choose|j: int| 0 <= j < ns@.len() && #[trigger] ids_in(self@.locations, ns@[j]).contains(l);
                                let x = ns@[j];
                                assert(ns@.contains(x));
                                assert(round@.contains(x));
                                lemma_reach_grows(self@.edges, h0, g.held, origin, x);
                                assert(g.scopes.contains(x));
                                assert(yield_of(inp, l).contains(c));
                            }
                        }
                    }
                }
            }
            let index = spheres.len() as u32;
            let ghost ns_v = ns@;
            spheres.push(Sphere { index, scopes: ns, locations: nl, granted: ng });
            proof {
                assert(spheres@ == sp0.push(Sphere { index, scopes: ns, locations: nl, granted: ng }));
                assert(spheres@[sp0.len() as int].scopes@ == ns_v);
                assert(ns_v.take(ns_v.len() as int) =~= ns_v);
                assert forall|x: Handle<Node<B>>| #[trigger] scopes@.contains(x)
                    <==> exists|i: int| 0 <= i < spheres@.len() && (#[trigger] spheres@[i]).scopes@.contains(x) by {
                    if scopes@.contains(x) {
                        if s0.contains(x) {
                            let i = choose|i: int| 0 <= i < sp0.len() && (#[trigger] sp0[i]).scopes@.contains(x);
                            assert(spheres@[i] == sp0[i]);
                        } else {
                            assert(spheres@[sp0.len() as int].scopes@.contains(x));
                        }
                    }
                    if exists|i: int| 0 <= i < spheres@.len() && (#[trigger] spheres@[i]).scopes@.contains(x) {
                        let i = choose|i: int| 0 <= i < spheres@.len() && (#[trigger] spheres@[i]).scopes@.contains(x);
                        if i < sp0.len() {
                            assert(sp0[i] == spheres@[i]);
                            assert(s0.contains(x));
                        } else {
                            assert(ns_v.contains(x));
                        }
                    }
                }
                assert forall|i: int, j: int, x: Handle<Node<B>>|
                    0 <= i < j < spheres@.len() && #[trigger] spheres@[i].scopes@.contains(x) implies !#[trigger] spheres@[j].scopes@.contains(x) by {
                    assert(spheres@[i] == sp0[i]);
                    if j < sp0.len() {
                        assert(spheres@[j] == sp0[j]);
                    } else {
                        assert(s0.contains(x));
                        assert(!ns_v.contains(x));
                    }
                }
                assert forall|i: int| 0 <= i < spheres@.len() implies (#[trigger] spheres@[i]).index == i as u32 by {
                    if i < sp0.len() {
                        assert(spheres@[i] == sp0[i]);
                    }
                }
            }
            proof {
                assert(ns@ == round_scopes(inp, st));
                let next = after_round(inp, st);
                assert(ns@.take(ns@.len() as int) =~= ns@);
                assert(nl@.take(nl@.len() as int) =~= nl@);
                assert(ng@.take(ng@.len() as int) =~= ng@);
                lemma_is_sorted_set(scopes@, |x: Handle<Node<B>>| st.scopes.contains(x) || round_scopes(inp, st).contains(x), by_handle());
                lemma_is_sorted_set(locations@, |l: LocationId| st.locations.contains(l) || round_locations(inp, st).contains(l), by_location());
                lemma_is_sorted_set(held@, |c: ObjectId| st.held.contains(c) || round_granted(inp, st).contains(c), by_raw());
                assert(spheres@.map_values(|sp: Sphere<B>| sphere_view(sp)) =~= st.spheres.push(SphereView { index: st.spheres.len() as u32, scopes: round_scopes(inp, st), locations: round_locations(inp, st), granted: round_granted(inp, st) }));
                assert forall|x: Handle<Node<B>>| #[trigger] scopes@.contains(x) implies u.contains(x) by {
                    if !s0.contains(x) {
                        assert(ns@.contains(x));
                        lemma_reach_in_universe(self@.edges, h0, true, origin, x);
                    }
                }
                assert forall|c: ObjectId| #[trigger] held@.contains(c) implies pool.contains(c) by {
                    if !h0.contains(c) {
                        assert(ng@.contains(c));
                        let l = choose|l: LocationId| #[trigger] nl@.contains(l) && yield_in(placements@, grants_view(grants@), l).contains(c);
                        lemma_yield_in_pool(placements@, grants_view(grants@), l, c);
                        let f = flat_grants(inp.grants);
                        let w = choose|w: int| 0 <= w < f.len() && f[w] == c;
                        assert(pool[initial@.len() + w] == c);
                    }
                }
                lemma_sorted_distinct(scopes@);
                lemma_distinct_within(scopes@, u);
                lemma_strictly_sorted_distinct(held@);
                lemma_distinct_within(held@, pool);
                assert(progressed(inp, st));
                fuel = (fuel - 1) as nat;
            }
        }
        let a = Accessibility { scopes, locations, held, spheres };
        proof {
            let v = access_view(a);
            assert forall|i: int| 0 <= i < v.spheres.len() implies (#[trigger] v.spheres[i]) == sphere_view(a.spheres@[i]) by {}
            assert(v.spheres[0] == sphere_view(a.spheres@[0]));
            assert forall|x: Handle<Node<B>>| #[trigger] v.scopes.contains(x)
                <==> exists|i: int| 0 <= i < v.spheres.len() && (#[trigger] v.spheres[i]).scopes.contains(x) by {
                if v.scopes.contains(x) {
                    let i = choose|i: int| 0 <= i < a.spheres@.len() && (#[trigger] a.spheres@[i]).scopes@.contains(x);
                    assert(v.spheres[i] == sphere_view(a.spheres@[i]));
                }
                if exists|i: int| 0 <= i < v.spheres.len() && (#[trigger] v.spheres[i]).scopes.contains(x) {
                    let i = choose|i: int| 0 <= i < v.spheres.len() && (#[trigger] v.spheres[i]).scopes.contains(x);
                    assert(v.spheres[i] == sphere_view(a.spheres@[i]));
                    assert(a.spheres@[i].scopes@.contains(x));
                }
            }
            assert forall|i: int, j: int, x: Handle<Node<B>>|
                0 <= i < j < v.spheres.len() && #[trigger] v.spheres[i].scopes.contains(x) implies !#[trigger] v.spheres[j].scopes.contains(x) by {
                assert(v.spheres[i] == sphere_view(a.spheres@[i]));
                assert(v.spheres[j] == sphere_view(a.spheres@[j]));
            }
        }
        a
    }
}

proof fn lemma_strictly_sorted_distinct(s: Seq<ObjectId>)
    requires
        strictly_sorted(s),
    ensures
        s.no_duplicates(),
{
    assert forall|i: int, j: int| 0 <= i < s.len() && 0 <= j < s.len() && i != j implies s[i] != s[j] by {
        if i < j {
            assert(s[i].raw() < s[j].raw());
        } else {
            assert(s[j].raw() < s[i].raw());
        }
    }
}

// ---------------------------------------------------------------------------------------------
// From the scope graph
// ---------------------------------------------------------------------------------------------

/// Is some edge already between `a` and `b`?
pub open spec fn joined<B>(m: MissionView<B>, a: Handle<Node<B>>, b: Handle<Node<B>>) -> bool {
    exists|i: int| 0 <= i < m.edges.len() && joins(#[trigger] m.edges[i], a, b)
}

/// Sorting after `x`.
pub open spec fn later_than<B>(x: Handle<Node<B>>) -> spec_fn(Handle<Node<B>>) -> bool {
    |p: Handle<Node<B>>| handle_key(x) < handle_key(p)
}

/// Paired with `x`.
pub open spec fn paired_with<B>(x: Handle<Node<B>>) -> spec_fn(Handle<Node<B>>) -> (Handle<Node<B>>, Handle<Node<B>>) {
    |p: Handle<Node<B>>| (x, p)
}

/// The spatial links a scope contributes: a Space with each neighbour that sorts after it, so
/// that each undirected link is taken once.
pub open spec fn pairs_of<B>(g: GraphView<B>, x: Handle<Node<B>>) -> Seq<(Handle<Node<B>>, Handle<Node<B>>)> {
    if live(g, x) && node_of(g, x).kind == NodeKind::Space {
        node_of(g, x).neighbors.filter(later_than(x)).map_values(paired_with(x))
    } else {
        Seq::empty()
    }
}

/// The spatial links of the scopes `ws`, scope by scope.
pub open spec fn pairs_along<B>(g: GraphView<B>, ws: Seq<Handle<Node<B>>>) -> Seq<(Handle<Node<B>>, Handle<Node<B>>)>
    decreases ws.len(),
{
    if ws.len() == 0 {
        Seq::empty()
    } else {
        pairs_along(g, ws.drop_last()) + pairs_of(g, ws.last())
    }
}

/// Pouring links in as open edges, one after another: each becomes an edge unless one already
/// joins the pair or a cap refuses it. The graph afterwards, and how many were added.
pub open spec fn poured<B>(m: MissionView<B>, pairs: Seq<(Handle<Node<B>>, Handle<Node<B>>)>) -> (MissionView<B>, nat)
    decreases pairs.len(),
{
    if pairs.len() == 0 {
        (m, 0)
    } else {
        let (m1, n1) = poured(m, pairs.drop_last());
        let (x, p) = pairs.last();
        if !joined(m1, x, p) && !at_cap(m1, x) && !at_cap(m1, p) {
            (
                MissionView {
                    edges: m1.edges.push(MissionEdge { from: x, to: p, rule: Rule::Always, reversible: true, is_shortcut: false }),
                    ..m1
                },
                n1 + 1,
            )
        } else {
            (m1, n1)
        }
    }
}

/// The scope graph's walk: the root, then everything below it depth-first.
pub open spec fn walk_of<B>(g: GraphView<B>) -> Seq<Handle<Node<B>>> {
    seq![g.root] + descendants(g, g.root)
}

impl<B> MissionGraph<B> {
    /// Add the scope graph's spatial adjacency as open edges, respecting degree caps, in walk
    /// order and each Space's neighbours in insertion order. How many edges were added.
    #[verifier::loop_isolation(false)]
    pub fn connect_scopes(&mut self, graph: &NodeGraph<B>) -> (added: usize)
        requires
            old(self).wf(),
        ensures
            final(self).wf(),
            (final(self)@, added as nat) == poured(old(self)@, pairs_along(graph@, walk_of(graph@))),
    {
        let walk = graph.walk();
        let ghost g = graph@;
        let ghost m0 = self@;
        let mut added: usize = 0;
        let mut i: usize = 0;
        proof {
            assert(walk@.take(0) =~= Seq::<Handle<Node<B>>>::empty());
        }
        while i < walk.len()
            invariant
                i <= walk@.len(),
                walk@ == walk_of(g),
                self.wf(),
                self@.edges.len() >= m0.edges.len() + added,
                (self@, added as nat) == poured(m0, pairs_along(g, walk@.take(i as int))),
            decreases walk@.len() - i,
        {
            let scope = walk[i];
            let ghost before = pairs_along(g, walk@.take(i as int));
            proof {
                assert(walk@.take(i + 1).drop_last() =~= walk@.take(i as int));
                assert(walk@.take(i + 1).last() == scope);
            }
            match graph.get(scope) {
                None => {
                    assert(pairs_of(g, scope) =~= Seq::<(Handle<Node<B>>, Handle<Node<B>>)>::empty());
                    assert(before + pairs_of(g, scope) =~= before);
                },
                Some(node) => {
                    if node.kind() != NodeKind::Space {
                        assert(pairs_of(g, scope) =~= Seq::<(Handle<Node<B>>, Handle<Node<B>>)>::empty());
                        assert(before + pairs_of(g, scope) =~= before);
                    } else {
                        let nbrs = node.neighbors();
                        let mut j: usize = 0;
                        proof {
                            reveal(Seq::filter);
                            assert(nbrs@.take(0) =~= Seq::<Handle<Node<B>>>::empty());
                            assert(before + nbrs@.take(0).filter(later_than(scope)).map_values(paired_with(scope)) =~= before);
                        }
                        while j < nbrs.len()
                            invariant
                                j <= nbrs@.len(),
                                nbrs@ == node_of(g, scope).neighbors,
                                self.wf(),
                                self@.edges.len() >= m0.edges.len() + added,
                                (self@, added as nat) == poured(m0, before + nbrs@.take(j as int).filter(later_than(scope)).map_values(paired_with(scope))),
                            decreases nbrs@.len() - j,
                        {
                            let peer = nbrs[j];
                            let ghost prev = before + nbrs@.take(j as int).filter(later_than(scope)).map_values(paired_with(scope));
                            proof {
                                reveal(Seq::filter);
                                assert(nbrs@.take(j + 1).drop_last() =~= nbrs@.take(j as int));
                                assert(nbrs@.take(j + 1).last() == peer);
                            }
                            if handle_before(scope, peer) {
                                let ghost grown = prev.push((scope, peer));
                                proof {
                                    assert(nbrs@.take(j + 1).filter(later_than(scope)) == nbrs@.take(j as int).filter(later_than(scope)).push(peer));
                                    assert(nbrs@.take(j + 1).filter(later_than(scope)).map_values(paired_with(scope)) =~= nbrs@.take(j as int).filter(later_than(scope)).map_values(paired_with(scope)).push((scope, peer)));
                                    assert(before + nbrs@.take(j + 1).filter(later_than(scope)).map_values(paired_with(scope)) =~= grown);
                                    assert(grown.drop_last() =~= prev);
                                }
                                let joined_now = self.connects(scope, peer);
                                if !joined_now {
                                    match self.add_edge(MissionEdge::open(scope, peer)) {
                                        Some(_) => {
                                            let total = self.edges.len();
                                            assert(total as int >= m0.edges.len() + added + 1);
                                            added += 1;
                                        },
                                        None => {},
                                    }
                                }
                            } else {
                                proof {
                                    assert(nbrs@.take(j + 1).filter(later_than(scope)) == nbrs@.take(j as int).filter(later_than(scope)));
                                }
                            }
                            j += 1;
                        }
                        proof {
                            assert(nbrs@.take(j as int) =~= nbrs@);
                        }
                    }
                },
            }
            i += 1;
        }
        assert(walk@.take(i as int) =~= walk@);
        added
    }

    /// Build the base topology from a scope graph's spatial adjacency: every connection starts
    /// open; gating is decided later.
    pub fn from_scopes(graph: &NodeGraph<B>, start: Handle<Node<B>>) -> (m: MissionGraph<B>)
        ensures
            m.wf(),
            m@ == poured(
                MissionView::<B> {
                    start,
                    goal: None,
                    recovery: Seq::empty(),
                    edges: Seq::empty(),
                    locations: Seq::empty(),
                    caps: Seq::empty(),
                    excluded: Seq::empty(),
                },
                pairs_along(graph@, walk_of(graph@)),
            ).0,
    {
        let mut mission = MissionGraph::new(start);
        mission.connect_scopes(graph);
        mission
    }
}

// ---------------------------------------------------------------------------------------------
// Laws
// ---------------------------------------------------------------------------------------------

proof fn lemma_degree_push<B>(edges: Seq<MissionEdge<B>>, e: MissionEdge<B>, s: Handle<Node<B>>)
    ensures
        degree_of(edges.push(e), s) == degree_of(edges, s) + if e.from == s || e.to == s {
            1nat
        } else {
            0nat
        },
{
    assert(edges.push(e).drop_last() =~= edges);
}

/// A scope at its declared cap is frozen there: requesting any edge leaves its degree as it was.
pub proof fn law_capped_scopes_stay_frozen<B>(m: MissionView<B>, e: MissionEdge<B>, s: Handle<Node<B>>)
    requires
        at_cap(m, s),
    ensures
        degree_of(edge_requested(m, e).edges, s) == degree_of(m.edges, s),
{
    lemma_degree_push(m.edges, e, s);
}

/// A declared cap survives every later edge request: if every cap is met before, every cap is
/// met after.
pub proof fn law_requests_keep_caps<B>(m: MissionView<B>, e: MissionEdge<B>)
    requires
        caps_hold(m),
    ensures
        caps_hold(edge_requested(m, e)),
{
    let after = edge_requested(m, e);
    assert forall|s: Handle<Node<B>>| #[trigger] cap_met(after, s) by {
        lemma_degree_push(m.edges, e, s);
        assert(cap_met(m, s));
    }
}

/// Whether `es` and `fs` have the same edges between the same scopes, the same ways round, their
/// rules aside.
pub open spec fn same_ways<B>(es: Seq<MissionEdge<B>>, fs: Seq<MissionEdge<B>>) -> bool {
    &&& es.len() == fs.len()
    &&& forall|k: int| 0 <= k < es.len() ==> (#[trigger] es[k]).from == fs[k].from && es[k].to == fs[k].to && es[k].reversible == fs[k].reversible
}

proof fn lemma_same_moves<B>(es: Seq<MissionEdge<B>>, fs: Seq<MissionEdge<B>>)
    requires
        same_ways(es, fs),
    ensures
        forall|x: Handle<Node<B>>, y: Handle<Node<B>>|
            #![trigger moves(es, Seq::empty(), false, x, y)]
            #![trigger moves(fs, Seq::empty(), false, x, y)]
            moves(es, Seq::empty(), false, x, y) == moves(fs, Seq::empty(), false, x, y),
{
    assert forall|x: Handle<Node<B>>, y: Handle<Node<B>>| #[trigger] moves(es, Seq::empty(), false, x, y) == moves(fs, Seq::empty(), false, x, y) by {
        if moves(es, Seq::empty(), false, x, y) {
            let k = choose|k: int| 0 <= k < es.len() && crossing(#[trigger] es[k], x) == Some(y) && (!false || satisfied(es[k].rule, Seq::empty()));
            assert(crossing(fs[k], x) == Some(y));
        }
        if moves(fs, Seq::empty(), false, x, y) {
            let k = choose|k: int| 0 <= k < fs.len() && crossing(#[trigger] fs[k], x) == Some(y) && (!false || satisfied(fs[k].rule, Seq::empty()));
            assert(crossing(es[k], x) == Some(y));
        }
    }
}

proof fn lemma_same_rings<B>(es: Seq<MissionEdge<B>>, fs: Seq<MissionEdge<B>>, origin: Handle<Node<B>>, k: nat)
    requires
        same_ways(es, fs),
    ensures
        forall|y: Handle<Node<B>>|
            #![trigger in_ring(es, origin, k, y)]
            #![trigger in_ring(fs, origin, k, y)]
            in_ring(es, origin, k, y) == in_ring(fs, origin, k, y),
        forall|y: Handle<Node<B>>|
            #![trigger in_within(es, origin, k, y)]
            #![trigger in_within(fs, origin, k, y)]
            in_within(es, origin, k, y) == in_within(fs, origin, k, y),
    decreases k,
{
    if k > 0 {
        let j = (k - 1) as nat;
        lemma_same_rings(es, fs, origin, j);
        lemma_same_moves(es, fs);
        assert forall|y: Handle<Node<B>>| #[trigger] in_ring(es, origin, k, y) == in_ring(fs, origin, k, y) by {
            assert(in_within(es, origin, j, y) == in_within(fs, origin, j, y));
            if in_ring(es, origin, k, y) {
                let x = choose|x: Handle<Node<B>>| in_ring(es, origin, j, x) && #[trigger] moves(es, Seq::empty(), false, x, y);
                assert(in_ring(fs, origin, j, x) && moves(fs, Seq::empty(), false, x, y));
            }
            if in_ring(fs, origin, k, y) {
                let x = choose|x: Handle<Node<B>>| in_ring(fs, origin, j, x) && #[trigger] moves(fs, Seq::empty(), false, x, y);
                assert(in_ring(es, origin, j, x) && moves(es, Seq::empty(), false, x, y));
            }
        }
        assert forall|y: Handle<Node<B>>| #[trigger] in_within(es, origin, k, y) == in_within(fs, origin, k, y) by {
            assert(in_within(es, origin, j, y) == in_within(fs, origin, j, y));
            assert(in_ring(es, origin, k, y) == in_ring(fs, origin, k, y));
        }
    }
}

proof fn lemma_same_reach<B>(es: Seq<MissionEdge<B>>, fs: Seq<MissionEdge<B>>, a: Handle<Node<B>>, b: Handle<Node<B>>)
    requires
        same_ways(es, fs),
    ensures
        reaches(es, Seq::empty(), false, a, b) == reaches(fs, Seq::empty(), false, a, b),
{
    lemma_same_moves(es, fs);
    assert forall|w: Seq<Handle<Node<B>>>|
        #![trigger is_walk(es, Seq::empty(), false, w)]
        #![trigger is_walk(fs, Seq::empty(), false, w)]
        is_walk(es, Seq::empty(), false, w) == is_walk(fs, Seq::empty(), false, w) by {
        assert forall|i: int|
            #![trigger hop(es, Seq::empty(), false, w, i)]
            #![trigger hop(fs, Seq::empty(), false, w, i)]
            0 <= i < w.len() - 1 implies hop(es, Seq::empty(), false, w, i) == hop(fs, Seq::empty(), false, w, i) by {
            assert(moves(es, Seq::empty(), false, w[i], w[i + 1]) == moves(fs, Seq::empty(), false, w[i], w[i + 1]));
        }
    }
    if reaches(es, Seq::empty(), false, a, b) {
        let w = choose|w: Seq<Handle<Node<B>>>| #[trigger] is_walk(es, Seq::empty(), false, w) && w[0] == a && w.last() == b;
        assert(is_walk(fs, Seq::empty(), false, w));
    }
    if reaches(fs, Seq::empty(), false, a, b) {
        let w = choose|w: Seq<Handle<Node<B>>>| #[trigger] is_walk(fs, Seq::empty(), false, w) && w[0] == a && w.last() == b;
        assert(is_walk(es, Seq::empty(), false, w));
    }
}

/// Gating an edge never moves anything nearer or further: which scopes have a distance from
/// `origin`, and what it is, stay the same when any edge's rule is replaced.
pub proof fn law_gating_leaves_distances_alone<B>(m: MissionView<B>, index: int, rule: Rule, origin: Handle<Node<B>>, k: nat, y: Handle<Node<B>>)
    requires
        0 <= index < m.edges.len(),
    ensures
        ({
            let gated = m.edges.update(index, MissionEdge::<B> { rule, ..m.edges[index] });
            &&& reaches(m.edges, Seq::empty(), false, origin, y) == reaches(gated, Seq::empty(), false, origin, y)
            &&& in_ring(m.edges, origin, k, y) == in_ring(gated, origin, k, y)
        }),
{
    let gated = m.edges.update(index, MissionEdge::<B> { rule, ..m.edges[index] });
    assert(same_ways(m.edges, gated));
    lemma_same_reach(m.edges, gated, origin, y);
    lemma_same_rings(m.edges, gated, origin, k);
}

// ---------------------------------------------------------------------------------------------
// Wire form of an edge
// ---------------------------------------------------------------------------------------------

impl<B> DeepView for MissionEdge<B> {
    type V = ((u32, u32), (u32, u32), RuleView, bool, bool);

    open spec fn deep_view(&self) -> ((u32, u32), (u32, u32), RuleView, bool, bool) {
        (self.from.deep_view(), self.to.deep_view(), self.rule.deep_view(), self.reversible, self.is_shortcut)
    }
}

impl<B> Serialize for MissionEdge<B> {
    open spec fn encodable(v: ((u32, u32), (u32, u32), RuleView, bool, bool)) -> bool {
        &&& Handle::<Node<B>>::encodable(v.0)
        &&& Handle::<Node<B>>::encodable(v.1)
        &&& Rule::encodable(v.2)
    }

    /// Both ends, the rule, then whether it is reversible and whether it is a shortcut.
    open spec fn encoding(v: ((u32, u32), (u32, u32), RuleView, bool, bool)) -> Seq<u8> {
        Handle::<Node<B>>::encoding(v.0) + Handle::<Node<B>>::encoding(v.1) + Rule::encoding(v.2) + enc_bool(v.3) + enc_bool(v.4)
    }

    fn serialize(&self, w: &mut Writer) {
        w.write(&self.from);
        w.write(&self.to);
        w.write(&self.rule);
        w.bool(self.reversible);
        w.bool(self.is_shortcut);
    }
}

impl<B> Deserialize for MissionEdge<B> {
    open spec fn decoding(rest: Seq<u8>) -> Result<(((u32, u32), (u32, u32), RuleView, bool, bool), nat), SerError> {
        match Handle::<Node<B>>::decoding(rest) {
            Err(e) => Err(e),
            Ok((f, a)) => match Handle::<Node<B>>::decoding(rest.skip(a as int)) {
                Err(e) => Err(e),
                Ok((t, b)) => match Rule::decoding(rest.skip((a + b) as int)) {
                    Err(e) => Err(e),
                    Ok((r, c)) => match dec_bool(rest.skip((a + b + c) as int)) {
                        Err(e) => Err(e),
                        Ok((rev, d)) => match dec_bool(rest.skip((a + b + c + d) as int)) {
                            Err(e) => Err(e),
                            Ok((sc, g)) => Ok(((f, t, r, rev, sc), a + b + c + d + g)),
                        },
                    },
                },
            },
        }
    }

    fn deserialize(r: &mut Reader<'_>) -> (res: SerResult<MissionEdge<B>>) {
        proof {
            use_type_invariant(&*r);
        }
        let ghost r0 = r.rest();
        let ghost at0 = r.at();
        let from: Handle<Node<B>> = r.read()?;
        proof {
            use_type_invariant(&*r);
        }
        let ghost a = (r.at() - at0) as nat;
        proof {
            assert(r.rest() =~= r0.skip(a as int));
        }
        let to: Handle<Node<B>> = r.read()?;
        proof {
            use_type_invariant(&*r);
        }
        let ghost b = (r.at() - at0 - a) as nat;
        proof {
            assert(r.rest() =~= r0.skip((a + b) as int));
        }
        let rule: Rule = r.read()?;
        proof {
            use_type_invariant(&*r);
        }
        let ghost c = (r.at() - at0 - a - b) as nat;
        proof {
            assert(r.rest() =~= r0.skip((a + b + c) as int));
        }
        let reversible = r.bool()?;
        proof {
            use_type_invariant(&*r);
        }
        let ghost d = (r.at() - at0 - a - b - c) as nat;
        proof {
            assert(r.rest() =~= r0.skip((a + b + c + d) as int));
        }
        let is_shortcut = r.bool()?;
        Ok(MissionEdge { from, to, rule, reversible, is_shortcut })
    }
}

proof fn lemma_skip_after(x: Seq<u8>, y: Seq<u8>, k: int)
    requires
        0 <= k <= y.len(),
    ensures
        (x + y).skip(x.len() + k) == y.skip(k),
{
    assert((x + y).skip(x.len() + k) =~= y.skip(k));
}

impl<B> Codec for MissionEdge<B> {
    #[verifier::spinoff_prover]
    #[verifier::rlimit(80)]
    proof fn lemma_round_trip(v: ((u32, u32), (u32, u32), RuleView, bool, bool), rest: Seq<u8>) {
        let ef = Handle::<Node<B>>::encoding(v.0);
        let et = Handle::<Node<B>>::encoding(v.1);
        let er = Rule::encoding(v.2);
        let e3 = enc_bool(v.3);
        let e4 = enc_bool(v.4);
        let t4 = e4 + rest;
        let t3 = e3 + t4;
        let t2 = er + t3;
        let t1 = et + t2;
        let all = ef + t1;
        assert(Self::encoding(v) + rest =~= all);
        let (a, b, c, d) = (ef.len(), et.len(), er.len(), e3.len());
        Handle::<Node<B>>::lemma_round_trip(v.0, t1);
        assert(Handle::<Node<B>>::decoding(all) == Ok::<((u32, u32), nat), SerError>((v.0, a)));
        lemma_skip_after(ef, t1, 0);
        assert(all.skip(a as int) == t1);
        Handle::<Node<B>>::lemma_round_trip(v.1, t2);
        assert(Handle::<Node<B>>::decoding(t1) == Ok::<((u32, u32), nat), SerError>((v.1, b)));
        lemma_skip_after(ef, t1, b as int);
        lemma_skip_after(et, t2, 0);
        assert(all.skip((a + b) as int) == t2);
        Rule::lemma_round_trip(v.2, t3);
        assert(Rule::decoding(t2) == Ok::<(RuleView, nat), SerError>((v.2, c)));
        lemma_skip_after(et, t2, c as int);
        lemma_skip_after(er, t3, 0);
        assert(all.skip((a + b + c) as int) == t3);
        <bool as Codec>::lemma_round_trip(v.3, t4);
        assert(dec_bool(t3) == Ok::<(bool, nat), SerError>((v.3, d)));
        lemma_skip_after(er, t3, d as int);
        lemma_skip_after(e3, t4, 0);
        assert(all.skip((a + b + c + d) as int) == t4);
        <bool as Codec>::lemma_round_trip(v.4, rest);
        assert(dec_bool(t4) == Ok::<(bool, nat), SerError>((v.4, e4.len())));
        assert(Self::encoding(v).len() == a + b + c + d + e4.len());
    }
}

// ---------------------------------------------------------------------------------------------
// Closure of a sweep
// ---------------------------------------------------------------------------------------------

/// No edge's rule uses negation.
pub open spec fn rules_free<B>(es: Seq<MissionEdge<B>>) -> bool {
    forall|k: int| 0 <= k < es.len() ==> negation_free(#[trigger] es[k].rule)
}

/// Every scope `a` lists, `b` lists.
pub open spec fn scopes_within<B>(a: Seq<Handle<Node<B>>>, b: Seq<Handle<Node<B>>>) -> bool {
    forall|x: Handle<Node<B>>| #[trigger] a.contains(x) ==> b.contains(x)
}

/// A state nothing more can be added to: every scope a walk reaches with what it holds is in it,
/// and everything a location in one of its scopes yields is held.
pub open spec fn closed<B>(inp: SweepInput<B>, g: SweepState<B>) -> bool {
    &&& forall|x: Handle<Node<B>>| #[trigger] reaches(inp.graph.edges, g.held, true, inp.origin, x) ==> g.scopes.contains(x)
    &&& forall|x: Handle<Node<B>>, l: LocationId, c: ObjectId|
        g.scopes.contains(x) && #[trigger] ids_in(inp.graph.locations, x).contains(l) && #[trigger] yield_of(inp, l).contains(c)
            ==> g.held.contains(c)
}

/// `st` is contained in every closed state that holds everything in `initial`.
pub open spec fn least<B>(inp: SweepInput<B>, initial: Seq<ObjectId>, st: SweepState<B>) -> bool {
    forall|g: SweepState<B>|
        #[trigger] closed(inp, g) && holds_all(initial, g.held) ==> scopes_within(st.scopes, g.scopes) && holds_all(st.held, g.held)
}

/// With rules free of negation, a walk that passes holding `held` passes holding more.
pub proof fn lemma_reach_grows<B>(es: Seq<MissionEdge<B>>, held: Seq<ObjectId>, more: Seq<ObjectId>, a: Handle<Node<B>>, b: Handle<Node<B>>)
    requires
        rules_free(es),
        holds_all(held, more),
        reaches(es, held, true, a, b),
    ensures
        reaches(es, more, true, a, b),
{
    let w = choose|w: Seq<Handle<Node<B>>>| #[trigger] is_walk(es, held, true, w) && w[0] == a && w.last() == b;
    assert forall|i: int| 0 <= i < w.len() - 1 implies #[trigger] hop(es, more, true, w, i) by {
        assert(hop(es, held, true, w, i));
        let k = choose|k: int| 0 <= k < es.len() && crossing(#[trigger] es[k], w[i]) == Some(w[i + 1]) && (!true || satisfied(es[k].rule, held));
        law_more_held_keeps_a_rule_met(es[k].rule, held, more);
        assert(crossing(es[k], w[i]) == Some(w[i + 1]) && satisfied(es[k].rule, more));
    }
    assert(is_walk(es, more, true, w));
}

/// **Holding more never reaches less**: with no edge rule using negation, whatever a sweep that
/// starts holding `held` makes accessible, a sweep from the same place holding everything that and
/// more makes accessible too. Stated over what `sweep_from` ensures of its two results.
pub proof fn law_more_capabilities_never_reach_less<B>(
    inp: SweepInput<B>,
    held: Seq<ObjectId>,
    more: Seq<ObjectId>,
    fewer_result: SweepState<B>,
    more_result: SweepState<B>,
)
    requires
        rules_free(inp.graph.edges),
        holds_all(held, more),
        least(inp, held, fewer_result),
        closed(inp, more_result),
        holds_all(more, more_result.held),
    ensures
        scopes_within(fewer_result.scopes, more_result.scopes),
        holds_all(fewer_result.held, more_result.held),
{
    assert(closed(inp, more_result) && holds_all(held, more_result.held));
}

/// The ids of the locations in scopes `ss`, scope by scope, are the ids in any one of them.
pub(crate) proof fn lemma_ids_in_all<B>(locations: Seq<(LocationId, Location<B>)>, ss: Seq<Handle<Node<B>>>, l: LocationId)
    ensures
        ids_in_all(locations, ss).contains(l) <==> exists|j: int| 0 <= j < ss.len() && #[trigger] ids_in(locations, ss[j]).contains(l),
    decreases ss.len(),
{
    if ss.len() == 0 {
        assert(ids_in_all(locations, ss) =~= Seq::<LocationId>::empty());
    } else {
        let d = ss.drop_last();
        lemma_ids_in_all(locations, d, l);
        let a = ids_in_all(locations, d);
        let b = ids_in(locations, ss.last());
        assert(ids_in_all(locations, ss) == a + b);
        if (a + b).contains(l) {
            let w = choose|w: int| 0 <= w < (a + b).len() && (a + b)[w] == l;
            if w < a.len() {
                assert(a[w] == l);
                assert(a.contains(l));
                let j = choose|j: int| 0 <= j < d.len() && #[trigger] ids_in(locations, d[j]).contains(l);
                assert(ss[j] == d[j]);
                assert(ids_in(locations, ss[j]).contains(l));
            } else {
                assert(b[w - a.len()] == l);
                assert(b.contains(l));
                assert(ss[ss.len() - 1] == ss.last());
                assert(ids_in(locations, ss[ss.len() - 1]).contains(l));
            }
        }
        if exists|j: int| 0 <= j < ss.len() && #[trigger] ids_in(locations, ss[j]).contains(l) {
            let j = choose|j: int| 0 <= j < ss.len() && #[trigger] ids_in(locations, ss[j]).contains(l);
            if j < d.len() {
                assert(d[j] == ss[j]);
                assert(ids_in(locations, d[j]).contains(l));
                assert(a.contains(l));
                let w = choose|w: int| 0 <= w < a.len() && a[w] == l;
                assert((a + b)[w] == l);
            } else {
                assert(ss[j] == ss.last());
                assert(b.contains(l));
                let w = choose|w: int| 0 <= w < b.len() && b[w] == l;
                assert((a + b)[a.len() + w] == l);
            }
        }
    }
}

/// What a filter keeps: exactly the members that pass.
proof fn lemma_filter_has<A>(s: Seq<A>, p: spec_fn(A) -> bool, x: A)
    ensures
        s.filter(p).contains(x) <==> (s.contains(x) && p(x)),
{
    if s.filter(p).contains(x) {
        s.lemma_filter_contains_rev(p, x);
        let i = choose|i: int| 0 <= i < s.filter(p).len() && s.filter(p)[i] == x;
        s.lemma_filter_pred(p, i);
    }
    if s.contains(x) && p(x) {
        let i = choose|i: int| 0 <= i < s.len() && s[i] == x;
        s.lemma_filter_contains(p, i);
    }
}

} // verus!
