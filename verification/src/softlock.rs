//! The un-softlockable guarantee: from every state a player can reach, the goal must remain
//! reachable. The danger lives at one-way commits, and the analysis asks, for every capability set
//! a player could hold when crossing one, whether the goal is still reachable. Those sets are
//! enumerated here, by index and in a fixed order, so the order depends only on the input.

use crate::handle::Handle;
use crate::mission::{insert_sorted, satisfied, strictly_sorted, LocationId};
use crate::mission_graph::{access_view, count_edges, by_raw, fresh_unlocks, grants_view, holds_handle, holds_id, ids_in, ids_in_all, lemma_ids_in_all, lemma_is_sorted_set, not_listed, reaches, sorted_set, swept, yield_in, Location, MissionEdge, MissionGraph, MissionView, SweepInput};
use crate::object::ObjectId;
use crate::scope_graph::Node;
use crate::text::{decimal, decimal_text};
use vstd::prelude::*;

verus! {

broadcast use ObjectId::lemma_raw_determines;

/// What kind of trap was found.
#[derive(Clone, Copy, Debug, PartialEq, Eq, Structural)]
pub enum SoftlockKind {
    /// After the commit, the goal can no longer be reached at all.
    GoalUnreachable,
    /// The goal is unreachable and no recovery point is available either: the same condition,
    /// distinguished because the fix differs (a route versus a warp).
    NoRecovery,
}

impl SoftlockKind {
    /// How the kind reads in a hazard report.
    pub fn to_string(&self) -> (s: String)
        ensures
            s@ == match *self {
                SoftlockKind::GoalUnreachable => "goal unreachable"@,
                SoftlockKind::NoRecovery => "no recovery available"@,
            },
    {
        String::from_str(
            match self {
                SoftlockKind::GoalUnreachable => "goal unreachable",
                SoftlockKind::NoRecovery => "no recovery available",
            },
        )
    }
}

/// Why the analysis could not be completed.
#[derive(Clone, Debug, PartialEq, Eq)]
pub enum AnalysisLimit {
    /// More capabilities than the configured bound.
    TooManyCapabilities { found: usize, limit: usize },
    /// The graph declares no goal.
    NoGoal,
}

impl AnalysisLimit {
    /// Why the analysis stopped, in words that say what to change.
    pub fn to_string(&self) -> (s: String)
        ensures
            s@ == match *self {
                AnalysisLimit::TooManyCapabilities { found, limit } => decimal(found as nat)
                    + " capabilities exceeds the analysis bound of "@ + decimal(limit as nat)
                    + "; raise SoftlockAnalyzer::max_capabilities or reduce progression items"@,
                AnalysisLimit::NoGoal => "the mission graph declares no goal, so softlocks are undefined"@,
            },
    {
        match self {
            AnalysisLimit::TooManyCapabilities { found, limit } => {
                let mut s = decimal_text(*found as u64);
                s.append(" capabilities exceeds the analysis bound of ");
                let l = decimal_text(*limit as u64);
                s.append(l.as_str());
                s.append("; raise SoftlockAnalyzer::max_capabilities or reduce progression items");
                s
            },
            AnalysisLimit::NoGoal => String::from_str(
                "the mission graph declares no goal, so softlocks are undefined",
            ),
        }
    }
}

/// Every strictly increasing run of `k` indices drawn from `start..n`, in lexicographic order:
/// first those that begin with `start`, then those that do not.
pub open spec fn index_sets(n: nat, start: nat, k: nat) -> Seq<Seq<nat>>
    decreases n - start,
{
    if k == 0 {
        seq![Seq::empty()]
    } else if start >= n {
        Seq::empty()
    } else {
        index_sets(n, start + 1, (k - 1) as nat).map_values(|c: Seq<nat>| seq![start] + c)
            + index_sets(n, start + 1, k)
    }
}

/// The items at a run of indices.
pub open spec fn pick<T>(items: Seq<T>, c: Seq<nat>) -> Seq<T> {
    c.map_values(|i: nat| items[i as int])
}

/// The items at each run of indices.
pub open spec fn picks<T>(items: Seq<T>, cs: Seq<Seq<nat>>) -> Seq<Seq<T>> {
    cs.map_values(|c: Seq<nat>| pick(items, c))
}

/// The items at each run of indices, each run led by `s`.
pub open spec fn picks_after<T>(items: Seq<T>, s: nat, cs: Seq<Seq<nat>>) -> Seq<Seq<T>> {
    cs.map_values(|c: Seq<nat>| pick(items, seq![s] + c))
}

/// The plain values of a list of vectors.
pub open spec fn rows<T>(v: Seq<Vec<T>>) -> Seq<Seq<T>> {
    v.map_values(|r: Vec<T>| r@)
}

/// The number of ways to choose `k` of `m`.
pub open spec fn binomial(m: nat, k: nat) -> nat
    decreases m,
{
    if k == 0 {
        1
    } else if m == 0 {
        0
    } else {
        binomial((m - 1) as nat, (k - 1) as nat) + binomial((m - 1) as nat, k)
    }
}

fn combinations_from<T: Copy>(items: &[T], start: usize, k: usize) -> (out: Vec<Vec<T>>)
    requires
        start <= items@.len(),
    ensures
        rows(out@) == picks(items@, index_sets(items@.len(), start as nat, k as nat)),
    decreases items@.len() - start,
{
    let ghost n = items@.len();
    if k == 0 {
        let mut out: Vec<Vec<T>> = Vec::new();
        out.push(Vec::new());
        assert(pick(items@, Seq::<nat>::empty()) =~= Seq::<T>::empty());
        assert(rows(out@) =~= picks(items@, index_sets(n, start as nat, k as nat)));
        return out;
    }
    if start >= items.len() {
        let out: Vec<Vec<T>> = Vec::new();
        assert(rows(out@) =~= picks(items@, index_sets(n, start as nat, k as nat)));
        return out;
    }
    let with = combinations_from(items, start + 1, k - 1);
    let without = combinations_from(items, start + 1, k);
    let ghost w = index_sets(n, (start + 1) as nat, (k - 1) as nat);
    let ghost wo = index_sets(n, (start + 1) as nat, k as nat);
    let mut out: Vec<Vec<T>> = Vec::new();
    let mut i: usize = 0;
    while i < with.len()
        invariant
            n == items@.len(),
            w == index_sets(n, (start + 1) as nat, (k - 1) as nat),
            i <= with@.len(),
            rows(with@) == picks(items@, w),
            rows(out@) == picks_after(items@, start as nat, w.take(i as int)),
            start < items@.len(),
        decreases with@.len() - i,
    {
        let mut row: Vec<T> = Vec::new();
        row.push(items[start]);
        let mut j: usize = 0;
        while j < with[i].len()
            invariant
                i < with@.len(),
                start < items@.len(),
                j <= with@[i as int]@.len(),
                row@ == seq![items@[start as int]] + with@[i as int]@.take(j as int),
            decreases with@[i as int]@.len() - j,
        {
            row.push(with[i][j]);
            assert(with@[i as int]@.take(j + 1) =~= with@[i as int]@.take(j as int).push(
                with@[i as int]@[j as int],
            ));
            j += 1;
        }
        let ghost before = rows(out@);
        out.push(row);
        proof {
            assert(with@[i as int]@.take(with@[i as int]@.len() as int) =~= with@[i as int]@);
            assert(rows(with@).len() == with@.len());
            assert(picks(items@, w).len() == w.len());
            assert(i < w.len());
            assert(rows(with@)[i as int] == with@[i as int]@);
            assert(picks(items@, w)[i as int] == pick(items@, w[i as int]));
            assert(rows(with@)[i as int] == pick(items@, w[i as int]));
            assert(pick(items@, seq![start as nat] + w[i as int]) =~= seq![items@[start as int]]
                + pick(items@, w[i as int]));
            assert(rows(out@) =~= before.push(pick(items@, seq![start as nat] + w[i as int])));
            assert(w.take(i + 1) =~= w.take(i as int).push(w[i as int]));
            assert(picks_after(items@, start as nat, w.take(i + 1))
                =~= picks_after(items@, start as nat, w.take(i as int)).push(pick(items@, seq![start as nat] + w[i as int])));
        }
        i += 1;
    }
    let ghost head = rows(out@);
    let mut rest = without;
    out.append(&mut rest);
    proof {
        assert(w.take(w.len() as int) =~= w);
        let whole = index_sets(n, start as nat, k as nat);
        let firsts = w.map_values(|c: Seq<nat>| seq![start as nat] + c);
        assert(whole == firsts + wo);
        assert(rows(with@).len() == w.len());
        assert(head == picks_after(items@, start as nat, w));
        assert forall|j: int| 0 <= j < w.len() implies #[trigger] picks(items@, firsts)[j]
            == picks_after(items@, start as nat, w)[j] by {
            assert(firsts[j] == seq![start as nat] + w[j]);
        }
        assert(head =~= picks(items@, firsts));
        assert(rows(out@) =~= head + picks(items@, wo));
        assert(picks(items@, firsts + wo) =~= picks(items@, firsts) + picks(items@, wo));
    }
    out
}

/// Every `size`-element combination of `items`, in a deterministic order: by index, lexicographic.
pub fn combinations<T: Copy>(items: &[T], size: usize) -> (out: Vec<Vec<T>>)
    ensures
        rows(out@) == picks(items@, index_sets(items@.len(), 0, size as nat)),
{
    combinations_from(items, 0, size)
}

/// `c` holds `k` indices, strictly increasing, each in `lo..hi`.
pub open spec fn increasing_within(c: Seq<nat>, k: nat, lo: nat, hi: nat) -> bool {
    &&& c.len() == k
    &&& forall|a: int, b: int| 0 <= a < b < c.len() ==> #[trigger] c[a] < #[trigger] c[b]
    &&& forall|a: int| 0 <= a < c.len() ==> lo <= #[trigger] c[a] < hi
}

/// There are exactly "`n` choose `k`" combinations, each a strictly increasing run of indices
/// below `n`.
pub proof fn law_combinations_are_complete_and_ordered(n: nat, start: nat, k: nat)
    requires
        start <= n,
    ensures
        index_sets(n, start, k).len() == binomial((n - start) as nat, k),
        forall|i: int|
            0 <= i < index_sets(n, start, k).len() ==> increasing_within(
                #[trigger] index_sets(n, start, k)[i],
                k,
                start,
                n,
            ),
    decreases n - start,
{
    if k == 0 {
    } else if start >= n {
    } else {
        law_combinations_are_complete_and_ordered(n, start + 1, (k - 1) as nat);
        law_combinations_are_complete_and_ordered(n, start + 1, k);
        let w = index_sets(n, start + 1, (k - 1) as nat);
        let wo = index_sets(n, start + 1, k);
        let firsts = w.map_values(|c: Seq<nat>| seq![start] + c);
        assert(index_sets(n, start, k) == firsts + wo);
        assert((n - start - 1) as nat == ((n - start) as nat - 1) as nat);
        assert forall|i: int| 0 <= i < index_sets(n, start, k).len() implies increasing_within(
            #[trigger] index_sets(n, start, k)[i],
            k,
            start,
            n,
        ) by {
            if i < firsts.len() {
                let d = w[i];
                assert(increasing_within(d, (k - 1) as nat, start + 1, n));
                let c = seq![start] + d;
                assert(index_sets(n, start, k)[i] == c);
                assert forall|a: int, b: int| 0 <= a < b < c.len() implies #[trigger] c[a]
                    < #[trigger] c[b] by {
                    assert(c[b] == d[b - 1]);
                    if a > 0 {
                        assert(c[a] == d[a - 1]);
                        assert(d[a - 1] < d[b - 1]);
                    } else {
                        assert(start + 1 <= d[b - 1]);
                    }
                }
                assert forall|a: int| 0 <= a < c.len() implies start <= #[trigger] c[a] < n by {
                    if a > 0 {
                        assert(c[a] == d[a - 1]);
                        assert(start + 1 <= d[a - 1] < n);
                    }
                }
            } else {
                assert(index_sets(n, start, k)[i] == wo[i - firsts.len()]);
                assert(increasing_within(wo[i - firsts.len()], k, start + 1, n));
            }
        }
    }
}

// ---------------------------------------------------------------------------------------------
// The analysis
// ---------------------------------------------------------------------------------------------

/// What a softlock analysis reads: the world, what sits where, what each item grants, and what the
/// player starts with.
pub struct Setting<B> {
    /// The mission graph.
    pub graph: MissionView<B>,
    /// The item at each location.
    pub placements: Seq<(LocationId, ObjectId)>,
    /// The unlocks each item grants.
    pub grants: Seq<(ObjectId, Seq<ObjectId>)>,
    /// What the player starts with.
    pub initial: Seq<ObjectId>,
}

/// Everything in `a` is in `b`.
pub open spec fn within(a: Seq<ObjectId>, b: Seq<ObjectId>) -> bool {
    forall|x: ObjectId| #[trigger] a.contains(x) ==> b.contains(x)
}

/// Holding `held`, can a player collect `c`? Some location in a scope they can walk to from the
/// start yields it.
pub open spec fn collectible<B>(st: Setting<B>, held: Seq<ObjectId>, c: ObjectId) -> bool {
    exists|x: Handle<Node<B>>, l: LocationId|
        reaches(st.graph.edges, held, true, st.graph.start, x) && #[trigger] ids_in(st.graph.locations, x).contains(l)
            && #[trigger] yield_in(st.placements, st.grants, l).contains(c)
}

/// Could a player be holding exactly `held`? Everything in it is held from the start, or can be
/// collected using only `held`.
pub open spec fn achievable<B>(st: Setting<B>, held: Seq<ObjectId>) -> bool {
    forall|c: ObjectId| #[trigger] held.contains(c) ==> st.initial.contains(c) || collectible(st, held, c)
}

/// Holding `held`, can a player get to edge `i` and cross it?
pub open spec fn crossable<B>(st: Setting<B>, i: int, held: Seq<ObjectId>) -> bool {
    &&& satisfied(st.graph.edges[i].rule, held)
    &&& reaches(st.graph.edges, held, true, st.graph.start, st.graph.edges[i].from)
}

/// Dropped through edge `i` holding `held`, is the player stranded: can they reach neither the goal
/// nor any recovery point, whatever they collect on the far side?
pub open spec fn stranded<B>(st: Setting<B>, i: int, held: Seq<ObjectId>, goal: Handle<Node<B>>) -> bool {
    let after = swept(
        SweepInput { graph: st.graph, origin: st.graph.edges[i].to, placements: st.placements, grants: st.grants },
        held,
    );
    &&& !after.scopes.contains(goal)
    &&& forall|r: Handle<Node<B>>| #[trigger] st.graph.recovery.contains(r) ==> !after.scopes.contains(r)
}

/// Every capability a player could ever hold from the start: the unlocks of a full sweep.
pub open spec fn obtainable<B>(st: Setting<B>) -> Seq<ObjectId> {
    swept(SweepInput { graph: st.graph, origin: st.graph.start, placements: st.placements, grants: st.grants }, st.initial).held
}

/// What kind a hazard is: with no recovery point declared, the goal is simply unreachable.
pub open spec fn kind_for<B>(m: MissionView<B>) -> SoftlockKind {
    if m.recovery.len() == 0 {
        SoftlockKind::GoalUnreachable
    } else {
        SoftlockKind::NoRecovery
    }
}

/// A concrete way a player can strand themselves, with the exact capability set that traps them.
#[derive(Clone, Debug, PartialEq)]
pub struct Softlock<B> {
    /// Index of the one-way edge that commits the player.
    pub edge: usize,
    /// Where they cross from.
    pub from: Handle<Node<B>>,
    /// Where they land.
    pub to: Handle<Node<B>>,
    /// The capabilities they hold at the moment of crossing, in id order: the reproduction case.
    pub holding: Vec<ObjectId>,
    /// What kind of trap.
    pub kind: SoftlockKind,
}

/// `h` is a real trap: a one-way edge, a capability set a player can hold that lets them cross it,
/// and nothing reachable on the far side that leads to the goal or a recovery point.
pub open spec fn hazard_real<B>(st: Setting<B>, goal: Handle<Node<B>>, h: Softlock<B>) -> bool {
    let i = h.edge as int;
    &&& 0 <= i < st.graph.edges.len()
    &&& !st.graph.edges[i].reversible
    &&& h.from == st.graph.edges[i].from
    &&& h.to == st.graph.edges[i].to
    &&& strictly_sorted(h.holding@)
    &&& within(st.initial, h.holding@)
    &&& achievable(st, h.holding@)
    &&& crossable(st, i, h.holding@)
    &&& stranded(st, i, h.holding@, goal)
    &&& h.kind == kind_for(st.graph)
}

/// How a hazard reads: the edge, how many capabilities, and the kind.
pub open spec fn softlock_text<B>(h: Softlock<B>) -> Seq<char> {
    "one-way edge "@ + decimal(h.edge as nat) + " strands a player holding "@ + decimal(h.holding@.len())
        + if h.holding@.len() == 1 {
        " capability: "@
    } else {
        " capabilities: "@
    } + kind_text(h.kind)
}

/// How a kind reads.
pub open spec fn kind_text(k: SoftlockKind) -> Seq<char> {
    match k {
        SoftlockKind::GoalUnreachable => "goal unreachable"@,
        SoftlockKind::NoRecovery => "no recovery available"@,
    }
}

impl<B> Softlock<B> {
    /// How the hazard reads in a report.
    pub fn to_string(&self) -> (s: String)
        ensures
            s@ == softlock_text(*self),
    {
        let mut s = String::from_str("one-way edge ");
        let e = decimal_text(self.edge as u64);
        s.append(e.as_str());
        s.append(" strands a player holding ");
        let n = decimal_text(self.holding.len() as u64);
        s.append(n.as_str());
        if self.holding.len() == 1 {
            s.append(" capability: ");
        } else {
            s.append(" capabilities: ");
        }
        let k = self.kind.to_string();
        s.append(k.as_str());
        s
    }
}

/// The result of a reachability-preservation pass.
#[derive(Clone, Debug, PartialEq)]
pub struct SoftlockAnalysis<B> {
    /// Every way a player can strand themselves. Empty means the world is un-softlockable.
    pub hazards: Vec<Softlock<B>>,
    /// How many one-way commits were examined.
    pub commits_checked: usize,
    /// Capability sets evaluated: the cost model.
    pub states_examined: usize,
    /// Set when the analysis could not run to completion.
    pub limit: Option<AnalysisLimit>,
}

/// A change made to remove a hazard.
#[derive(Clone, Debug, PartialEq, Eq)]
pub enum Repair<B> {
    /// The one-way edge was made two-way: the player can climb back out.
    MadeReversible { edge: usize },
    /// The landing scope was marked a recovery point.
    AddedRecovery { scope: Handle<Node<B>> },
}

/// The edges the hazards name.
pub open spec fn names_edge<B>(hz: Seq<Softlock<B>>, e: usize) -> bool {
    exists|h: int| 0 <= h < hz.len() && (#[trigger] hz[h]).edge == e
}

/// Strictly increasing.
pub open spec fn increasing(v: Seq<usize>) -> bool {
    forall|i: int, j: int| 0 <= i < j < v.len() ==> #[trigger] v[i] < #[trigger] v[j]
}

/// The edges the hazards name, each once, in increasing order.
pub open spec fn edges_named<B>(hz: Seq<Softlock<B>>) -> Seq<usize> {
    choose|t: Seq<usize>| increasing(t) && forall|e: usize| #[trigger] t.contains(e) <==> names_edge(hz, e)
}

/// The edges of `todo` that are still one-way in `es`, in order.
pub open spec fn one_way_among<B>(es: Seq<MissionEdge<B>>, todo: Seq<usize>) -> Seq<usize>
    decreases todo.len(),
{
    if todo.len() == 0 {
        Seq::empty()
    } else {
        let rest = one_way_among(es, todo.drop_last());
        let e = todo.last();
        if e < es.len() && !es[e as int].reversible {
            rest.push(e)
        } else {
            rest
        }
    }
}

/// `es` with every edge of `todo` made two-way.
pub open spec fn made_two_way<B>(es: Seq<MissionEdge<B>>, todo: Seq<usize>) -> Seq<MissionEdge<B>> {
    Seq::new(es.len(), |k: int| if todo.contains(k as usize) {
        MissionEdge::<B> { reversible: true, ..es[k] }
    } else {
        es[k]
    })
}

impl<B> SoftlockAnalysis<B> {
    /// Did the analysis complete *and* find nothing? An incomplete analysis is never safe.
    pub fn is_un_softlockable(&self) -> (b: bool)
        ensures
            b == (self.limit is None && self.hazards@.len() == 0),
    {
        self.limit.is_none() && self.hazards.len() == 0
    }

    /// The one-way edges implicated, each once, in increasing order.
    pub fn hazardous_edges(&self) -> (v: Vec<usize>)
        ensures
            increasing(v@),
            forall|e: usize| #[trigger] v@.contains(e) <==> names_edge(self.hazards@, e),
            v@ == edges_named(self.hazards@),
    {
        let mut v: Vec<usize> = Vec::new();
        let mut i: usize = 0;
        while i < self.hazards.len()
            invariant
                i <= self.hazards@.len(),
                increasing(v@),
                forall|e: usize| #[trigger] v@.contains(e) <==> names_edge(self.hazards@.take(i as int), e),
            decreases self.hazards@.len() - i,
        {
            let e = self.hazards[i].edge;
            let ghost v0 = v@;
            let mut p: usize = 0;
            while p < v.len() && v[p] < e
                invariant
                    p <= v@.len(),
                    v@ == v0,
                    forall|q: int| 0 <= q < p ==> v@[q] < e,
                decreases v@.len() - p,
            {
                p += 1;
            }
            if p < v.len() && v[p] == e {
            } else {
                v.insert(p, e);
                proof {
                    assert forall|a: int, b: int| 0 <= a < b < v@.len() implies #[trigger] v@[a] < #[trigger] v@[b] by {
                        if b < p {
                            assert(v@[a] == v0[a] && v@[b] == v0[b]);
                        } else if b == p {
                            assert(v@[a] == v0[a]);
                        } else if a > p {
                            assert(v@[a] == v0[a - 1] && v@[b] == v0[b - 1]);
                        } else if a == p {
                            assert(v@[b] == v0[b - 1]);
                            if p < v0.len() {
                                assert(v0[p as int] >= e);
                                assert(v0[p as int] != e);
                            }
                        } else {
                            assert(v@[a] == v0[a] && v@[b] == v0[b - 1]);
                        }
                    }
                }
            }
            proof {
                let t0 = self.hazards@.take(i as int);
                let t1 = self.hazards@.take(i + 1);
                assert forall|x: usize| #[trigger] v@.contains(x) <==> names_edge(t1, x) by {
                    if v@.contains(x) {
                        let w = choose|w: int| 0 <= w < v@.len() && v@[w] == x;
                        if x != e {
                            if w < p {
                                assert(v0[w] == x);
                            } else if p < v0.len() && v0[p as int] == e {
                                assert(v0[w] == x);
                            } else if w > p {
                                assert(v0[w - 1] == x);
                            }
                            assert(v0.contains(x));
                            assert(names_edge(t0, x));
                            let h = choose|h: int| 0 <= h < t0.len() && (#[trigger] t0[h]).edge == x;
                            assert(t1[h] == t0[h]);
                        } else {
                            assert(t1[i as int].edge == e);
                        }
                    }
                    if names_edge(t1, x) {
                        let h = choose|h: int| 0 <= h < t1.len() && (#[trigger] t1[h]).edge == x;
                        if h < i {
                            assert(t0[h] == t1[h]);
                            assert(names_edge(t0, x));
                            assert(v0.contains(x));
                            let w = choose|w: int| 0 <= w < v0.len() && v0[w] == x;
                            if p < v0.len() && v0[p as int] == e {
                                assert(v@[w] == x);
                            } else if w < p {
                                assert(v@[w] == x);
                            } else {
                                assert(v@[w + 1] == x);
                            }
                        } else {
                            if p < v0.len() && v0[p as int] == e {
                                assert(v@[p as int] == x);
                            } else {
                                assert(v@[p as int] == x);
                            }
                        }
                    }
                }
            }
            i += 1;
        }
        assert(self.hazards@.take(i as int) =~= self.hazards@);
        proof {
            assert(increasing(v@) && forall|e: usize| #[trigger] v@.contains(e) <==> names_edge(self.hazards@, e));
            lemma_increasing_unique(edges_named(self.hazards@), v@);
        }
        v
    }

    /// Remove every hazard by making each offending edge two-way, reporting what was changed. A
    /// commit you can undo is not a commit.
    pub fn repair(&self, mission: &mut MissionGraph<B>) -> (done: Vec<Repair<B>>)
        requires
            old(mission).wf(),
        ensures
            final(mission).wf(),
            done@ == one_way_among(old(mission)@.edges, edges_named(self.hazards@)).map_values(|e: usize| Repair::<B>::MadeReversible { edge: e }),
            final(mission)@ == (MissionView::<B> { edges: made_two_way(old(mission)@.edges, edges_named(self.hazards@)), ..old(mission)@ }),
    {
        let edges = self.hazardous_edges();
        let ghost todo = edges_named(self.hazards@);

        let ghost m0 = mission@;
        let total = mission.edges().len();
        assert(made_two_way(m0.edges, todo.take(0)) =~= m0.edges);
        assert(one_way_among(m0.edges, todo.take(0)).map_values(|e: usize| Repair::<B>::MadeReversible { edge: e }) =~= Seq::<Repair<B>>::empty());
        let mut done: Vec<Repair<B>> = Vec::new();
        let mut i: usize = 0;
        while i < edges.len()
            invariant
                i <= edges@.len(),
                todo == edges@,
                increasing(todo),
                total == m0.edges.len(),
                mission.wf(),
                mission@ == (MissionView::<B> { edges: made_two_way(m0.edges, todo.take(i as int)), ..m0 }),
                done@ == one_way_among(m0.edges, todo.take(i as int)).map_values(|e: usize| Repair::<B>::MadeReversible { edge: e }),
            decreases edges@.len() - i,
        {
            let e = edges[i];
            let ghost before = mission@;
            let ghost t0 = todo.take(i as int);
            let ghost t1 = todo.take(i + 1);
            proof {
                assert(t1 =~= t0.push(e));
                assert(t1[i as int] == e);
                assert(!t0.contains(e)) by {
                    if t0.contains(e) {
                        let w = choose|w: int| 0 <= w < t0.len() && t0[w] == e;
                        assert(todo[w] < todo[i as int]);
                    }
                }
                if e < m0.edges.len() {
                    assert(before.edges[e as int] == m0.edges[e as int]);
                }
            }
            if mission.make_reversible(e) {
                done.push(Repair::MadeReversible { edge: e });
            }
            proof {
                assert(mission@.edges =~= made_two_way(m0.edges, t1)) by {
                    assert forall|k: int| 0 <= k < m0.edges.len() implies mission@.edges[k] == made_two_way(m0.edges, t1)[k] by {
                        if k == e as int {
                            assert(t1.contains(e));
                        } else {
                            assert(k as usize != e);
                            assert(t1.contains(k as usize) == t0.contains(k as usize)) by {
                                if t1.contains(k as usize) {
                                    let w = choose|w: int| 0 <= w < t1.len() && t1[w] == k as usize;
                                    if w < t0.len() {
                                        assert(t0[w] == k as usize);
                                    }
                                }
                                if t0.contains(k as usize) {
                                    let w = choose|w: int| 0 <= w < t0.len() && t0[w] == k as usize;
                                    assert(t1[w] == k as usize);
                                }
                            }
                        }
                    }
                }
                assert(t1.drop_last() =~= t0);
                assert(done@ =~= one_way_among(m0.edges, t1).map_values(|e: usize| Repair::<B>::MadeReversible { edge: e }));
            }
            i += 1;
        }
        assert(todo.take(i as int) =~= todo);
        done
    }
}

proof fn lemma_increasing_unique(a: Seq<usize>, b: Seq<usize>)
    requires
        increasing(a),
        increasing(b),
        forall|e: usize| #![trigger a.contains(e)] #![trigger b.contains(e)] a.contains(e) <==> b.contains(e),
    ensures
        a == b,
    decreases a.len(),
{
    if a.len() == 0 {
        if b.len() > 0 {
            assert(b.contains(b[0]));
        }
        assert(a =~= b);
    } else if b.len() == 0 {
        assert(a.contains(a[0]));
    } else {
        assert(a.contains(a[0]) && b.contains(b[0]));
        let i = choose|i: int| 0 <= i < a.len() && a[i] == b[0];
        let j = choose|j: int| 0 <= j < b.len() && b[j] == a[0];
        if i > 0 && j > 0 {
            assert(a[0] < a[i]);
            assert(b[0] < b[j]);
        }
        assert(a[0] == b[0]);
        let ra = a.drop_first();
        let rb = b.drop_first();
        assert forall|e: usize| #![trigger ra.contains(e)] #![trigger rb.contains(e)] ra.contains(e) <==> rb.contains(e) by {
            if ra.contains(e) {
                let w = choose|w: int| 0 <= w < ra.len() && ra[w] == e;
                assert(a[w + 1] == e);
                assert(b.contains(e));
                let v = choose|v: int| 0 <= v < b.len() && b[v] == e;
                assert(a[0] < a[w + 1]);
                assert(v != 0);
                assert(rb[v - 1] == e);
            }
            if rb.contains(e) {
                let w = choose|w: int| 0 <= w < rb.len() && rb[w] == e;
                assert(b[w + 1] == e);
                assert(a.contains(e));
                let v = choose|v: int| 0 <= v < a.len() && a[v] == e;
                assert(b[0] < b[w + 1]);
                assert(v != 0);
                assert(ra[v - 1] == e);
            }
        }
        assert(increasing(ra)) by {
            assert forall|p: int, q: int| 0 <= p < q < ra.len() implies #[trigger] ra[p] < #[trigger] ra[q] by {
                assert(ra[p] == a[p + 1] && ra[q] == a[q + 1]);
            }
        }
        assert(increasing(rb)) by {
            assert forall|p: int, q: int| 0 <= p < q < rb.len() implies #[trigger] rb[p] < #[trigger] rb[q] by {
                assert(rb[p] == b[p + 1] && rb[q] == b[q + 1]);
            }
        }
        lemma_increasing_unique(ra, rb);
        assert(a =~= seq![a[0]] + ra);
        assert(b =~= seq![b[0]] + rb);
    }
}

/// The capability set a combination stands for: what the player starts with, and the combination,
/// in id order.
pub open spec fn held_for(initial: Seq<ObjectId>, combo: Seq<ObjectId>) -> Seq<ObjectId> {
    sorted_set(|x: ObjectId| initial.contains(x) || combo.contains(x), by_raw())
}

/// A capability set examined at edge `i` and found safe: a player can hold it and cross, and on
/// the far side still reaches the goal or a recovery point.
pub open spec fn safe_at<B>(st: Setting<B>, i: int, goal: Handle<Node<B>>, s: Seq<ObjectId>) -> bool {
    &&& achievable(st, s)
    &&& crossable(st, i, s)
    &&& !stranded(st, i, s, goal)
}

/// Holding `held` at edge `i` is accounted for: no player crosses there holding it, or it is
/// reported, or a part of it was found safe there.
pub open spec fn accounted<B>(st: Setting<B>, goal: Handle<Node<B>>, hz: Seq<Softlock<B>>, i: int, held: Seq<ObjectId>) -> bool {
    ||| !(achievable(st, held) && crossable(st, i, held))
    ||| exists|h: int| 0 <= h < hz.len() && (#[trigger] hz[h]).edge == i && hz[h].holding@ == held
    ||| exists|s: Seq<ObjectId>| #[trigger] safe_at(st, i, goal, s) && within(s, held)
}

/// Every capability set the pass enumerates at edge `i` (what the player starts with, and each
/// combination of `universe`) is accounted for.
pub open spec fn edge_accounted<B>(st: Setting<B>, goal: Handle<Node<B>>, hz: Seq<Softlock<B>>, universe: Seq<ObjectId>, i: int) -> bool {
    forall|k: nat, c: int|
        k <= universe.len() && 0 <= c < index_sets(universe.len(), 0, k).len() ==> accounted(
            st,
            goal,
            hz,
            i,
            held_for(st.initial, pick(universe, #[trigger] index_sets(universe.len(), 0, k)[c])),
        )
}

/// Reported hazards stay reported.
proof fn lemma_accounted_grows<B>(st: Setting<B>, goal: Handle<Node<B>>, hz: Seq<Softlock<B>>, more: Seq<Softlock<B>>, i: int, held: Seq<ObjectId>)
    requires
        accounted(st, goal, hz, i, held),
        hz.len() <= more.len(),
        more.take(hz.len() as int) == hz,
    ensures
        accounted(st, goal, more, i, held),
{
    if exists|h: int| 0 <= h < hz.len() && (#[trigger] hz[h]).edge == i && hz[h].holding@ == held {
        let h = choose|h: int| 0 <= h < hz.len() && (#[trigger] hz[h]).edge == i && hz[h].holding@ == held;
        assert(more[h] == more.take(hz.len() as int)[h]);
    }
}

proof fn lemma_edge_accounted_grows<B>(st: Setting<B>, goal: Handle<Node<B>>, hz: Seq<Softlock<B>>, more: Seq<Softlock<B>>, u: Seq<ObjectId>, i: int)
    requires
        edge_accounted(st, goal, hz, u, i),
        hz.len() <= more.len(),
        more.take(hz.len() as int) == hz,
    ensures
        edge_accounted(st, goal, more, u, i),
{
    assert forall|k: nat, c: int|
        k <= u.len() && 0 <= c < index_sets(u.len(), 0, k).len() implies accounted(
            st,
            goal,
            more,
            i,
            held_for(st.initial, pick(u, #[trigger] index_sets(u.len(), 0, k)[c])),
        ) by {
        lemma_accounted_grows(st, goal, hz, more, i, held_for(st.initial, pick(u, index_sets(u.len(), 0, k)[c])));
    }
}

/// Every combination of `items` (by index) gives `initial` and it, in id order.
fn union_sorted(initial: &Vec<ObjectId>, combo: &Vec<ObjectId>) -> (held: Vec<ObjectId>)
    requires
        strictly_sorted(initial@),
    ensures
        held@ == held_for(initial@, combo@),
        strictly_sorted(held@),
        within(initial@, held@),
{
    let mut held: Vec<ObjectId> = Vec::new();
    let mut i: usize = 0;
    while i < initial.len()
        invariant
            i <= initial@.len(),
            strictly_sorted(held@),
            forall|x: ObjectId| held@.contains(x) <==> initial@.take(i as int).contains(x),
        decreases initial@.len() - i,
    {
        let ghost t0 = initial@.take(i as int);
        insert_sorted(&mut held, initial[i]);
        proof {
            let t1 = initial@.take(i + 1);
            assert(t1 =~= t0.push(initial@[i as int]));
            assert forall|x: ObjectId| held@.contains(x) <==> t1.contains(x) by {
                if t1.contains(x) {
                    let w = choose|w: int| 0 <= w < t1.len() && t1[w] == x;
                    if w < i {
                        assert(t0[w] == x);
                    }
                }
                if t0.contains(x) {
                    let w = choose|w: int| 0 <= w < t0.len() && t0[w] == x;
                    assert(t1[w] == x);
                }
                if x == initial@[i as int] {
                    assert(t1[i as int] == x);
                }
            }
        }
        i += 1;
    }
    assert(initial@.take(i as int) =~= initial@);
    let mut j: usize = 0;
    while j < combo.len()
        invariant
            j <= combo@.len(),
            strictly_sorted(held@),
            forall|x: ObjectId| held@.contains(x) <==> (initial@.contains(x) || combo@.take(j as int).contains(x)),
        decreases combo@.len() - j,
    {
        let ghost t0 = combo@.take(j as int);
        insert_sorted(&mut held, combo[j]);
        proof {
            let t1 = combo@.take(j + 1);
            assert(t1 =~= t0.push(combo@[j as int]));
            assert forall|x: ObjectId| held@.contains(x) <==> (initial@.contains(x) || t1.contains(x)) by {
                if t1.contains(x) {
                    let w = choose|w: int| 0 <= w < t1.len() && t1[w] == x;
                    if w < j {
                        assert(t0[w] == x);
                    }
                }
                if t0.contains(x) {
                    let w = choose|w: int| 0 <= w < t0.len() && t0[w] == x;
                    assert(t1[w] == x);
                }
                if x == combo@[j as int] {
                    assert(t1[j as int] == x);
                }
            }
        }
        j += 1;
    }
    assert(combo@.take(j as int) =~= combo@);
    proof {
        lemma_is_sorted_set(held@, |x: ObjectId| initial@.contains(x) || combo@.contains(x), by_raw());
    }
    held
}

/// Is every member of `a` in `b`?
fn is_within(a: &Vec<ObjectId>, b: &Vec<ObjectId>) -> (r: bool)
    ensures
        r == within(a@, b@),
{
    let mut i: usize = 0;
    while i < a.len()
        invariant
            i <= a@.len(),
            forall|j: int| 0 <= j < i ==> b@.contains(#[trigger] a@[j]),
        decreases a@.len() - i,
    {
        if !holds_id(b, a[i]) {
            assert(a@.contains(a@[i as int]));
            return false;
        }
        i += 1;
    }
    proof {
        assert forall|x: ObjectId| #[trigger] a@.contains(x) implies b@.contains(x) by {
            let w = choose|w: int| 0 <= w < a@.len() && a@[w] == x;
        }
    }
    true
}

/// The default capability bound: `2^14` sets covers every real world; beyond it, declining loudly
/// beats stalling.
pub const DEFAULT_MAX_CAPABILITIES: usize = 14;

/// Runs the reachability-preservation pass over a solved world.
pub struct SoftlockAnalyzer<'a, B> {
    mission: &'a MissionGraph<B>,
    grants: &'a [(ObjectId, Vec<ObjectId>)],
    placements: &'a [(LocationId, ObjectId)],
    initial: Vec<ObjectId>,
    max_capabilities: usize,
}

impl<'a, B> SoftlockAnalyzer<'a, B> {
    /// What the pass reads.
    pub closed spec fn setting(&self) -> Setting<B> {
        Setting { graph: self.mission@, placements: self.placements@, grants: grants_view(self.grants@), initial: self.initial@ }
    }

    /// Above this many obtainable capabilities the pass declines rather than enumerating `2^n`.
    pub closed spec fn bound(&self) -> usize {
        self.max_capabilities
    }

    /// The graph is well formed and the starting capabilities are in id order.
    pub closed spec fn wf(&self) -> bool {
        &&& self.mission.wf()
        &&& strictly_sorted(self.initial@)
    }

    /// An analyzer over a solved world, starting with nothing.
    pub fn new(mission: &'a MissionGraph<B>, placements: &'a [(LocationId, ObjectId)], grants: &'a [(ObjectId, Vec<ObjectId>)]) -> (a: Self)
        requires
            mission.wf(),
        ensures
            a.wf(),
            a.setting() == (Setting { graph: mission@, placements: placements@, grants: grants_view(grants@), initial: Seq::<ObjectId>::empty() }),
            a.bound() == DEFAULT_MAX_CAPABILITIES,
    {
        let a = SoftlockAnalyzer { mission, grants, placements, initial: Vec::new(), max_capabilities: DEFAULT_MAX_CAPABILITIES };
        assert(a.initial@ =~= Seq::<ObjectId>::empty());
        a
    }

    /// Capabilities the player starts with, added to those already given.
    pub fn with_initial(self, capabilities: &[ObjectId]) -> (a: Self)
        requires
            self.wf(),
        ensures
            a.wf(),
            a.setting() == (Setting { initial: a.setting().initial, ..self.setting() }),
            forall|x: ObjectId| #[trigger] a.setting().initial.contains(x) <==> (self.setting().initial.contains(x) || capabilities@.contains(x)),
            a.bound() == self.bound(),
    {
        let mut s = self;
        let ghost s0 = s;
        let ghost i0 = s.initial@;
        let mut i: usize = 0;
        while i < capabilities.len()
            invariant
                i <= capabilities@.len(),
                s0.wf(),
                s.mission == s0.mission,
                s.placements == s0.placements,
                s.grants == s0.grants,
                s.max_capabilities == s0.max_capabilities,
                i0 == s0.initial@,
                strictly_sorted(s.initial@),
                forall|x: ObjectId| #[trigger] s.initial@.contains(x) <==> (i0.contains(x) || capabilities@.take(i as int).contains(x)),
            decreases capabilities@.len() - i,
        {
            let ghost t0 = capabilities@.take(i as int);
            let ghost prev = s.initial@;
            insert_sorted(&mut s.initial, capabilities[i]);
            proof {
                let t1 = capabilities@.take(i + 1);
                assert(t1 =~= t0.push(capabilities@[i as int]));
                assert forall|x: ObjectId| #[trigger] s.initial@.contains(x) <==> (i0.contains(x) || t1.contains(x)) by {
                    assert(s.initial@.contains(x) <==> (prev.contains(x) || x == capabilities@[i as int]));
                    assert(prev.contains(x) <==> (i0.contains(x) || t0.contains(x)));
                    if t1.contains(x) {
                        let w = choose|w: int| 0 <= w < t1.len() && t1[w] == x;
                        if w < i {
                            assert(t0[w] == x);
                        }
                    }
                    if t0.contains(x) {
                        let w = choose|w: int| 0 <= w < t0.len() && t0[w] == x;
                        assert(t1[w] == x);
                    }
                    if x == capabilities@[i as int] {
                        assert(t1[i as int] == x);
                    }
                }
            }
            i += 1;
        }
        assert(capabilities@.take(i as int) =~= capabilities@);
        s
    }

    /// Raise or lower the enumeration bound.
    pub fn with_max_capabilities(self, max: usize) -> (a: Self)
        ensures
            a.wf() == self.wf(),
            a.setting() == self.setting(),
            a.bound() == max,
    {
        let mut s = self;
        s.max_capabilities = max;
        s
    }

    /// Could a player be holding exactly `held`? Everything in it can be collected using only it,
    /// or is held from the start.
    fn is_achievable(&self, held: &Vec<ObjectId>) -> (b: bool)
        requires
            self.wf(),
        ensures
            b == achievable(self.setting(), held@),
    {
        let st = Ghost(self.setting());
        let reach = self.mission.traverse(held.as_slice());
        let none_l: Vec<LocationId> = Vec::new();
        let locs = self.mission.fresh_locations(&reach, &none_l);
        let none_h: Vec<ObjectId> = Vec::new();
        let got = fresh_unlocks(&locs, self.placements, self.grants, &none_h);
        proof {
            let all = ids_in_all(self.mission@.locations, reach@);
            assert(all.filter(not_listed(none_l@)) =~= all) by {
                reveal(Seq::filter);
                lemma_filter_everything(all, not_listed(none_l@));
            }
            assert(st@.graph == self.mission@);
            assert(st@.placements == self.placements@);
            assert(st@.grants == grants_view(self.grants@));
            assert(locs@ == ids_in_all(self.mission@.locations, reach@));
            assert forall|c: ObjectId| #[trigger] got@.contains(c) <==> collectible(st@, held@, c) by {
                if got@.contains(c) {
                    let l = choose|l: LocationId| #[trigger] locs@.contains(l) && yield_in(self.placements@, grants_view(self.grants@), l).contains(c);
                    lemma_ids_in_all(self.mission@.locations, reach@, l);
                    let j = choose|j: int| 0 <= j < reach@.len() && #[trigger] ids_in(self.mission@.locations, reach@[j]).contains(l);
                    assert(reach@.contains(reach@[j]));
                    assert(reaches(st@.graph.edges, held@, true, st@.graph.start, reach@[j]));
                }
                if collectible(st@, held@, c) {
                    let (x, l) = choose|x: Handle<Node<B>>, l: LocationId|
                        reaches(st@.graph.edges, held@, true, st@.graph.start, x) && #[trigger] ids_in(st@.graph.locations, x).contains(l)
                            && #[trigger] yield_in(st@.placements, st@.grants, l).contains(c);
                    assert(reach@.contains(x));
                    let j = choose|j: int| 0 <= j < reach@.len() && reach@[j] == x;
                    lemma_ids_in_all(self.mission@.locations, reach@, l);
                    assert(locs@.contains(l));
                    assert(!none_h@.contains(c));
                }
            }
        }
        let mut i: usize = 0;
        while i < held.len()
            invariant
                i <= held@.len(),
                forall|c: ObjectId| #[trigger] got@.contains(c) <==> collectible(st@, held@, c),
                st@ == self.setting(),
                forall|j: int| 0 <= j < i ==> (st@.initial.contains(#[trigger] held@[j]) || collectible(st@, held@, held@[j])),
            decreases held@.len() - i,
        {
            let c = held[i];
            if !holds_id(&self.initial, c) && !holds_id(&got, c) {
                proof {
                    assert(held@.contains(c));
                }
                return false;
            }
            i += 1;
        }
        proof {
            assert forall|c: ObjectId| #[trigger] held@.contains(c) implies st@.initial.contains(c) || collectible(st@, held@, c) by {
                let w = choose|w: int| 0 <= w < held@.len() && held@[w] == c;
            }
        }
        true
    }
}

proof fn lemma_filter_everything<A>(s: Seq<A>, p: spec_fn(A) -> bool)
    requires
        forall|x: A| #[trigger] p(x),
    ensures
        s.filter(p) == s,
    decreases s.len(),
{
    reveal(Seq::filter);
    if s.len() > 0 {
        lemma_filter_everything(s.drop_last(), p);
        assert(s.drop_last().push(s.last()) =~= s);
    } else {
        assert(s.filter(p) =~= s);
    }
}

/// The capability sets enumerated so far at edge `i` are accounted for: every combination of
/// fewer than `size` of `u`, and the first `upto` of those of `size`.
pub open spec fn accounted_below<B>(
    st: Setting<B>,
    goal: Handle<Node<B>>,
    hz: Seq<Softlock<B>>,
    u: Seq<ObjectId>,
    i: int,
    size: nat,
    upto: int,
) -> bool {
    forall|k: nat, c: int|
        ((k < size && 0 <= c < index_sets(u.len(), 0, k).len()) || (k == size && 0 <= c < upto && c < index_sets(u.len(), 0, k).len()))
            ==> accounted(st, goal, hz, i, held_for(st.initial, pick(u, #[trigger] index_sets(u.len(), 0, k)[c])))
}

proof fn lemma_accounted_below_grows<B>(
    st: Setting<B>,
    goal: Handle<Node<B>>,
    hz: Seq<Softlock<B>>,
    more: Seq<Softlock<B>>,
    u: Seq<ObjectId>,
    i: int,
    size: nat,
    upto: int,
)
    requires
        accounted_below(st, goal, hz, u, i, size, upto),
        hz.len() <= more.len(),
        more.take(hz.len() as int) == hz,
    ensures
        accounted_below(st, goal, more, u, i, size, upto),
{
    assert forall|k: nat, c: int|
        ((k < size && 0 <= c < index_sets(u.len(), 0, k).len()) || (k == size && 0 <= c < upto && c < index_sets(u.len(), 0, k).len()))
            implies accounted(st, goal, more, i, held_for(st.initial, pick(u, #[trigger] index_sets(u.len(), 0, k)[c]))) by {
        lemma_accounted_grows(st, goal, hz, more, i, held_for(st.initial, pick(u, index_sets(u.len(), 0, k)[c])));
    }
}

/// Every hazard in `hz` is real.
pub open spec fn all_real<B>(st: Setting<B>, goal: Handle<Node<B>>, hz: Seq<Softlock<B>>) -> bool {
    forall|h: int| 0 <= h < hz.len() ==> hazard_real(st, goal, #[trigger] hz[h])
}

/// Every set in `safe` was found safe at edge `i`.
pub open spec fn all_safe<B>(st: Setting<B>, goal: Handle<Node<B>>, i: int, safe: Seq<Vec<ObjectId>>) -> bool {
    forall|s: int| 0 <= s < safe.len() ==> safe_at(st, i, goal, (#[trigger] safe[s])@)
}

impl<'a, B> SoftlockAnalyzer<'a, B> {
    /// Examine one capability set at one-way edge `i`: skip it when a part of it was already found
    /// safe, or no player can hold it and cross; otherwise drop the player through holding it and
    /// record it as safe or as a hazard.
    fn examine_state(
        &self,
        i: usize,
        goal: Handle<Node<B>>,
        held: Vec<ObjectId>,
        hazards: &mut Vec<Softlock<B>>,
        safe: &mut Vec<Vec<ObjectId>>,
        states: &mut usize,
    )
        requires
            self.wf(),
            i < self.setting().graph.edges.len(),
            !self.setting().graph.edges[i as int].reversible,
            strictly_sorted(held@),
            within(self.setting().initial, held@),
            all_real(self.setting(), goal, old(hazards)@),
            all_safe(self.setting(), goal, i as int, old(safe)@),
        ensures
            old(hazards)@.len() <= final(hazards)@.len(),
            final(hazards)@.take(old(hazards)@.len() as int) == old(hazards)@,
            all_real(self.setting(), goal, final(hazards)@),
            all_safe(self.setting(), goal, i as int, final(safe)@),
            accounted(self.setting(), goal, final(hazards)@, i as int, held@),
            old(hazards)@.len() <= *old(states) ==> final(hazards)@.len() <= *final(states),
    {
        let ghost st = self.setting();
        let ghost hz0 = hazards@;
        assert(hazards@.take(hz0.len() as int) =~= hz0);
        let mut k: usize = 0;
        while k < safe.len()
            invariant
                k <= safe@.len(),
                hazards@ == hz0,
                st == self.setting(),
                all_real(st, goal, hazards@),
                all_safe(st, goal, i as int, safe@),
            decreases safe@.len() - k,
        {
            if is_within(&safe[k], &held) {
                proof {
                    assert(safe_at(st, i as int, goal, safe@[k as int]@));
                }
                return;
            }
            k += 1;
        }
        if !self.is_achievable(&held) {
            return;
        }
        let edges = self.mission.edges();
        let from = edges[i].from;
        let to = edges[i].to;
        if !edges[i].rule.is_satisfied(held.as_slice()) {
            return;
        }
        let reach = self.mission.traverse(held.as_slice());
        if !holds_handle(&reach, from) {
            return;
        }
        if *states < usize::MAX {
            *states = *states + 1;
        }
        let after = self.mission.sweep_from(to, held.as_slice(), self.placements, self.grants);
        let mut ok = after.accessible(goal);
        let recovery = self.mission.recovery_points();
        let mut r: usize = 0;
        while r < recovery.len() && !ok
            invariant
                r <= recovery@.len(),
                !ok ==> !after.scopes@.contains(goal),
                !ok ==> forall|q: int| 0 <= q < r ==> !after.scopes@.contains(#[trigger] recovery@[q]),
                ok ==> (after.scopes@.contains(goal) || exists|q: int| 0 <= q < recovery@.len() && after.scopes@.contains(#[trigger] recovery@[q])),
            decreases recovery@.len() - r,
        {
            if after.accessible(recovery[r]) {
                ok = true;
            }
            r += 1;
        }
        proof {
            assert(access_view(after).scopes == after.scopes@);
            if ok {
                if !after.scopes@.contains(goal) {
                    let q = choose|q: int| 0 <= q < recovery@.len() && after.scopes@.contains(#[trigger] recovery@[q]);
                    assert(st.graph.recovery.contains(recovery@[q]));
                }
            } else {
                assert forall|x: Handle<Node<B>>| #[trigger] st.graph.recovery.contains(x) implies !after.scopes@.contains(x) by {
                    let q = choose|q: int| 0 <= q < recovery@.len() && recovery@[q] == x;
                }
            }
        }
        if ok {
            let ghost h = held@;
            safe.push(held);
            proof {
                assert(safe_at(st, i as int, goal, h));
                assert(within(h, h));
                assert forall|s: int| 0 <= s < safe@.len() implies safe_at(st, i as int, goal, (#[trigger] safe@[s])@) by {}
            }
        } else {
            let kind = if recovery.len() == 0 {
                SoftlockKind::GoalUnreachable
            } else {
                SoftlockKind::NoRecovery
            };
            let ghost h = held@;
            hazards.push(Softlock { edge: i, from, to, holding: held, kind });
            let _n = hazards.len();
            proof {
                assert(hazards@[hz0.len() as int].holding@ == h);
                assert(hazard_real(st, goal, hazards@[hz0.len() as int]));
                assert(hazards@.take(hz0.len() as int) =~= hz0);
                assert forall|q: int| 0 <= q < hazards@.len() implies hazard_real(st, goal, #[trigger] hazards@[q]) by {
                    if q < hz0.len() {
                        assert(hazards@[q] == hz0[q]);
                    }
                }
            }
        }
    }

    /// Examine every capability set at one-way edge `i`: what the player starts with, and each
    /// combination of `universe`, in increasing size, so that each set found safe prunes every set
    /// above it.
    fn examine_edge(
        &self,
        i: usize,
        goal: Handle<Node<B>>,
        universe: &Vec<ObjectId>,
        hazards: &mut Vec<Softlock<B>>,
        states: &mut usize,
    )
        requires
            self.wf(),
            i < self.setting().graph.edges.len(),
            !self.setting().graph.edges[i as int].reversible,
            all_real(self.setting(), goal, old(hazards)@),
        ensures
            old(hazards)@.len() <= final(hazards)@.len(),
            final(hazards)@.take(old(hazards)@.len() as int) == old(hazards)@,
            all_real(self.setting(), goal, final(hazards)@),
            edge_accounted(self.setting(), goal, final(hazards)@, universe@, i as int),
            old(hazards)@.len() <= *old(states) ==> final(hazards)@.len() <= *final(states),
    {
        let ghost st = self.setting();
        let ghost u = universe@;
        let ghost hz0 = hazards@;
        let ghost counted = hz0.len() <= *states;
        let mut safe: Vec<Vec<ObjectId>> = Vec::new();
        let mut size: usize = 0;
        assert(hazards@.take(hz0.len() as int) =~= hz0);
        loop
            invariant
                self.wf(),
                st == self.setting(),
                u == universe@,
                i < st.graph.edges.len(),
                !st.graph.edges[i as int].reversible,
                size <= u.len(),
                hz0.len() <= hazards@.len(),
                hazards@.take(hz0.len() as int) == hz0,
                all_real(st, goal, hazards@),
                all_safe(st, goal, i as int, safe@),
                accounted_below(st, goal, hazards@, u, i as int, size as nat, 0),
                counted ==> hazards@.len() <= *states,
            ensures
                counted ==> hazards@.len() <= *states,
                size == u.len(),
                hz0.len() <= hazards@.len(),
                hazards@.take(hz0.len() as int) == hz0,
                all_real(st, goal, hazards@),
                accounted_below(st, goal, hazards@, u, i as int, (size + 1) as nat, 0),
            decreases u.len() - size,
        {
            let combos = combinations(universe.as_slice(), size);
            let ghost sets = index_sets(u.len(), 0, size as nat);
            proof {
                assert(rows(combos@).len() == combos@.len());
                assert(picks(u, sets).len() == sets.len());
            }
            let mut c: usize = 0;
            while c < combos.len()
                invariant
                    self.wf(),
                    st == self.setting(),
                    u == universe@,
                    i < st.graph.edges.len(),
                    !st.graph.edges[i as int].reversible,
                    size <= u.len(),
                    sets == index_sets(u.len(), 0, size as nat),
                    rows(combos@) == picks(u, sets),
                    combos@.len() == sets.len(),
                    c <= combos@.len(),
                    hz0.len() <= hazards@.len(),
                    hazards@.take(hz0.len() as int) == hz0,
                    all_real(st, goal, hazards@),
                    all_safe(st, goal, i as int, safe@),
                    accounted_below(st, goal, hazards@, u, i as int, size as nat, c as int),
                    counted ==> hazards@.len() <= *states,
                decreases combos@.len() - c,
            {
                let held = union_sorted(&self.initial, &combos[c]);
                proof {
                    assert(rows(combos@)[c as int] == combos@[c as int]@);
                    assert(picks(u, sets)[c as int] == pick(u, sets[c as int]));
                    assert(held@ == held_for(st.initial, pick(u, sets[c as int])));
                }
                let ghost hz1 = hazards@;
                let ghost h = held@;
                self.examine_state(i, goal, held, hazards, &mut safe, states);
                proof {
                    lemma_accounted_below_grows(st, goal, hz1, hazards@, u, i as int, size as nat, c as int);
                    assert(hazards@.take(hz0.len() as int) =~= hz0) by {
                        assert forall|q: int| 0 <= q < hz0.len() implies hazards@[q] == hz0[q] by {
                            assert(hazards@[q] == hazards@.take(hz1.len() as int)[q]);
                            assert(hz1[q] == hz1.take(hz0.len() as int)[q]);
                        }
                    }
                    assert forall|k: nat, cc: int|
                        ((k < size && 0 <= cc < index_sets(u.len(), 0, k).len()) || (k == size && 0 <= cc < c + 1 && cc < index_sets(u.len(), 0, k).len()))
                            implies accounted(st, goal, hazards@, i as int, held_for(st.initial, pick(u, #[trigger] index_sets(u.len(), 0, k)[cc]))) by {
                        if k == size && cc == c {
                            assert(index_sets(u.len(), 0, k)[cc] == sets[c as int]);
                        }
                    }
                }
                c += 1;
            }
            proof {
                assert(accounted_below(st, goal, hazards@, u, i as int, (size + 1) as nat, 0)) by {
                    assert forall|k: nat, cc: int|
                        ((k < size + 1 && 0 <= cc < index_sets(u.len(), 0, k).len()) || (k == size + 1 && 0 <= cc < 0 && cc < index_sets(u.len(), 0, k).len()))
                            implies accounted(st, goal, hazards@, i as int, held_for(st.initial, pick(u, #[trigger] index_sets(u.len(), 0, k)[cc]))) by {
                        if k == size {
                            assert(cc < c);
                        }
                    }
                }
            }
            if size == universe.len() {
                break;
            }
            size += 1;
        }
        proof {
            assert forall|k: nat, cc: int|
                k <= u.len() && 0 <= cc < index_sets(u.len(), 0, k).len() implies accounted(
                    st,
                    goal,
                    hazards@,
                    i as int,
                    held_for(st.initial, pick(u, #[trigger] index_sets(u.len(), 0, k)[cc])),
                ) by {
                assert(k < size + 1);
            }
        }
    }

    /// **Run the pass.** With no goal declared, or more obtainable capabilities than the bound, it
    /// declines and says why. Otherwise every hazard it reports is real, and at every one-way edge
    /// every capability set it enumerates is accounted for: no player crosses there holding it, it
    /// is reported, or a part of it was found safe.
    pub fn analyze(&self) -> (r: SoftlockAnalysis<B>)
        requires
            self.wf(),
        ensures
            ({
                let st = self.setting();
                let u = obtainable(st);
                match st.graph.goal {
                    None => r.limit == Some(AnalysisLimit::NoGoal) && r.hazards@.len() == 0 && r.commits_checked == 0
                        && r.states_examined == 0,
                    Some(g) => if u.len() > self.bound() {
                        &&& r.limit == Some(AnalysisLimit::TooManyCapabilities { found: u.len() as usize, limit: self.bound() })
                        &&& r.hazards@.len() == 0
                        &&& r.commits_checked == 0
                        &&& r.states_examined == 0
                    } else {
                        &&& r.limit is None
                        &&& r.commits_checked == count_edges(st.graph.edges, |e: MissionEdge<B>| !e.reversible)
                        &&& r.hazards@.len() <= r.states_examined
                        &&& all_real(st, g, r.hazards@)
                        &&& forall|i: int| 0 <= i < st.graph.edges.len() && !(#[trigger] st.graph.edges[i]).reversible
                            ==> edge_accounted(st, g, r.hazards@, u, i)
                    },
                }
            }),
    {
        let ghost st = self.setting();
        let goal = match self.mission.goal() {
            Some(g) => g,
            None => {
                return SoftlockAnalysis { hazards: Vec::new(), commits_checked: 0, states_examined: 0, limit: Some(AnalysisLimit::NoGoal) };
            },
        };
        let full = self.mission.sweep(self.initial.as_slice(), self.placements, self.grants);
        let universe = full.held;
        proof {
            assert(universe@ == access_view(full).held);
            assert(universe@ == obtainable(st));
        }
        if universe.len() > self.max_capabilities {
            return SoftlockAnalysis {
                hazards: Vec::new(),
                commits_checked: 0,
                states_examined: 0,
                limit: Some(AnalysisLimit::TooManyCapabilities { found: universe.len(), limit: self.max_capabilities }),
            };
        }
        let edges = self.mission.edges();
        let mut hazards: Vec<Softlock<B>> = Vec::new();
        let mut commits: usize = 0;
        let mut states: usize = 0;
        let mut i: usize = 0;
        while i < edges.len()
            invariant
                self.wf(),
                st == self.setting(),
                edges@ == st.graph.edges,
                st.graph.goal == Some(goal),
                universe@ == obtainable(st),
                i <= edges@.len(),
                commits <= i,
                commits == count_edges(edges@.take(i as int), |e: MissionEdge<B>| !e.reversible),
                all_real(st, goal, hazards@),
                hazards@.len() <= states,
                forall|j: int| 0 <= j < i && !(#[trigger] edges@[j]).reversible ==> edge_accounted(st, goal, hazards@, universe@, j),
            decreases edges@.len() - i,
        {
            proof {
                assert(edges@.take(i + 1).drop_last() =~= edges@.take(i as int));
            }
            if !edges[i].reversible {
                let ghost hz0 = hazards@;
                commits += 1;
                self.examine_edge(i, goal, &universe, &mut hazards, &mut states);
                proof {
                    assert forall|j: int| 0 <= j < i + 1 && !(#[trigger] edges@[j]).reversible implies edge_accounted(st, goal, hazards@, universe@, j) by {
                        if j < i {
                            lemma_edge_accounted_grows(st, goal, hz0, hazards@, universe@, j);
                        }
                    }
                }
            }
            i += 1;
        }
        assert(edges@.take(i as int) =~= edges@);
        SoftlockAnalysis { hazards, commits_checked: commits, states_examined: states, limit: None }
    }
}

/// The indices, from `start` on, of the items of `u` that `held` holds, in order.
pub open spec fn indices_held(u: Seq<ObjectId>, held: Seq<ObjectId>, start: nat) -> Seq<nat>
    decreases u.len() - start,
{
    if start >= u.len() {
        Seq::empty()
    } else if held.contains(u[start as int]) {
        seq![start] + indices_held(u, held, start + 1)
    } else {
        indices_held(u, held, start + 1)
    }
}

/// Those indices are one of the runs the pass enumerates, and pick exactly the items of `u` from
/// `start` on that `held` holds.
proof fn lemma_indices_held(u: Seq<ObjectId>, held: Seq<ObjectId>, start: nat)
    requires
        start <= u.len(),
    ensures
        indices_held(u, held, start).len() <= u.len() - start,
        index_sets(u.len(), start, indices_held(u, held, start).len()).contains(indices_held(u, held, start)),
        forall|x: ObjectId| #[trigger] pick(u, indices_held(u, held, start)).contains(x)
            <==> exists|j: int| start <= j < u.len() && u[j] == x && held.contains(x),
    decreases u.len() - start,
{
    let idx = indices_held(u, held, start);
    if start >= u.len() {
        assert(index_sets(u.len(), start, 0)[0] == idx);
        assert(pick(u, idx) =~= Seq::<ObjectId>::empty());
    } else {
        lemma_indices_held(u, held, start + 1);
        let rest = indices_held(u, held, start + 1);
        let k = idx.len();
        if held.contains(u[start as int]) {
            assert(idx == seq![start] + rest);
            let w = index_sets(u.len(), start + 1, rest.len());
            let firsts = w.map_values(|c: Seq<nat>| seq![start] + c);
            assert(index_sets(u.len(), start, k) == firsts + index_sets(u.len(), start + 1, k));
            let p = choose|p: int| 0 <= p < w.len() && w[p] == rest;
            assert(firsts[p] == idx);
            assert((firsts + index_sets(u.len(), start + 1, k))[p] == idx);
            assert(pick(u, idx) =~= seq![u[start as int]] + pick(u, rest));
        } else {
            assert(idx == rest);
            if k > 0 {
                let w = index_sets(u.len(), start + 1, (k - 1) as nat);
                let firsts = w.map_values(|c: Seq<nat>| seq![start] + c);
                assert(index_sets(u.len(), start, k) == firsts + index_sets(u.len(), start + 1, k));
                let wo = index_sets(u.len(), start + 1, k);
                let p = choose|p: int| 0 <= p < wo.len() && wo[p] == rest;
                assert((firsts + wo)[firsts.len() + p] == idx);
            } else {
                assert(index_sets(u.len(), start, 0)[0] == idx);
            }
        }
        assert forall|x: ObjectId| #[trigger] pick(u, idx).contains(x)
            <==> exists|j: int| start <= j < u.len() && u[j] == x && held.contains(x) by {
            if pick(u, idx).contains(x) {
                if held.contains(u[start as int]) {
                    let q = choose|q: int| 0 <= q < pick(u, idx).len() && pick(u, idx)[q] == x;
                    if q == 0 {
                        assert(pick(u, idx)[0] == u[start as int]);
                    } else {
                        assert(pick(u, rest)[q - 1] == x);
                        assert(pick(u, rest).contains(x));
                    }
                } else {
                    assert(pick(u, rest).contains(x));
                }
            }
            if exists|j: int| start <= j < u.len() && u[j] == x && held.contains(x) {
                let j = choose|j: int| start <= j < u.len() && u[j] == x && held.contains(x);
                if j == start {
                    assert(held.contains(u[start as int]));
                    assert(pick(u, idx)[0] == x);
                } else {
                    assert(pick(u, rest).contains(x));
                    if held.contains(u[start as int]) {
                        let q = choose|q: int| 0 <= q < pick(u, rest).len() && pick(u, rest)[q] == x;
                        assert(pick(u, idx)[q + 1] == x);
                    }
                }
            }
        }
    }
}

/// **The enumeration covers every state**: any capability set in id order that holds everything
/// the player starts with, and otherwise only what they can obtain, is one the pass examines.
pub proof fn law_every_state_is_enumerated(initial: Seq<ObjectId>, u: Seq<ObjectId>, held: Seq<ObjectId>)
    requires
        strictly_sorted(held),
        within(initial, held),
        forall|x: ObjectId| #[trigger] held.contains(x) ==> initial.contains(x) || u.contains(x),
    ensures
        exists|k: nat, c: int|
            k <= u.len() && 0 <= c < index_sets(u.len(), 0, k).len() && held == held_for(initial, pick(u, #[trigger] index_sets(u.len(), 0, k)[c])),
{
    lemma_indices_held(u, held, 0);
    let idx = indices_held(u, held, 0);
    let k = idx.len();
    let c = choose|c: int| 0 <= c < index_sets(u.len(), 0, k).len() && index_sets(u.len(), 0, k)[c] == idx;
    let combo = pick(u, idx);
    assert forall|x: ObjectId| #[trigger] held.contains(x) <==> (initial.contains(x) || combo.contains(x)) by {
        if held.contains(x) && !initial.contains(x) {
            let j = choose|j: int| 0 <= j < u.len() && u[j] == x;
            assert(combo.contains(x));
        }
    }
    lemma_is_sorted_set(held, |x: ObjectId| initial.contains(x) || combo.contains(x), by_raw());
}

/// **No hazard at an edge means every crossing of it was shown safe**: where the pass reports no
/// hazard at one-way edge `i`, every capability set a player could hold and cross it with (all
/// they start with, and any of what they can obtain) contains a set that was shown to leave the
/// goal or a recovery point reachable from the far side.
pub proof fn law_no_hazard_means_every_crossing_was_shown_safe<B>(
    st: Setting<B>,
    goal: Handle<Node<B>>,
    hz: Seq<Softlock<B>>,
    u: Seq<ObjectId>,
    i: int,
    held: Seq<ObjectId>,
)
    requires
        edge_accounted(st, goal, hz, u, i),
        forall|h: int| 0 <= h < hz.len() ==> (#[trigger] hz[h]).edge != i,
        strictly_sorted(held),
        within(st.initial, held),
        forall|x: ObjectId| #[trigger] held.contains(x) ==> st.initial.contains(x) || u.contains(x),
        achievable(st, held),
        crossable(st, i, held),
    ensures
        exists|s: Seq<ObjectId>| #[trigger] safe_at(st, i, goal, s) && within(s, held),
{
    law_every_state_is_enumerated(st.initial, u, held);
    let (k, c) = choose|k: nat, c: int|
        k <= u.len() && 0 <= c < index_sets(u.len(), 0, k).len() && held == held_for(st.initial, pick(u, #[trigger] index_sets(u.len(), 0, k)[c]));
    assert(accounted(st, goal, hz, i, held_for(st.initial, pick(u, index_sets(u.len(), 0, k)[c]))));
}

/// **A repair leaves no hazard on the edges it touched**: once the edges the hazards name are made
/// two-way, no hazard can name any of them.
pub proof fn law_repair_leaves_no_hazard_on_its_edges<B>(
    st: Setting<B>,
    goal: Handle<Node<B>>,
    before: Seq<MissionEdge<B>>,
    todo: Seq<usize>,
    h: Softlock<B>,
)
    requires
        st.graph.edges == made_two_way(before, todo),
        todo.contains(h.edge),
    ensures
        !hazard_real(st, goal, h),
{
}

} // verus!
