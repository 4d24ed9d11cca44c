//! The constraint consumer: where a declared constraint changes where something goes. Distance
//! constraints only bias a candidate; structural ones exclude it. This module decides the
//! exclusions, each naming the constraint that made it and why ([`veto`]), finds the scope kind a
//! content asks for, and measures how many hops each scope lies from the locks an unlock opens
//! ([`hops_to_locks`]), the snapshot the distance biases are weighed from.

use crate::handle::Handle;
use crate::mission_graph::{handles_sorted, in_ring, insert_entry, lemma_ring_reached, lemma_within_grows, reaches, table_keys, MissionEdge, MissionGraph};
use crate::scope_graph::Node;
use crate::node::{kind_name, NodeKind};
use crate::path::ClassPath;
use crate::placement::Constraint;
use crate::tag::{query_matches, Tag, TagQuery};
use crate::text::{decimal, decimal_text};
use vstd::prelude::*;

verus! {

/// Why a constraint rejected a candidate, in words a trace can print.
#[derive(Clone, Debug, PartialEq, Eq)]
pub struct Veto {
    /// The constraint that excluded it.
    pub by: String,
    /// What was wrong with this candidate.
    pub because: String,
}

impl Veto {
    /// How the veto reads in a trace: `by: because`.
    pub fn to_string(&self) -> (s: String)
        ensures
            s@ == self.by@ + ": "@ + self.because@,
    {
        let mut s = self.by.clone();
        s.append(": ");
        s.append(self.because.as_str());
        s
    }
}

/// What the solver knows about a candidate while scoring it: a plain snapshot rather than a live
/// query, so placement order cannot matter.
#[derive(Clone, Debug)]
pub struct Situation {
    /// Hop distance from this scope to the nearest lock the content's unlock opens.
    pub hops_to_lock: Option<u32>,
    /// Which accessibility sphere this scope falls in.
    pub sphere: Option<u32>,
    /// Content kinds already placed in this scope.
    pub occupants: Vec<ClassPath>,
    /// Surfaces available to mount on.
    pub surfaces: Vec<ClassPath>,
    /// The tag set each available surface carries.
    pub surface_tags: Vec<Vec<Tag>>,
}

impl Default for Situation {
    fn default() -> (s: Situation)
        ensures
            s.hops_to_lock is None,
            s.sphere is None,
            s.occupants@.len() == 0,
            s.surfaces@.len() == 0,
            s.surface_tags@.len() == 0,
    {
        Situation {
            hops_to_lock: None,
            sphere: None,
            occupants: Vec::new(),
            surfaces: Vec::new(),
            surface_tags: Vec::new(),
        }
    }
}

/// How a scope kind that may be missing prints in a diagnostic: `Some(Space)`, or `None`.
pub open spec fn kind_debug(kind: Option<NodeKind>) -> Seq<char> {
    match kind {
        Some(k) => "Some("@ + kind_name(k) + ")"@,
        None => "None"@,
    }
}

/// Does one of the available surfaces carry a tag the query matches?
pub open spec fn some_surface_matches(q: TagQuery, surfaces: Seq<Vec<Tag>>) -> bool {
    exists|i: int, j: int|
        0 <= i < surfaces.len() && 0 <= j < surfaces[i]@.len() && #[trigger] query_matches(
            q,
            surfaces[i]@[j],
        )
}

/// The exclusion a structural constraint makes of a candidate whose scope is of `kind`, as the
/// constraint's name and the reason, or `None` when it admits the candidate. Distance constraints
/// only bias, so they never exclude.
pub open spec fn veto_of(c: Constraint, kind: Option<NodeKind>, s: Situation) -> Option<
    (Seq<char>, Seq<char>),
> {
    match c {
        Constraint::MinDistanceFrom { .. } => None,
        Constraint::MaxDistanceFrom { .. } => None,
        Constraint::AloneInScope { scope } => if kind == Some(scope) && s.occupants@.len() > 0 {
            Some(("AloneInScope"@, decimal(s.occupants@.len()) + " already here"@))
        } else {
            None
        },
        Constraint::WithinScope { scope } => if kind == Some(scope) {
            None
        } else {
            Some(("WithinScope"@, "this is a "@ + kind_debug(kind) + ", not a "@ + kind_name(scope)))
        },
        Constraint::NotWithinScope { scope } => if kind == Some(scope) {
            Some(("NotWithinScope"@, "this is a "@ + kind_name(scope)))
        } else {
            None
        },
        Constraint::MountedOn { accepts } => if some_surface_matches(accepts, s.surface_tags@) {
            None
        } else {
            Some(("MountedOn"@, "no matching socket here"@))
        },
        Constraint::SpherePin { min, max } => match s.sphere {
            Some(sp) => if sp < min || sp > max {
                Some(
                    (
                        "SpherePin"@,
                        "sphere "@ + decimal(sp as nat) + " is outside "@ + decimal(min as nat)
                            + "..="@ + decimal(max as nat),
                    ),
                )
            } else {
                None
            },
            None => None,
        },
    }
}

/// A veto with the given constraint name and reason.
fn veto_with(by: &str, because: String) -> (v: Veto)
    ensures
        v.by@ == by@,
        v.because@ == because@,
{
    Veto { by: String::from_str(by), because }
}

/// Does any surface carry a tag the query matches?
fn any_surface_matches(q: &TagQuery, surfaces: &Vec<Vec<Tag>>) -> (b: bool)
    ensures
        b == some_surface_matches(*q, surfaces@),
{
    let mut i: usize = 0;
    while i < surfaces.len()
        invariant
            i <= surfaces@.len(),
            forall|a: int, j: int|
                0 <= a < i && 0 <= j < surfaces@[a]@.len() ==> !#[trigger] query_matches(
                    *q,
                    surfaces@[a]@[j],
                ),
        decreases surfaces@.len() - i,
    {
        if q.matches_any(surfaces[i].as_slice()) {
            return true;
        }
        i += 1;
    }
    false
}

/// Whether a structural constraint excludes a candidate whose scope is of `kind` (`None` when the
/// scope is not in the graph), and why. Distance constraints never exclude: they weigh.
pub fn veto(c: &Constraint, kind: Option<NodeKind>, s: &Situation) -> (v: Option<Veto>)
    ensures
        veto_of(*c, kind, *s) == match v {
            Some(x) => Some((x.by@, x.because@)),
            None => None,
        },
{
    match c {
        Constraint::MinDistanceFrom { .. } => None,
        Constraint::MaxDistanceFrom { .. } => None,
        Constraint::AloneInScope { scope } => {
            let here = match kind {
                Some(k) => k == *scope,
                None => false,
            };
            if here && s.occupants.len() > 0 {
                let mut because = decimal_text(s.occupants.len() as u64);
                because.append(" already here");
                Some(veto_with("AloneInScope", because))
            } else {
                None
            }
        },
        Constraint::WithinScope { scope } => {
            match kind {
                Some(k) => {
                    if k == *scope {
                        None
                    } else {
                        let mut because = String::from_str("this is a Some(");
                        because.append(k.as_str());
                        because.append("), not a ");
                        because.append(scope.as_str());
                        proof {
                            assert(because@ == "this is a "@ + kind_debug(kind) + ", not a "@
                                + kind_name(*scope)) by {
                                reveal_strlit("this is a Some(");
                                reveal_strlit("this is a ");
                                reveal_strlit("Some(");
                                reveal_strlit("), not a ");
                                reveal_strlit(")");
                                reveal_strlit(", not a ");
                            }
                        }
                        Some(veto_with("WithinScope", because))
                    }
                },
                None => {
                    let mut because = String::from_str("this is a None, not a ");
                    because.append(scope.as_str());
                    proof {
                        assert(because@ == "this is a "@ + kind_debug(kind) + ", not a "@
                            + kind_name(*scope)) by {
                            reveal_strlit("this is a None, not a ");
                            reveal_strlit("this is a ");
                            reveal_strlit("None");
                            reveal_strlit(", not a ");
                        }
                    }
                    Some(veto_with("WithinScope", because))
                },
            }
        },
        Constraint::NotWithinScope { scope } => {
            let here = match kind {
                Some(k) => k == *scope,
                None => false,
            };
            if here {
                let mut because = String::from_str("this is a ");
                because.append(scope.as_str());
                Some(veto_with("NotWithinScope", because))
            } else {
                None
            }
        },
        Constraint::MountedOn { accepts } => {
            if any_surface_matches(accepts, &s.surface_tags) {
                None
            } else {
                Some(veto_with("MountedOn", String::from_str("no matching socket here")))
            }
        },
        Constraint::SpherePin { min, max } => {
            match s.sphere {
                Some(sp) => {
                    if sp < *min || sp > *max {
                        let mut because = String::from_str("sphere ");
                        let a = decimal_text(sp as u64);
                        because.append(a.as_str());
                        because.append(" is outside ");
                        let b = decimal_text(*min as u64);
                        because.append(b.as_str());
                        because.append("..=");
                        let d = decimal_text(*max as u64);
                        because.append(d.as_str());
                        Some(veto_with("SpherePin", because))
                    } else {
                        None
                    }
                },
                None => None,
            }
        },
    }
}

/// The scope kind the first `WithinScope` constraint names, from index `i` on.
pub open spec fn within_from(cs: Seq<Constraint>, i: int) -> Option<NodeKind>
    decreases cs.len() - i,
{
    if i < 0 || i >= cs.len() {
        None
    } else {
        match cs[i] {
            Constraint::WithinScope { scope } => Some(scope),
            _ => within_from(cs, i + 1),
        }
    }
}

/// The scope kind a content asks to be placed in: what the first `WithinScope` constraint names.
pub fn preferred_kind(constraints: &[Constraint]) -> (k: Option<NodeKind>)
    ensures
        k == within_from(constraints@, 0),
{
    let mut i: usize = 0;
    while i < constraints.len()
        invariant
            i <= constraints@.len(),
            within_from(constraints@, 0) == within_from(constraints@, i as int),
        decreases constraints@.len() - i,
    {
        match &constraints[i] {
            Constraint::WithinScope { scope } => {
                return Some(*scope);
            },
            _ => {},
        }
        i += 1;
    }
    None
}

/// The `WithinScope` that stands at index `i` and is the first of its variant.
pub open spec fn first_within_at(cs: Seq<Constraint>, i: int, k: NodeKind) -> bool {
    &&& 0 <= i < cs.len()
    &&& cs[i] == Constraint::WithinScope { scope: k }
    &&& forall|j: int| 0 <= j < i ==> !(#[trigger] cs[j] is WithinScope)
}

proof fn lemma_within_from_skips(cs: Seq<Constraint>, from: int, i: int, k: NodeKind)
    requires
        0 <= from <= i,
        first_within_at(cs, i, k),
    ensures
        within_from(cs, from) == Some(k),
    decreases i - from,
{
    if from < i {
        assert(!(cs[from] is WithinScope));
        lemma_within_from_skips(cs, from + 1, i, k);
    }
}

proof fn lemma_within_from_none(cs: Seq<Constraint>, from: int)
    requires
        0 <= from,
        forall|j: int| 0 <= j < cs.len() ==> !(#[trigger] cs[j] is WithinScope),
    ensures
        within_from(cs, from) is None,
    decreases cs.len() - from,
{
    if from < cs.len() {
        assert(!(cs[from] is WithinScope));
        lemma_within_from_none(cs, from + 1);
    }
}

/// **The preferred kind is the first `WithinScope`, wherever it stands.** Constraints of other
/// variants before it never change the answer; with no `WithinScope` at all there is no
/// preference.
pub proof fn law_the_first_within_scope_decides(cs: Seq<Constraint>, i: int, k: NodeKind)
    ensures
        first_within_at(cs, i, k) ==> within_from(cs, 0) == Some(k),
        (forall|j: int| 0 <= j < cs.len() ==> !(#[trigger] cs[j] is WithinScope)) <==> within_from(
            cs,
            0,
        ) is None,
{
    if first_within_at(cs, i, k) {
        lemma_within_from_skips(cs, 0, i, k);
    }
    if forall|j: int| 0 <= j < cs.len() ==> !(#[trigger] cs[j] is WithinScope) {
        lemma_within_from_none(cs, 0);
    } else {
        let w = choose|j: int| 0 <= j < cs.len() && #[trigger] cs[j] is WithinScope;
        let first = lemma_first_within(cs, w);
        lemma_within_from_skips(cs, 0, first, cs[first]->WithinScope_scope);
    }
}

proof fn lemma_first_within(cs: Seq<Constraint>, w: int) -> (first: int)
    requires
        0 <= w < cs.len(),
        cs[w] is WithinScope,
    ensures
        first_within_at(cs, first, cs[first]->WithinScope_scope),
    decreases w,
{
    if forall|j: int| 0 <= j < w ==> !(#[trigger] cs[j] is WithinScope) {
        w
    } else {
        let v = choose|j: int| 0 <= j < w && #[trigger] cs[j] is WithinScope;
        lemma_first_within(cs, v)
    }
}

broadcast use Handle::lemma_parts_determine;

/// Is `y` exactly `k` hops from one of `locks`, gates ignored?
pub open spec fn ring_of_some<B>(es: Seq<MissionEdge<B>>, locks: Seq<Handle<Node<B>>>, k: nat, y: Handle<Node<B>>) -> bool {
    exists|i: int| 0 <= i < locks.len() && #[trigger] in_ring(es, locks[i], k, y)
}

/// The nearest of `locks` to `y` is `d` hops away, gates ignored.
pub open spec fn nearest_at<B>(es: Seq<MissionEdge<B>>, locks: Seq<Handle<Node<B>>>, d: nat, y: Handle<Node<B>>) -> bool {
    &&& ring_of_some(es, locks, d, y)
    &&& forall|k: nat| k < d ==> !#[trigger] ring_of_some(es, locks, k, y)
}

/// Does a walk, gates ignored, lead from one of `locks` to `y`?
pub open spec fn reached_from_some<B>(es: Seq<MissionEdge<B>>, locks: Seq<Handle<Node<B>>>, y: Handle<Node<B>>) -> bool {
    exists|i: int| 0 <= i < locks.len() && #[trigger] reaches(es, Seq::empty(), false, locks[i], y)
}

/// A scope is first reached in one ring only.
proof fn lemma_ring_unique<B>(es: Seq<MissionEdge<B>>, origin: Handle<Node<B>>, j: nat, k: nat, y: Handle<Node<B>>)
    requires
        in_ring(es, origin, j, y),
        j < k,
    ensures
        !in_ring(es, origin, k, y),
{
    lemma_within_grows(es, origin, j, (k - 1) as nat, y);
}

/// Where the entry for `h` stands in a table.
fn entry_index<B>(table: &Vec<(Handle<Node<B>>, u32)>, h: Handle<Node<B>>) -> (r: Option<usize>)
    ensures
        r matches Some(p) ==> p < table@.len() && table@[p as int].0 == h,
        r is None ==> !table_keys(table@).contains(h),
{
    let mut i: usize = 0;
    while i < table.len()
        invariant
            i <= table@.len(),
            forall|j: int| 0 <= j < i ==> table@[j].0 != h,
        decreases table@.len() - i,
    {
        if table[i].0 == h {
            return Some(i);
        }
        i += 1;
    }
    proof {
        if table_keys(table@).contains(h) {
            let k = choose|k: int| 0 <= k < table@.len() && table_keys(table@)[k] == h;
            assert(table@[k].0 == h);
        }
    }
    None
}

/// Hop distance from each scope to the nearest of the scopes holding locks, gates ignored, in
/// handle order: every scope some lock reaches, with the fewest hops from any lock to it.
///
/// Taken once before scoring, so one placement cannot change what the next is scored against.
pub fn hops_to_locks<B>(mission: &MissionGraph<B>, lock_scopes: &[Handle<Node<B>>]) -> (out: Vec<(Handle<Node<B>>, u32)>)
    requires
        mission@.edges.len() < 0x8000_0000,
    ensures
        handles_sorted(table_keys(out@)),
        forall|y: Handle<Node<B>>| #[trigger] table_keys(out@).contains(y) <==> reached_from_some(mission@.edges, lock_scopes@, y),
        forall|q: int| 0 <= q < out@.len() ==> nearest_at(mission@.edges, lock_scopes@, (#[trigger] out@[q]).1 as nat, out@[q].0),
{
    let ghost es = mission@.edges;
    let ghost locks = lock_scopes@;
    let mut out: Vec<(Handle<Node<B>>, u32)> = Vec::new();
    let mut j: usize = 0;
    while j < lock_scopes.len()
        invariant
            j <= locks.len(),
            es == mission@.edges,
            locks == lock_scopes@,
            es.len() < 0x8000_0000,
            handles_sorted(table_keys(out@)),
            forall|y: Handle<Node<B>>| #[trigger] table_keys(out@).contains(y) <==> reached_from_some(es, locks.take(j as int), y),
            forall|q: int| 0 <= q < out@.len() ==> nearest_at(es, locks.take(j as int), (#[trigger] out@[q]).1 as nat, out@[q].0),
        decreases locks.len() - j,
    {
        let lock = lock_scopes[j];
        let t = mission.distances_from(lock);
        let ghost before = locks.take(j as int);
        let ghost after = locks.take(j + 1);
        proof {
            assert(after =~= before.push(lock));
            assert forall|y: Handle<Node<B>>, k: nat| #[trigger] ring_of_some(es, after, k, y) <==> (ring_of_some(es, before, k, y) || in_ring(es, lock, k, y)) by {
                if ring_of_some(es, after, k, y) {
                    let i = choose|i: int| 0 <= i < after.len() && #[trigger] in_ring(es, after[i], k, y);
                    if i < j {
                        assert(before[i] == after[i]);
                    }
                }
                if ring_of_some(es, before, k, y) {
                    let i = choose|i: int| 0 <= i < before.len() && #[trigger] in_ring(es, before[i], k, y);
                    assert(after[i] == before[i]);
                }
                if in_ring(es, lock, k, y) {
                    assert(after[j as int] == lock);
                }
            }
            assert forall|y: Handle<Node<B>>| #[trigger] reached_from_some(es, after, y) <==> (reached_from_some(es, before, y) || reaches(es, Seq::empty(), false, lock, y)) by {
                if reached_from_some(es, after, y) {
                    let i = choose|i: int| 0 <= i < after.len() && #[trigger] reaches(es, Seq::empty(), false, after[i], y);
                    if i < j {
                        assert(before[i] == after[i]);
                    }
                }
                if reached_from_some(es, before, y) {
                    let i = choose|i: int| 0 <= i < before.len() && #[trigger] reaches(es, Seq::empty(), false, before[i], y);
                    assert(after[i] == before[i]);
                }
                if reaches(es, Seq::empty(), false, lock, y) {
                    assert(after[j as int] == lock);
                }
            }
            // A scope the lock does not reach is no ring's away from it.
            assert forall|q: int, k: nat| 0 <= q < out@.len() && !table_keys(t@).contains(out@[q].0) implies !#[trigger] in_ring(es, lock, k, out@[q].0) by {
                if in_ring(es, lock, k, out@[q].0) {
                    lemma_ring_reached(es, lock, k, out@[q].0);
                }
            }
        }
        let mut m: usize = 0;
        while m < t.len()
            invariant
                m <= t@.len(),
                es == mission@.edges,
                handles_sorted(table_keys(t@)),
                forall|y: Handle<Node<B>>| #[trigger] table_keys(t@).contains(y) <==> reaches(es, Seq::empty(), false, lock, y),
                forall|i: int| 0 <= i < t@.len() ==> #[trigger] in_ring(es, lock, t@[i].1 as nat, t@[i].0),
                forall|y: Handle<Node<B>>, k: nat| #[trigger] ring_of_some(es, after, k, y) <==> (ring_of_some(es, before, k, y) || in_ring(es, lock, k, y)),
                handles_sorted(table_keys(out@)),
                forall|y: Handle<Node<B>>| #[trigger] table_keys(out@).contains(y) <==> (reached_from_some(es, before, y) || table_keys(t@.take(m as int)).contains(y)),
                forall|q: int| 0 <= q < out@.len() ==> {
                    let (y, d) = #[trigger] out@[q];
                    &&& ring_of_some(es, after, d as nat, y)
                    &&& forall|k: nat| k < d ==> !#[trigger] ring_of_some(es, before, k, y)
                    &&& (!table_keys(t@).contains(y) || table_keys(t@.take(m as int)).contains(y)) ==> forall|k: nat| k < d ==> !#[trigger] in_ring(es, lock, k, y)
                },
            decreases t@.len() - m,
        {
            let (y, dj) = t[m];
            let ghost o0 = out@;
            proof {
                assert(t@.take(m + 1) =~= t@.take(m as int).push(t@[m as int]));
                assert(table_keys(t@.take(m + 1)) =~= table_keys(t@.take(m as int)).push(y));
                assert(table_keys(t@)[m as int] == y);
                assert(in_ring(es, lock, dj as nat, y));
                assert(!table_keys(t@.take(m as int)).contains(y)) by {
                    if table_keys(t@.take(m as int)).contains(y) {
                        let w = choose|w: int| 0 <= w < m && table_keys(t@.take(m as int))[w] == y;
                        assert(table_keys(t@)[w] == y);
                    }
                }
                assert forall|k: nat| k < dj implies !#[trigger] in_ring(es, lock, k, y) by {
                    if in_ring(es, lock, k, y) {
                        lemma_ring_unique(es, lock, k, dj as nat, y);
                    }
                }
            }
            match entry_index(&out, y) {
                Some(p) => {
                    let best = out[p].1;
                    if dj < best {
                        out.set(p, (y, dj));
                        proof {
                            assert(table_keys(out@) =~= table_keys(o0));
                        }
                    }
                    proof {
                        assert(table_keys(out@) =~= table_keys(o0));
                        assert(table_keys(o0)[p as int] == y);
                        assert(table_keys(o0).contains(y));
                        assert forall|q: int| 0 <= q < out@.len() implies {
                            let (y2, d) = #[trigger] out@[q];
                            &&& ring_of_some(es, after, d as nat, y2)
                            &&& forall|k: nat| k < d ==> !#[trigger] ring_of_some(es, before, k, y2)
                            &&& (!table_keys(t@).contains(y2) || table_keys(t@.take(m + 1)).contains(y2)) ==> forall|k: nat| k < d ==> !#[trigger] in_ring(es, lock, k, y2)
                        } by {
                            if q != p {
                                assert(out@[q] == o0[q]);
                                if out@[q].0 == y {
                                    assert(table_keys(o0)[q] == y && table_keys(o0)[p as int] == y);
                                    assert(q == p);
                                }
                                assert(table_keys(t@.take(m + 1)).contains(out@[q].0) ==> table_keys(t@.take(m as int)).contains(out@[q].0));
                            } else {
                                assert(o0[p as int] == (y, best));
                                if dj < best {
                                    assert(ring_of_some(es, after, dj as nat, y));
                                } else {
                                    assert forall|k: nat| k < best implies !#[trigger] in_ring(es, lock, k, y) by {
                                        if in_ring(es, lock, k, y) && k >= dj {
                                            if k > dj {
                                                lemma_ring_unique(es, lock, dj as nat, k, y);
                                            }
                                        }
                                    }
                                }
                            }
                        }
                    }
                },
                None => {
                    proof {
                        assert(!reached_from_some(es, before, y));
                        assert forall|k: nat| k < dj implies !#[trigger] ring_of_some(es, before, k, y) by {
                            if ring_of_some(es, before, k, y) {
                                let i = choose|i: int| 0 <= i < before.len() && #[trigger] in_ring(es, before[i], k, y);
                                lemma_ring_reached(es, before[i], k, y);
                                assert(reaches(es, Seq::empty(), false, before[i], y));
                            }
                        }
                        assert(ring_of_some(es, after, dj as nat, y));
                    }
                    insert_entry(&mut out, y, dj);
                    proof {
                        assert forall|q: int| 0 <= q < out@.len() implies {
                            let (y2, d) = #[trigger] out@[q];
                            &&& ring_of_some(es, after, d as nat, y2)
                            &&& forall|k: nat| k < d ==> !#[trigger] ring_of_some(es, before, k, y2)
                            &&& (!table_keys(t@).contains(y2) || table_keys(t@.take(m + 1)).contains(y2)) ==> forall|k: nat| k < d ==> !#[trigger] in_ring(es, lock, k, y2)
                        } by {
                            if out@[q] != (y, dj) {
                                assert(o0.contains(out@[q]));
                                let w = choose|w: int| 0 <= w < o0.len() && o0[w] == out@[q];
                                assert(table_keys(o0)[w] == out@[q].0);
                                if out@[q].0 == y {
                                    assert(table_keys(o0).contains(y));
                                }
                            }
                        }
                    }
                },
            }
            proof {
                assert forall|x: Handle<Node<B>>| #[trigger] table_keys(out@).contains(x) <==> (reached_from_some(es, before, x) || table_keys(t@.take(m + 1)).contains(x)) by {
                    assert(table_keys(out@).contains(x) <==> (table_keys(o0).contains(x) || x == y));
                    let tk = table_keys(t@.take(m as int));
                    assert(table_keys(t@.take(m + 1)) =~= tk.push(y));
                    if tk.push(y).contains(x) {
                        let w = choose|w: int| 0 <= w < tk.len() + 1 && tk.push(y)[w] == x;
                        if w < tk.len() {
                            assert(tk[w] == x);
                        }
                    }
                    if tk.contains(x) {
                        let w = choose|w: int| 0 <= w < tk.len() && tk[w] == x;
                        assert(tk.push(y)[w] == x);
                    }
                    if x == y {
                        assert(tk.push(y)[tk.len() as int] == x);
                    }
                }
            }
            m += 1;
        }
        proof {
            assert(t@.take(m as int) =~= t@);
            assert forall|q: int| 0 <= q < out@.len() implies nearest_at(es, after, (#[trigger] out@[q]).1 as nat, out@[q].0) by {
                let (y, d) = out@[q];
                assert forall|k: nat| k < d implies !#[trigger] ring_of_some(es, after, k, y) by {
                    assert(!ring_of_some(es, before, k, y));
                    assert(!in_ring(es, lock, k, y));
                }
            }
        }
        j += 1;
    }
    proof {
        assert(locks.take(j as int) =~= locks);
    }
    out
}

} // verus!
