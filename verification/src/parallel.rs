//! Parallel groups: sibling slots that all exist, whose relative order is unconstrained, all
//! accessible from the group's predecessor and all leading to its successor.
//!
//! The structure is series-parallel, never a general graph: that keeps a well-defined before/after
//! for every pair of slots, which is what the ordering check behind symbolic grants depends on. A
//! permutable run ("these three rooms in any order") is a parallel group of length n.

use crate::text::{
    debug_quoted, find_text, owned_texts, texts, holds_text, index_from, lemma_index_from, same_text, str_debug, strs,
    text_less, text_lt, lemma_text_lt_irreflexive, lemma_text_lt_total, lemma_text_lt_transitive,
};
use vstd::prelude::*;

verus! {

/// How two slots are ordered relative to each other.
#[derive(Clone, Copy, Debug, PartialEq, Eq, Structural)]
pub enum SlotOrder {
    /// The first provably precedes the second.
    Before,
    /// The first provably follows the second.
    After,
    /// Both are in the same parallel group: neither precedes the other, and that is stated, not
    /// unknown.
    Unordered,
    /// The graph is not series-parallel, so the question has no answer by inspection.
    Incomparable,
}

impl SlotOrder {
    /// The same relation read from the other slot.
    pub open spec fn converse(self) -> SlotOrder {
        match self {
            SlotOrder::Before => SlotOrder::After,
            SlotOrder::After => SlotOrder::Before,
            SlotOrder::Unordered => SlotOrder::Unordered,
            SlotOrder::Incomparable => SlotOrder::Incomparable,
        }
    }

    /// How the answer reads in a report.
    pub fn to_string(&self) -> (s: String)
        ensures
            s@ == order_text(*self),
    {
        String::from_str(
            match self {
                SlotOrder::Before => "before",
                SlotOrder::After => "after",
                SlotOrder::Unordered => "unordered (a parallel group)",
                SlotOrder::Incomparable => "incomparable — the graph is not series-parallel",
            },
        )
    }
}

/// The report text of an ordering answer.
pub open spec fn order_text(o: SlotOrder) -> Seq<char> {
    match o {
        SlotOrder::Before => "before"@,
        SlotOrder::After => "after"@,
        SlotOrder::Unordered => "unordered (a parallel group)"@,
        SlotOrder::Incomparable => "incomparable — the graph is not series-parallel"@,
    }
}

/// Why a spine's ordering is not series-parallel, as plain values.
pub enum Rejection {
    SlotInTwoGroups(Seq<char>),
    UnknownSlot(Seq<char>),
    SelfBounded(Seq<char>, Seq<char>),
    Interleaved(Seq<char>, Seq<char>),
}

/// Why a spine's ordering is not series-parallel.
#[derive(Clone, Debug, PartialEq, Eq)]
pub enum NotSeriesParallel {
    /// A slot appears in more than one group.
    SlotInTwoGroups { slot: String },
    /// A group names a slot that does not exist.
    UnknownSlot { slot: String },
    /// A group's predecessor or successor is inside the group itself.
    SelfBounded { group: String, slot: String },
    /// Two groups overlap in the sequence without nesting: the general-graph case.
    Interleaved { a: String, b: String },
}

impl View for NotSeriesParallel {
    type V = Rejection;

    open spec fn view(&self) -> Rejection {
        match self {
            NotSeriesParallel::SlotInTwoGroups { slot } => Rejection::SlotInTwoGroups(slot@),
            NotSeriesParallel::UnknownSlot { slot } => Rejection::UnknownSlot(slot@),
            NotSeriesParallel::SelfBounded { group, slot } => Rejection::SelfBounded(group@, slot@),
            NotSeriesParallel::Interleaved { a, b } => Rejection::Interleaved(a@, b@),
        }
    }
}

/// The message for a rejection. Every one names the slots or groups involved.
pub open spec fn rejection_text(r: Rejection) -> Seq<char> {
    match r {
        Rejection::SlotInTwoGroups(s) => "slot "@ + str_debug(s) + " is in two parallel groups"@,
        Rejection::UnknownSlot(s) => "no slot named "@ + str_debug(s),
        Rejection::SelfBounded(g, s) => "group "@ + str_debug(g) + " is bounded by "@ + str_debug(s)
            + ", which is inside it"@,
        Rejection::Interleaved(a, b) => "groups "@ + str_debug(a) + " and "@ + str_debug(b)
            + interleaved_tail(),
    }
}

/// Why interleaving is refused, as the message spells it out.
pub open spec fn interleaved_tail() -> Seq<char> {
    " overlap without nesting — the spine is a general graph, and a general graph has no provable before/after for every pair of slots, which is what symbolic grants are checked against"@
}

impl NotSeriesParallel {
    /// The message the editor renders beside the offending wire.
    pub fn to_string(&self) -> (s: String)
        ensures
            s@ == rejection_text(self@),
    {
        match self {
            NotSeriesParallel::SlotInTwoGroups { slot } => {
                let mut s = String::from_str("slot ");
                let q = debug_quoted(slot.as_str());
                s.append(q.as_str());
                s.append(" is in two parallel groups");
                s
            },
            NotSeriesParallel::UnknownSlot { slot } => {
                let mut s = String::from_str("no slot named ");
                let q = debug_quoted(slot.as_str());
                s.append(q.as_str());
                s
            },
            NotSeriesParallel::SelfBounded { group, slot } => {
                let mut s = String::from_str("group ");
                let q = debug_quoted(group.as_str());
                s.append(q.as_str());
                s.append(" is bounded by ");
                let r = debug_quoted(slot.as_str());
                s.append(r.as_str());
                s.append(", which is inside it");
                s
            },
            NotSeriesParallel::Interleaved { a, b } => {
                let mut s = String::from_str("groups ");
                let q = debug_quoted(a.as_str());
                s.append(q.as_str());
                s.append(" and ");
                let r = debug_quoted(b.as_str());
                s.append(r.as_str());
                s.append(
                    " overlap without nesting — the spine is a general graph, and a general graph has no provable before/after for every pair of slots, which is what symbolic grants are checked against",
                );
                s
            },
        }
    }
}

/// A parallel group as plain values.
pub struct GroupShape {
    pub name: Seq<char>,
    pub predecessor: Seq<char>,
    pub successor: Seq<char>,
    pub members: Seq<Seq<char>>,
}

/// Sibling slots that all exist and are mutually unordered.
#[derive(Clone, Debug, PartialEq, Eq)]
pub struct ParallelGroup {
    /// A name for reports.
    pub name: String,
    /// The slot every member is reachable from.
    pub predecessor: String,
    /// The slot every member leads to.
    pub successor: String,
    /// The members, in authored order, which is not a placement order.
    pub members: Vec<String>,
}

impl View for ParallelGroup {
    type V = GroupShape;

    open spec fn view(&self) -> GroupShape {
        GroupShape {
            name: self.name@,
            predecessor: self.predecessor@,
            successor: self.successor@,
            members: strs(self.members@),
        }
    }
}

/// The plain values of a list of groups.
pub open spec fn shapes(gs: Seq<ParallelGroup>) -> Seq<GroupShape> {
    gs.map_values(|g: ParallelGroup| g@)
}

impl ParallelGroup {
    /// A group between two slots.
    pub fn new(name: &str, predecessor: &str, successor: &str, members: &[&str]) -> (g:
        ParallelGroup)
        ensures
            g@ == (GroupShape {
                name: name@,
                predecessor: predecessor@,
                successor: successor@,
                members: texts(members@),
            }),
    {
        ParallelGroup {
            name: String::from_str(name),
            predecessor: String::from_str(predecessor),
            successor: String::from_str(successor),
            members: owned_texts(members),
        }
    }

    /// Is this slot a member?
    pub fn contains(&self, slot: &str) -> (b: bool)
        ensures
            b == self@.members.contains(slot@),
    {
        holds_text(self.members.as_slice(), slot)
    }

    /// A group of one is a plain slot, and a group of none is nothing at all: a group that relaxed
    /// down to one member stops claiming to be a fork.
    pub fn is_degenerate(&self) -> (b: bool)
        ensures
            b == (self@.members.len() < 2),
    {
        self.members.len() < 2
    }
}

// ---------------------------------------------------------------------------------------------
// The ordering relation
// ---------------------------------------------------------------------------------------------

/// The first group, from index `k` on, that has `slot` as a member.
pub open spec fn group_from(gs: Seq<GroupShape>, slot: Seq<char>, k: int) -> Option<int>
    decreases gs.len() - k,
{
    if k < 0 || k >= gs.len() {
        None
    } else if gs[k].members.contains(slot) {
        Some(k)
    } else {
        group_from(gs, slot, k + 1)
    }
}

proof fn lemma_group_from(gs: Seq<GroupShape>, slot: Seq<char>, k: int)
    requires
        0 <= k,
    ensures
        match group_from(gs, slot, k) {
            Some(j) => k <= j < gs.len() && gs[j].members.contains(slot),
            None => forall|j: int| k <= j < gs.len() ==> !(#[trigger] gs[j].members.contains(slot)),
        },
    decreases gs.len() - k,
{
    if k < gs.len() && !gs[k].members.contains(slot) {
        lemma_group_from(gs, slot, k + 1);
    }
}

/// Where a slot sits on the main line: its own position, or, for a group member, its group's
/// predecessor's.
pub open spec fn anchor(line: Seq<Seq<char>>, gs: Seq<GroupShape>, slot: Seq<char>) -> Option<int> {
    match index_from(line, slot, 0) {
        Some(i) => Some(i),
        None => match group_from(gs, slot, 0) {
            Some(k) => index_from(line, gs[k].predecessor, 0),
            None => None,
        },
    }
}

/// Are `a` and `b` members of groups with the same name?
pub open spec fn same_group(gs: Seq<GroupShape>, a: Seq<char>, b: Seq<char>) -> bool {
    match (group_from(gs, a, 0), group_from(gs, b, 0)) {
        (Some(x), Some(y)) => gs[x].name == gs[y].name,
        _ => false,
    }
}

/// How `a` is ordered against `b`. A slot is unordered against itself and against the members of
/// its own group; otherwise the main-line positions decide, a member sitting just after its
/// group's predecessor; a slot with no position is incomparable.
pub open spec fn order_of(line: Seq<Seq<char>>, gs: Seq<GroupShape>, a: Seq<char>, b: Seq<char>) -> SlotOrder {
    if a == b || same_group(gs, a, b) {
        SlotOrder::Unordered
    } else {
        match (anchor(line, gs, a), anchor(line, gs, b)) {
            (Some(ia), Some(ib)) => if ia < ib {
                SlotOrder::Before
            } else if ia > ib {
                SlotOrder::After
            } else {
                match (group_from(gs, a, 0), group_from(gs, b, 0)) {
                    (Some(_), None) => SlotOrder::After,
                    (None, Some(_)) => SlotOrder::Before,
                    (Some(_), Some(_)) => SlotOrder::Unordered,
                    (None, None) => SlotOrder::Incomparable,
                }
            },
            _ => SlotOrder::Incomparable,
        }
    }
}

/// The members of every group hung off `s`, in group order, among the groups before index `k`.
pub open spec fn hung_off(gs: Seq<GroupShape>, s: Seq<char>, k: int) -> Seq<Seq<char>>
    decreases k,
{
    if k <= 0 {
        Seq::empty()
    } else {
        hung_off(gs, s, k - 1) + if gs[k - 1].predecessor == s {
            gs[k - 1].members
        } else {
            Seq::empty()
        }
    }
}

/// The first `n` main-line slots, each followed by the members of the groups it precedes.
pub open spec fn slots_upto(line: Seq<Seq<char>>, gs: Seq<GroupShape>, n: int) -> Seq<Seq<char>>
    decreases n,
{
    if n <= 0 {
        Seq::empty()
    } else {
        slots_upto(line, gs, n - 1).push(line[n - 1]) + hung_off(gs, line[n - 1], gs.len() as int)
    }
}

/// Every slot, main line and group members alike.
pub open spec fn all_slots(line: Seq<Seq<char>>, gs: Seq<GroupShape>) -> Seq<Seq<char>> {
    slots_upto(line, gs, line.len() as int)
}

// ---------------------------------------------------------------------------------------------
// Validation
// ---------------------------------------------------------------------------------------------

/// The members of the groups before index `k`, in order.
pub open spec fn members_before(gs: Seq<GroupShape>, k: int) -> Seq<Seq<char>>
    decreases k,
{
    if k <= 0 {
        Seq::empty()
    } else {
        members_before(gs, k - 1) + gs[k - 1].members
    }
}

/// The first member, from index `j` on, already seen before it: in `prior` or earlier in `ms`.
pub open spec fn first_clash(prior: Seq<Seq<char>>, ms: Seq<Seq<char>>, j: int) -> Option<Seq<char>>
    decreases ms.len() - j,
{
    if j < 0 || j >= ms.len() {
        None
    } else if (prior + ms.take(j)).contains(ms[j]) {
        Some(ms[j])
    } else {
        first_clash(prior, ms, j + 1)
    }
}

/// What is wrong with group `k` on its own: a member seen before, then a bound inside the group
/// or missing from the line, predecessor before successor.
pub open spec fn group_fault(line: Seq<Seq<char>>, gs: Seq<GroupShape>, k: int) -> Option<Rejection> {
    let g = gs[k];
    match first_clash(members_before(gs, k), g.members, 0) {
        Some(m) => Some(Rejection::SlotInTwoGroups(m)),
        None => if g.members.contains(g.predecessor) {
            Some(Rejection::SelfBounded(g.name, g.predecessor))
        } else if index_from(line, g.predecessor, 0) is None {
            Some(Rejection::UnknownSlot(g.predecessor))
        } else if g.members.contains(g.successor) {
            Some(Rejection::SelfBounded(g.name, g.successor))
        } else if index_from(line, g.successor, 0) is None {
            Some(Rejection::UnknownSlot(g.successor))
        } else {
            None
        },
    }
}

/// The first group fault, from group `k` on.
pub open spec fn first_fault(line: Seq<Seq<char>>, gs: Seq<GroupShape>, k: int) -> Option<Rejection>
    decreases gs.len() - k,
{
    if k < 0 || k >= gs.len() {
        None
    } else {
        match group_fault(line, gs, k) {
            Some(r) => Some(r),
            None => first_fault(line, gs, k + 1),
        }
    }
}

/// The main-line position of `s`, or `-1`.
pub open spec fn at(line: Seq<Seq<char>>, s: Seq<char>) -> int {
    match index_from(line, s, 0) {
        Some(i) => i,
        None => -1,
    }
}

/// The stretch of the main line a group spans, low end first.
pub open spec fn span(line: Seq<Seq<char>>, g: GroupShape) -> (int, int) {
    let a = at(line, g.predecessor);
    let b = at(line, g.successor);
    if a <= b {
        (a, b)
    } else {
        (b, a)
    }
}

/// Two spans are disjoint or one nests in the other.
pub open spec fn nest_or_apart(s: (int, int), t: (int, int)) -> bool {
    (s.1 <= t.0 || t.1 <= s.0) || (s.0 <= t.0 && t.1 <= s.1) || (t.0 <= s.0 && s.1 <= t.1)
}

/// Groups `i` and `j` do not interleave.
pub open spec fn compatible(line: Seq<Seq<char>>, gs: Seq<GroupShape>, i: int, j: int) -> bool {
    nest_or_apart(span(line, gs[i]), span(line, gs[j]))
}

/// The whole structure is series-parallel: no group fault, and no two groups interleave.
pub open spec fn series_parallel(line: Seq<Seq<char>>, gs: Seq<GroupShape>) -> bool {
    &&& first_fault(line, gs, 0) is None
    &&& forall|i: int, j: int| 0 <= i < j < gs.len() ==> #[trigger] compatible(line, gs, i, j)
}

/// How many members the last group named `name`, among those before index `k`, has.
pub open spec fn last_size(gs: Seq<GroupShape>, name: Seq<char>, k: int) -> Option<nat>
    decreases k,
{
    if k <= 0 {
        None
    } else if gs[k - 1].name == name {
        Some(gs[k - 1].members.len())
    } else {
        last_size(gs, name, k - 1)
    }
}

// ---------------------------------------------------------------------------------------------
// SeriesParallel
// ---------------------------------------------------------------------------------------------

/// A spine's slot sequence plus its parallel groups, with the ordering question answerable.
#[derive(Clone, Debug, PartialEq)]
pub struct SeriesParallel {
    /// The main-line slots in order. Group members are not in here.
    line: Vec<String>,
    groups: Vec<ParallelGroup>,
}

impl SeriesParallel {
    /// The main line, as plain values.
    pub closed spec fn line_spec(self) -> Seq<Seq<char>> {
        strs(self.line@)
    }

    /// The groups, as plain values.
    pub closed spec fn groups_spec(self) -> Seq<GroupShape> {
        shapes(self.groups@)
    }

    /// An empty sequence.
    pub fn new() -> (sp: SeriesParallel)
        ensures
            sp.line_spec() == Seq::<Seq<char>>::empty(),
            sp.groups_spec() == Seq::<GroupShape>::empty(),
    {
        let sp = SeriesParallel { line: Vec::new(), groups: Vec::new() };
        assert(sp.line_spec() =~= Seq::<Seq<char>>::empty());
        assert(sp.groups_spec() =~= Seq::<GroupShape>::empty());
        sp
    }

    /// Append a main-line slot.
    pub fn slot(self, name: &str) -> (sp: SeriesParallel)
        ensures
            sp.line_spec() == self.line_spec().push(name@),
            sp.groups_spec() == self.groups_spec(),
    {
        let mut sp = self;
        sp.line.push(String::from_str(name));
        assert(strs(sp.line@) =~= self.line_spec().push(name@));
        sp
    }

    /// Add a parallel group.
    pub fn group(self, g: ParallelGroup) -> (sp: SeriesParallel)
        ensures
            sp.line_spec() == self.line_spec(),
            sp.groups_spec() == self.groups_spec().push(g@),
    {
        let ghost gv = g@;
        let mut sp = self;
        sp.groups.push(g);
        assert(shapes(sp.groups@) =~= self.groups_spec().push(gv));
        sp
    }

    /// The main line, in order.
    pub fn line(&self) -> (l: &[String])
        ensures
            strs(l@) == self.line_spec(),
    {
        self.line.as_slice()
    }

    /// Every group.
    pub fn groups(&self) -> (g: &[ParallelGroup])
        ensures
            shapes(g@) == self.groups_spec(),
    {
        self.groups.as_slice()
    }

    /// The index of the first group that has `slot` as a member.
    fn group_index(&self, slot: &str) -> (r: Option<usize>)
        ensures
            match r {
                Some(k) => group_from(self.groups_spec(), slot@, 0) == Some(k as int),
                None => group_from(self.groups_spec(), slot@, 0) is None,
            },
    {
        let ghost gs = self.groups_spec();
        let mut k: usize = 0;
        while k < self.groups.len()
            invariant
                k <= self.groups@.len(),
                gs == self.groups_spec(),
                group_from(gs, slot@, 0) == group_from(gs, slot@, k as int),
            decreases self.groups@.len() - k,
        {
            if self.groups[k].contains(slot) {
                return Some(k);
            }
            k += 1;
        }
        None
    }

    /// The group a slot belongs to, if any.
    pub fn group_of(&self, slot: &str) -> (g: Option<&ParallelGroup>)
        ensures
            match g {
                Some(x) => group_from(self.groups_spec(), slot@, 0) matches Some(k) && x@
                    == self.groups_spec()[k],
                None => group_from(self.groups_spec(), slot@, 0) is None,
            },
    {
        let r = self.group_index(slot);
        proof {
            lemma_group_from(self.groups_spec(), slot@, 0);
        }
        match r {
            Some(k) => Some(&self.groups[k]),
            None => None,
        }
    }

    /// Where a slot sits on the main line, given the group it belongs to.
    fn anchor_of(&self, slot: &str, g: Option<usize>) -> (r: Option<usize>)
        requires
            match g {
                Some(k) => group_from(self.groups_spec(), slot@, 0) == Some(k as int),
                None => group_from(self.groups_spec(), slot@, 0) is None,
            },
        ensures
            match r {
                Some(i) => anchor(self.line_spec(), self.groups_spec(), slot@) == Some(i as int),
                None => anchor(self.line_spec(), self.groups_spec(), slot@) is None,
            },
    {
        match find_text(self.line.as_slice(), slot) {
            Some(i) => Some(i),
            None => match g {
                Some(k) => {
                    proof {
                        lemma_group_from(self.groups_spec(), slot@, 0);
                    }
                    find_text(self.line.as_slice(), self.groups[k].predecessor.as_str())
                },
                None => None,
            },
        }
    }

    /// Does `a` provably precede `b`? This is the question symbolic grants are checked against.
    pub fn order(&self, a: &str, b: &str) -> (o: SlotOrder)
        ensures
            o == order_of(self.line_spec(), self.groups_spec(), a@, b@),
    {
        if same_text(a, b) {
            return SlotOrder::Unordered;
        }
        let ga = self.group_index(a);
        let gb = self.group_index(b);
        if let (Some(x), Some(y)) = (ga, gb) {
            proof {
                lemma_group_from(self.groups_spec(), a@, 0);
                lemma_group_from(self.groups_spec(), b@, 0);
            }
            if same_text(self.groups[x].name.as_str(), self.groups[y].name.as_str()) {
                return SlotOrder::Unordered;
            }
        }
        let pa = self.anchor_of(a, ga);
        let pb = self.anchor_of(b, gb);
        match (pa, pb) {
            (Some(ia), Some(ib)) => {
                if ia < ib {
                    SlotOrder::Before
                } else if ia > ib {
                    SlotOrder::After
                } else {
                    match (ga, gb) {
                        (Some(_), None) => SlotOrder::After,
                        (None, Some(_)) => SlotOrder::Before,
                        (Some(_), Some(_)) => SlotOrder::Unordered,
                        (None, None) => SlotOrder::Incomparable,
                    }
                }
            },
            _ => SlotOrder::Incomparable,
        }
    }
}


impl SeriesParallel {
    /// Check the whole structure is series-parallel. Every failure names the slots involved: the
    /// first faulty group in order (a member seen before, then a bound inside the group or missing
    /// from the line), else the first pair of groups that interleave.
    pub fn validate(&self) -> (res: Result<(), NotSeriesParallel>)
        ensures
            ({
                let line = self.line_spec();
                let gs = self.groups_spec();
                match res {
                    Ok(()) => series_parallel(line, gs),
                    Err(e) => match first_fault(line, gs, 0) {
                        Some(r) => e@ == r,
                        None => exists|i: int, j: int|
                            0 <= i < j < gs.len() && !compatible(line, gs, i, j) && e@
                                == Rejection::Interleaved(gs[i].name, gs[j].name) && forall|
                                p: int,
                                q: int,
                            |
                                0 <= p < q < gs.len() && (p < i || (p == i && q < j))
                                    ==> #[trigger] compatible(line, gs, p, q),
                    },
                }
            }),
    {
        let ghost line = self.line_spec();
        let ghost gs = self.groups_spec();
        let n = self.groups.len();
        let mut seen: Vec<String> = Vec::new();
        let mut spans: Vec<(usize, usize)> = Vec::new();
        let mut k: usize = 0;
        while k < n
            invariant
                n == self.groups@.len(),
                line == self.line_spec(),
                gs == self.groups_spec(),
                gs.len() == n,
                k <= n,
                first_fault(line, gs, 0) == first_fault(line, gs, k as int),
                strs(seen@) == members_before(gs, k as int),
                spans@.len() == k,
                forall|i: int|
                    0 <= i < k ==> #[trigger] span(line, gs[i]) == (
                    spans@[i].0 as int,
                    spans@[i].1 as int,
                    ),
            decreases n - k,
        {
            let g = &self.groups[k];
            let ghost prior = strs(seen@);
            let ghost ms = gs[k as int].members;
            assert(g@ == gs[k as int]);
            let mut j: usize = 0;
            while j < g.members.len()
                invariant
                    gs == self.groups_spec(),
                    line == self.line_spec(),
                    g@ == gs[k as int],
                    ms == g@.members,
                    k < n,
                    n == gs.len(),
                    j <= ms.len(),
                    prior == members_before(gs, k as int),
                    first_fault(line, gs, 0) == first_fault(line, gs, k as int),
                    first_clash(prior, ms, 0) == first_clash(prior, ms, j as int),
                    strs(seen@) == prior + ms.take(j as int),
                decreases ms.len() - j,
            {
                let m = &g.members[j];
                if holds_text(seen.as_slice(), m.as_str()) {
                    proof {
                        assert(m@ == ms[j as int]);
                        assert(first_clash(prior, ms, j as int) == Some(ms[j as int]));
                        assert(group_fault(line, gs, k as int) == Some(
                            Rejection::SlotInTwoGroups(ms[j as int]),
                        ));
                        assert(first_fault(line, gs, k as int) == Some(
                            Rejection::SlotInTwoGroups(ms[j as int]),
                        ));
                    }
                    let e = NotSeriesParallel::SlotInTwoGroups { slot: m.clone() };
                    assert(e@ == Rejection::SlotInTwoGroups(ms[j as int]));
                    return Err(e);
                }
                let ghost before = strs(seen@);
                seen.push(m.clone());
                proof {
                    assert(strs(seen@) =~= before.push(ms[j as int]));
                    assert(prior + ms.take(j + 1) =~= (prior + ms.take(j as int)).push(ms[j as int]));
                }
                j += 1;
            }
            assert(ms.take(ms.len() as int) =~= ms);
            if g.contains(g.predecessor.as_str()) {
                return Err(
                    NotSeriesParallel::SelfBounded {
                        group: g.name.clone(),
                        slot: g.predecessor.clone(),
                    },
                );
            }
            let a = match find_text(self.line.as_slice(), g.predecessor.as_str()) {
                Some(a) => a,
                None => {
                    return Err(NotSeriesParallel::UnknownSlot { slot: g.predecessor.clone() });
                },
            };
            if g.contains(g.successor.as_str()) {
                return Err(
                    NotSeriesParallel::SelfBounded { group: g.name.clone(), slot: g.successor.clone() },
                );
            }
            let b = match find_text(self.line.as_slice(), g.successor.as_str()) {
                Some(b) => b,
                None => {
                    return Err(NotSeriesParallel::UnknownSlot { slot: g.successor.clone() });
                },
            };
            if a <= b {
                spans.push((a, b));
            } else {
                spans.push((b, a));
            }
            proof {
                assert(group_fault(line, gs, k as int) is None);
                assert(span(line, gs[k as int]) == (spans@[k as int].0 as int, spans@[k as int].1 as int));
            }
            k += 1;
        }
        let mut i: usize = 0;
        while i < n
            invariant
                n == gs.len(),
                line == self.line_spec(),
                gs == self.groups_spec(),
                n == self.groups@.len(),
                i <= n,
                first_fault(line, gs, 0) is None,
                spans@.len() == n,
                forall|x: int|
                    0 <= x < n ==> #[trigger] span(line, gs[x]) == (
                    spans@[x].0 as int,
                    spans@[x].1 as int,
                    ),
                forall|p: int, q: int| 0 <= p < q < n && p < i ==> #[trigger] compatible(line, gs, p, q),
            decreases n - i,
        {
            let mut j: usize = i + 1;
            while j < n
                invariant
                    n == gs.len(),
                    line == self.line_spec(),
                    gs == self.groups_spec(),
                    n == self.groups@.len(),
                    i < n,
                    i + 1 <= j <= n,
                    first_fault(line, gs, 0) is None,
                    spans@.len() == n,
                    forall|x: int|
                        0 <= x < n ==> #[trigger] span(line, gs[x]) == (
                        spans@[x].0 as int,
                        spans@[x].1 as int,
                        ),
                    forall|p: int, q: int| 0 <= p < q < n && p < i ==> #[trigger] compatible(line, gs, p, q),
                    forall|q: int| i < q < j ==> #[trigger] compatible(line, gs, i as int, q),
                decreases n - j,
            {
                let (a0, a1) = spans[i];
                let (b0, b1) = spans[j];
                let disjoint = a1 <= b0 || b1 <= a0;
                let nested = (a0 <= b0 && b1 <= a1) || (b0 <= a0 && a1 <= b1);
                proof {
                    assert(span(line, gs[i as int]) == (a0 as int, a1 as int));
                    assert(span(line, gs[j as int]) == (b0 as int, b1 as int));
                }
                if !disjoint && !nested {
                    proof {
                        assert(!compatible(line, gs, i as int, j as int));
                        assert(self.groups@[i as int]@ == gs[i as int]);
                        assert(self.groups@[j as int]@ == gs[j as int]);
                    }
                    return Err(
                        NotSeriesParallel::Interleaved {
                            a: self.groups[i].name.clone(),
                            b: self.groups[j].name.clone(),
                        },
                    );
                }
                assert(compatible(line, gs, i as int, j as int));
                j += 1;
            }
            i += 1;
        }
        Ok(())
    }
}


impl SeriesParallel {
    /// Every slot, main line and group members alike: each main-line slot, then the members of the
    /// groups it precedes.
    pub fn slots(&self) -> (out: Vec<String>)
        ensures
            strs(out@) == all_slots(self.line_spec(), self.groups_spec()),
    {
        let ghost line = self.line_spec();
        let ghost gs = self.groups_spec();
        let mut out: Vec<String> = Vec::new();
        let mut i: usize = 0;
        while i < self.line.len()
            invariant
                line == self.line_spec(),
                gs == self.groups_spec(),
                i <= line.len(),
                strs(out@) == slots_upto(line, gs, i as int),
            decreases line.len() - i,
        {
            let s = &self.line[i];
            let ghost base = slots_upto(line, gs, i as int).push(line[i as int]);
            let ghost before = strs(out@);
            out.push(s.clone());
            assert(strs(out@) =~= before.push(s@));
            assert(strs(out@) =~= base + hung_off(gs, line[i as int], 0));
            let mut k: usize = 0;
            while k < self.groups.len()
                invariant
                    line == self.line_spec(),
                    gs == self.groups_spec(),
                    i < line.len(),
                    s@ == line[i as int],
                    base == slots_upto(line, gs, i as int).push(line[i as int]),
                    k <= gs.len(),
                    strs(out@) == base + hung_off(gs, line[i as int], k as int),
                decreases gs.len() - k,
            {
                let g = &self.groups[k];
                assert(g@ == gs[k as int]);
                let ghost start = strs(out@);
                if same_text(g.predecessor.as_str(), s.as_str()) {
                    let mut m: usize = 0;
                    while m < g.members.len()
                        invariant
                            g@ == gs[k as int],
                            m <= g@.members.len(),
                            strs(out@) == start + g@.members.take(m as int),
                        decreases g@.members.len() - m,
                    {
                        let ghost b4 = strs(out@);
                        out.push(g.members[m].clone());
                        proof {
                            assert(strs(out@) =~= b4.push(g@.members[m as int]));
                            assert(start + g@.members.take(m + 1) =~= (start + g@.members.take(
                                m as int,
                            )).push(g@.members[m as int]));
                        }
                        m += 1;
                    }
                    assert(g@.members.take(g@.members.len() as int) =~= g@.members);
                    assert(strs(out@) =~= base + hung_off(gs, line[i as int], k + 1));
                } else {
                    assert(strs(out@) =~= base + hung_off(gs, line[i as int], k + 1));
                }
                k += 1;
            }
            i += 1;
        }
        out
    }

    /// Is every pair of slots orderable? The property symbolic grants depend on, checked rather
    /// than assumed. On failure, the first pair (in slot order) that is incomparable.
    pub fn every_pair_is_orderable(&self) -> (r: Result<(), (String, String)>)
        ensures
            ({
                let line = self.line_spec();
                let gs = self.groups_spec();
                let s = all_slots(line, gs);
                match r {
                    Ok(()) => forall|i: int, j: int|
                        0 <= i < j < s.len() ==> #[trigger] order_of(line, gs, s[i], s[j])
                            != SlotOrder::Incomparable,
                    Err((a, b)) => exists|i: int, j: int|
                        0 <= i < j < s.len() && order_of(line, gs, s[i], s[j])
                            == SlotOrder::Incomparable && a@ == s[i] && b@ == s[j] && forall|
                            p: int,
                            q: int,
                        |
                            0 <= p < q < s.len() && (p < i || (p == i && q < j))
                                ==> #[trigger] order_of(line, gs, s[p], s[q])
                                != SlotOrder::Incomparable,
                }
            }),
    {
        let ghost line = self.line_spec();
        let ghost gs = self.groups_spec();
        let slots = self.slots();
        let ghost s = strs(slots@);
        let n = slots.len();
        let mut i: usize = 0;
        while i < n
            invariant
                line == self.line_spec(),
                gs == self.groups_spec(),
                s == strs(slots@),
                s == all_slots(line, gs),
                n == s.len(),
                i <= n,
                forall|p: int, q: int|
                    0 <= p < q < n && p < i ==> #[trigger] order_of(line, gs, s[p], s[q])
                        != SlotOrder::Incomparable,
            decreases n - i,
        {
            let mut j: usize = i + 1;
            while j < n
                invariant
                    line == self.line_spec(),
                    gs == self.groups_spec(),
                    s == strs(slots@),
                    s == all_slots(line, gs),
                    n == s.len(),
                    i < n,
                    i + 1 <= j <= n,
                    forall|p: int, q: int|
                        0 <= p < q < n && p < i ==> #[trigger] order_of(line, gs, s[p], s[q])
                            != SlotOrder::Incomparable,
                    forall|q: int|
                        i < q < j ==> #[trigger] order_of(line, gs, s[i as int], s[q])
                            != SlotOrder::Incomparable,
                decreases n - j,
            {
                let o = self.order(slots[i].as_str(), slots[j].as_str());
                if o == SlotOrder::Incomparable {
                    let a = slots[i].clone();
                    let b = slots[j].clone();
                    proof {
                        assert(order_of(line, gs, s[i as int], s[j as int])
                            == SlotOrder::Incomparable);
                    }
                    return Err((a, b));
                }
                j += 1;
            }
            i += 1;
        }
        Ok(())
    }
}


/// The names in a list of name-and-size pairs.
pub open spec fn names_of(v: Seq<(String, usize)>) -> Seq<Seq<char>> {
    v.map_values(|e: (String, usize)| e.0@)
}

impl SeriesParallel {
    /// How many slots each group contributes, for the capacity arithmetic: one entry per group
    /// name, sorted by name, each with the size of the last group of that name.
    pub fn group_sizes(&self) -> (out: Vec<(String, usize)>)
        ensures
            ({
                let gs = self.groups_spec();
                let ns = names_of(out@);
                &&& forall|i: int, j: int| 0 <= i < j < ns.len() ==> text_lt(#[trigger] ns[i], #[trigger] ns[j])
                &&& forall|i: int|
                    0 <= i < ns.len() ==> last_size(gs, #[trigger] ns[i], gs.len() as int) == Some(
                        out@[i].1 as nat,
                    )
                &&& forall|k: int| 0 <= k < gs.len() ==> ns.contains(#[trigger] gs[k].name)
            }),
    {
        let ghost gs = self.groups_spec();
        let mut out: Vec<(String, usize)> = Vec::new();
        let mut k: usize = 0;
        while k < self.groups.len()
            invariant
                gs == self.groups_spec(),
                k <= gs.len(),
                forall|i: int, j: int|
                    0 <= i < j < out@.len() ==> text_lt(
                        #[trigger] names_of(out@)[i],
                        #[trigger] names_of(out@)[j],
                    ),
                forall|i: int|
                    0 <= i < out@.len() ==> last_size(gs, #[trigger] names_of(out@)[i], k as int)
                        == Some(out@[i].1 as nat),
                forall|x: int| 0 <= x < k ==> names_of(out@).contains(#[trigger] gs[x].name),
            decreases gs.len() - k,
        {
            let g = &self.groups[k];
            assert(g@ == gs[k as int]);
            let size = g.members.len();
            let ghost name = gs[k as int].name;
            let ghost old_out = out@;
            // Is the name there already?
            let mut i: usize = 0;
            while i < out.len() && !same_text(out[i].0.as_str(), g.name.as_str())
                invariant
                    i <= out@.len(),
                    k < gs.len(),
                    g@ == gs[k as int],
                    name == g@.name,
                    forall|j: int| 0 <= j < i ==> names_of(out@)[j] != name,
                decreases out@.len() - i,
            {
                i += 1;
            }
            if i < out.len() {
                out.set(i, (out[i].0.clone(), size));
                proof {
                    assert(names_of(out@) =~= names_of(old_out));
                    assert forall|x: int| 0 <= x < out@.len() implies last_size(
                        gs,
                        #[trigger] names_of(out@)[x],
                        k + 1,
                    ) == Some(out@[x].1 as nat) by {
                        let os = names_of(old_out);
                        assert(os[i as int] == name);
                        if x != i && os[x] == name {
                            lemma_text_lt_irreflexive(name);
                            if x < i {
                                assert(text_lt(os[x], os[i as int]));
                            } else {
                                assert(text_lt(os[i as int], os[x]));
                            }
                        }
                    }
                    assert forall|x: int| 0 <= x < k + 1 implies names_of(out@).contains(
                        #[trigger] gs[x].name,
                    ) by {
                        if x == k {
                            assert(names_of(out@)[i as int] == name);
                        }
                    }
                }
            } else {
                // Where it sorts.
                let mut p: usize = 0;
                while p < out.len() && text_less(out[p].0.as_str(), g.name.as_str())
                    invariant
                        p <= out@.len(),
                        k < gs.len(),
                        g@ == gs[k as int],
                        name == g@.name,
                        forall|j: int| 0 <= j < p ==> text_lt(#[trigger] names_of(out@)[j], name),
                    decreases out@.len() - p,
                {
                    p += 1;
                }
                proof {
                    if p < out@.len() {
                        lemma_text_lt_total(names_of(out@)[p as int], name);
                        assert(text_lt(name, names_of(out@)[p as int]));
                    }
                }
                out.insert(p, (g.name.clone(), size));
                proof {
                    let ns = names_of(out@);
                    assert(ns =~= names_of(old_out).insert(p as int, name));
                    assert forall|a: int, b: int| 0 <= a < b < ns.len() implies text_lt(
                        #[trigger] ns[a],
                        #[trigger] ns[b],
                    ) by {
                        let os = names_of(old_out);
                        if a < p && b == p {
                        } else if a < p && b > p {
                            assert(text_lt(os[a], name));
                            assert(ns[b] == os[b - 1]);
                            if b - 1 == p {
                            } else {
                                assert(text_lt(os[p as int], os[b - 1]));
                                lemma_text_lt_transitive(name, os[p as int], os[b - 1]);
                            }
                            lemma_text_lt_transitive(os[a], name, os[b - 1]);
                        } else if a == p {
                            assert(ns[b] == os[b - 1]);
                            if b - 1 > p {
                                assert(text_lt(os[p as int], os[b - 1]));
                                lemma_text_lt_transitive(name, os[p as int], os[b - 1]);
                            }
                        } else if a > p {
                            assert(ns[a] == os[a - 1]);
                            assert(ns[b] == os[b - 1]);
                        } else {
                            assert(ns[a] == os[a]);
                            assert(ns[b] == os[b]);
                        }
                    }
                    assert forall|x: int| 0 <= x < out@.len() implies last_size(
                        gs,
                        #[trigger] names_of(out@)[x],
                        k + 1,
                    ) == Some(out@[x].1 as nat) by {
                        if x < p {
                            assert(names_of(out@)[x] == names_of(old_out)[x]);
                            assert(out@[x] == old_out[x]);
                        } else if x > p {
                            assert(names_of(out@)[x] == names_of(old_out)[x - 1]);
                            assert(out@[x] == old_out[x - 1]);
                        }
                    }
                    assert forall|x: int| 0 <= x < k + 1 implies names_of(out@).contains(
                        #[trigger] gs[x].name,
                    ) by {
                        if x == k {
                            assert(names_of(out@)[p as int] == name);
                        } else {
                            let w = choose|w: int|
                                0 <= w < old_out.len() && names_of(old_out)[w] == gs[x].name;
                            if w < p {
                                assert(names_of(out@)[w] == gs[x].name);
                            } else {
                                assert(names_of(out@)[w + 1] == gs[x].name);
                            }
                        }
                    }
                }
            }
            k += 1;
        }
        out
    }
}

impl Default for SeriesParallel {
    fn default() -> (sp: SeriesParallel)
        ensures
            sp.line_spec() == Seq::<Seq<char>>::empty(),
            sp.groups_spec() == Seq::<GroupShape>::empty(),
    {
        SeriesParallel::new()
    }
}


// ---------------------------------------------------------------------------------------------
// Laws
// ---------------------------------------------------------------------------------------------

/// Asking how `b` stands against `a` gives the converse of how `a` stands against `b`: before and
/// after swap, unordered and incomparable stay.
pub proof fn law_order_is_converse(sp: SeriesParallel, a: Seq<char>, b: Seq<char>)
    ensures
        order_of(sp.line_spec(), sp.groups_spec(), a, b) == order_of(
            sp.line_spec(),
            sp.groups_spec(),
            b,
            a,
        ).converse(),
{
}

proof fn lemma_concat_contains(a: Seq<Seq<char>>, b: Seq<Seq<char>>, x: Seq<char>)
    requires
        (a + b).contains(x),
    ensures
        a.contains(x) || b.contains(x),
{
    let w = choose|w: int| 0 <= w < (a + b).len() && (a + b)[w] == x;
    if w < a.len() {
        assert(a[w] == x);
    } else {
        assert(b[w - a.len()] == x);
    }
}

proof fn lemma_hung_off_members(gs: Seq<GroupShape>, s: Seq<char>, k: int, x: Seq<char>)
    requires
        0 <= k <= gs.len(),
        hung_off(gs, s, k).contains(x),
    ensures
        exists|j: int| 0 <= j < k && (#[trigger] gs[j].members).contains(x),
    decreases k,
{
    if k > 0 {
        let tail = if gs[k - 1].predecessor == s {
            gs[k - 1].members
        } else {
            Seq::empty()
        };
        lemma_concat_contains(hung_off(gs, s, k - 1), tail, x);
        if hung_off(gs, s, k - 1).contains(x) {
            lemma_hung_off_members(gs, s, k - 1, x);
        } else {
            assert(gs[k - 1].members.contains(x));
        }
    }
}

proof fn lemma_slot_is_placed(line: Seq<Seq<char>>, gs: Seq<GroupShape>, n: int, x: Seq<char>)
    requires
        0 <= n <= line.len(),
        slots_upto(line, gs, n).contains(x),
    ensures
        line.contains(x) || exists|j: int| 0 <= j < gs.len() && (#[trigger] gs[j].members).contains(x),
    decreases n,
{
    if n > 0 {
        let head = slots_upto(line, gs, n - 1).push(line[n - 1]);
        lemma_concat_contains(head, hung_off(gs, line[n - 1], gs.len() as int), x);
        if head.contains(x) {
            let w = choose|w: int| 0 <= w < head.len() && head[w] == x;
            if w == n - 1 + (head.len() - n) && w == head.len() - 1 {
                assert(line[n - 1] == x);
            } else {
                assert(slots_upto(line, gs, n - 1)[w] == x);
                lemma_slot_is_placed(line, gs, n - 1, x);
            }
        } else {
            lemma_hung_off_members(gs, line[n - 1], gs.len() as int, x);
        }
    }
}

proof fn lemma_no_fault(line: Seq<Seq<char>>, gs: Seq<GroupShape>, k: int)
    requires
        0 <= k,
        first_fault(line, gs, k) is None,
    ensures
        forall|j: int| k <= j < gs.len() ==> index_from(line, (#[trigger] gs[j]).predecessor, 0) is Some,
    decreases gs.len() - k,
{
    if k < gs.len() {
        lemma_no_fault(line, gs, k + 1);
    }
}

proof fn lemma_anchored(line: Seq<Seq<char>>, gs: Seq<GroupShape>, x: Seq<char>)
    requires
        first_fault(line, gs, 0) is None,
        all_slots(line, gs).contains(x),
    ensures
        anchor(line, gs, x) is Some,
{
    lemma_slot_is_placed(line, gs, line.len() as int, x);
    lemma_index_from(line, x, 0);
    lemma_group_from(gs, x, 0);
    lemma_no_fault(line, gs, 0);
    if index_from(line, x, 0) is None {
        if line.contains(x) {
            let w = choose|w: int| 0 <= w < line.len() && line[w] == x;
            assert(line[w] != x);
        }
        let j = choose|j: int| 0 <= j < gs.len() && (#[trigger] gs[j].members).contains(x);
        assert(gs[j].members.contains(x));
    }
}

/// A series-parallel spine orders every pair of its slots: `validate` accepting the structure is
/// enough for the ordering question to have an answer, which is what symbolic grants need.
pub proof fn law_series_parallel_orders_every_pair(sp: SeriesParallel, a: Seq<char>, b: Seq<char>)
    requires
        series_parallel(sp.line_spec(), sp.groups_spec()),
        all_slots(sp.line_spec(), sp.groups_spec()).contains(a),
        all_slots(sp.line_spec(), sp.groups_spec()).contains(b),
    ensures
        order_of(sp.line_spec(), sp.groups_spec(), a, b) != SlotOrder::Incomparable,
{
    let line = sp.line_spec();
    let gs = sp.groups_spec();
    lemma_anchored(line, gs, a);
    lemma_anchored(line, gs, b);
    lemma_index_from(line, a, 0);
    lemma_index_from(line, b, 0);
}

} // verus!
