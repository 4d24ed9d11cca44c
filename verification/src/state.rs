//! State graphs, and the un-softlockable check over them.
//!
//! A bounded state machine: nodes are settings of one variable, edges are transitions with what they
//! cost. The question is re-enterability, not reachability: having got into a state, can the player
//! get back to the start without holding anything? Unlocks are monotone and states are not, so
//! "being too slow undoes progress" is an ordinary edge here.

use crate::text::{
    owned_texts, texts, decimal, decimal_text, holds_text, insert_text_sorted, join_texts, joined, lemma_distinct_within,
    lemma_sorted_insert, same_text, sorted_insert, strictly_sorted, strs, text_less, text_lt,
    lemma_text_lt_total, lemma_text_lt_transitive, lemma_text_lt_irreflexive,
};
use vstd::prelude::*;

verus! {

/// One setting of the variable.
#[derive(Clone, Debug, PartialEq, Eq, PartialOrd, Ord)]
pub struct State {
    /// Its name, which is also its identity in a transition.
    pub name: String,
    /// Is this where the variable starts?
    pub initial: bool,
    /// The developer's words.
    pub doc: String,
}

/// A directed move between two settings. The reverse is a separate transition.
#[derive(Clone, Debug, PartialEq, Eq, PartialOrd, Ord)]
pub struct Transition {
    /// Where it starts.
    pub from: String,
    /// Where it lands.
    pub to: String,
    /// What must be held to take it. Empty means anyone may.
    pub requires: Vec<String>,
    /// What performs it, for the label.
    pub via: String,
}

/// A state as plain values.
pub struct StateShape {
    pub name: Seq<char>,
    pub initial: bool,
}

/// A transition as plain values.
pub struct Move {
    pub from: Seq<char>,
    pub to: Seq<char>,
    pub requires: Seq<Seq<char>>,
}

impl View for State {
    type V = StateShape;

    open spec fn view(&self) -> StateShape {
        StateShape { name: self.name@, initial: self.initial }
    }
}

impl View for Transition {
    type V = Move;

    open spec fn view(&self) -> Move {
        Move { from: self.from@, to: self.to@, requires: strs(self.requires@) }
    }
}

/// The plain values of the states.
pub open spec fn state_shapes(ss: Seq<State>) -> Seq<StateShape> {
    ss.map_values(|s: State| s@)
}

/// The plain values of the transitions.
pub open spec fn moves(ts: Seq<Transition>) -> Seq<Move> {
    ts.map_values(|t: Transition| t@)
}

/// A finding as plain values.
pub enum Fact {
    Inaccessible(Seq<char>),
    DeadEnd(Seq<char>),
    ExitGated(Seq<char>, Seq<Seq<char>>, nat),
    InitialUnclear(nat),
    UnknownState(Seq<char>, Seq<char>),
}

/// What the check found. A finding names states, not indices.
#[derive(Clone, Debug, PartialEq, Eq)]
pub enum Finding {
    /// A state nothing can reach from the initial one.
    Inaccessible { state: String },
    /// A state that cannot be left at all: the plain softlock.
    DeadEnd { state: String },
    /// A state that can only be left by holding something: a potential softlock, and a warning.
    ExitGated { state: String, requires: Vec<String>, paths_affected: usize },
    /// No state is marked initial, or more than one is.
    InitialUnclear { count: usize },
    /// A transition naming a state the graph does not have.
    UnknownState { transition: String, missing: String },
}

impl View for Finding {
    type V = Fact;

    open spec fn view(&self) -> Fact {
        match self {
            Finding::Inaccessible { state } => Fact::Inaccessible(state@),
            Finding::DeadEnd { state } => Fact::DeadEnd(state@),
            Finding::ExitGated { state, requires: req, paths_affected } => Fact::ExitGated(
                state@,
                strs(req@),
                *paths_affected as nat,
            ),
            Finding::InitialUnclear { count } => Fact::InitialUnclear(*count as nat),
            Finding::UnknownState { transition, missing } => Fact::UnknownState(
                transition@,
                missing@,
            ),
        }
    }
}

/// The plain values of a list of findings.
pub open spec fn facts(fs: Seq<Finding>) -> Seq<Fact> {
    fs.map_values(|f: Finding| f@)
}

/// Does this finding stop a build? A gated exit is a design decision and only warns.
pub open spec fn blocking(f: Fact) -> bool {
    !(f is ExitGated)
}

/// How a finding reads on the drawing.
pub open spec fn fact_text(f: Fact) -> Seq<char> {
    match f {
        Fact::Inaccessible(s) => "`"@ + s + "` cannot be reached from the initial state"@,
        Fact::DeadEnd(s) => "`"@ + s + "` has no transition out — entering it strands the variable"@,
        Fact::ExitGated(s, req, n) => "`"@ + s + "` is accessible but leaving it needs ["@ + joined(
            req,
            ", "@,
        ) + "] — potential softlock, "@ + decimal(n) + " path(s) affected"@,
        Fact::InitialUnclear(c) => decimal(c)
            + " states are marked initial — exactly one must be, or where the variable starts has no answer"@,
        Fact::UnknownState(t, m) => "transition "@ + t + " names `"@ + m + "`, which is not a state"@,
    }
}

impl Finding {
    /// Does this stop a build, or only warn on the drawing?
    pub fn blocks(&self) -> (b: bool)
        ensures
            b == blocking(self@),
    {
        match self {
            Finding::ExitGated { .. } => false,
            _ => true,
        }
    }

    /// How the finding reads on the drawing.
    pub fn to_string(&self) -> (s: String)
        ensures
            s@ == fact_text(self@),
    {
        match self {
            Finding::Inaccessible { state } => {
                let mut s = String::from_str("`");
                s.append(state.as_str());
                s.append("` cannot be reached from the initial state");
                s
            },
            Finding::DeadEnd { state } => {
                let mut s = String::from_str("`");
                s.append(state.as_str());
                s.append("` has no transition out — entering it strands the variable");
                s
            },
            Finding::ExitGated { state, requires: req, paths_affected } => {
                let mut s = String::from_str("`");
                s.append(state.as_str());
                s.append("` is accessible but leaving it needs [");
                let j = join_texts(req.as_slice(), ", ");
                s.append(j.as_str());
                s.append("] — potential softlock, ");
                let d = decimal_text(*paths_affected as u64);
                s.append(d.as_str());
                s.append(" path(s) affected");
                s
            },
            Finding::InitialUnclear { count } => {
                let mut s = decimal_text(*count as u64);
                s.append(
                    " states are marked initial — exactly one must be, or where the variable starts has no answer",
                );
                s
            },
            Finding::UnknownState { transition, missing } => {
                let mut s = String::from_str("transition ");
                s.append(transition.as_str());
                s.append(" names `");
                s.append(missing.as_str());
                s.append("`, which is not a state");
                s
            },
        }
    }
}

// ---------------------------------------------------------------------------------------------
// Walks
// ---------------------------------------------------------------------------------------------

/// May this move be taken? With `free_only`, only moves that require nothing.
pub open spec fn usable(m: Move, free_only: bool) -> bool {
    !free_only || m.requires.len() == 0
}

/// One usable move goes from `x` to `y`.
pub open spec fn step(ms: Seq<Move>, free_only: bool, x: Seq<char>, y: Seq<char>) -> bool {
    exists|k: int|
        0 <= k < ms.len() && usable(#[trigger] ms[k], free_only) && ms[k].from == x && ms[k].to == y
}

/// The `i`-th and next entries of `w` are joined by a usable move.
pub open spec fn linked(ms: Seq<Move>, free_only: bool, w: Seq<Seq<char>>, i: int) -> bool {
    step(ms, free_only, w[i], w[i + 1])
}

/// `w` is a walk: each entry leads to the next by a usable move.
pub open spec fn is_walk(ms: Seq<Move>, free_only: bool, w: Seq<Seq<char>>) -> bool {
    w.len() >= 1 && forall|i: int| 0 <= i < w.len() - 1 ==> #[trigger] linked(ms, free_only, w, i)
}

/// Some walk leads from `a` to `b`.
pub open spec fn reaches(ms: Seq<Move>, free_only: bool, a: Seq<char>, b: Seq<char>) -> bool {
    exists|w: Seq<Seq<char>>| #[trigger] is_walk(ms, free_only, w) && w[0] == a && w.last() == b
}

/// Every usable move out of a member of `s` lands in `s`.
pub open spec fn closed_under(ms: Seq<Move>, free_only: bool, s: Seq<Seq<char>>) -> bool {
    forall|x: Seq<char>, k: int|
        #![trigger s.contains(x), ms[k]]
        s.contains(x) && 0 <= k < ms.len() && usable(ms[k], free_only) && ms[k].from == x
            ==> s.contains(ms[k].to)
}

proof fn lemma_walk_stays(ms: Seq<Move>, free_only: bool, s: Seq<Seq<char>>, w: Seq<Seq<char>>)
    requires
        is_walk(ms, free_only, w),
        s.contains(w[0]),
        closed_under(ms, free_only, s),
    ensures
        s.contains(w.last()),
    decreases w.len(),
{
    if w.len() > 1 {
        let v = w.drop_last();
        assert forall|i: int| 0 <= i < v.len() - 1 implies #[trigger] linked(ms, free_only, v, i) by {
            assert(linked(ms, free_only, w, i));
        }
        lemma_walk_stays(ms, free_only, s, v);
        assert(linked(ms, free_only, w, w.len() - 2));
        let k = choose|k: int|
            0 <= k < ms.len() && usable(#[trigger] ms[k], free_only) && ms[k].from == w[w.len()
                - 2] && ms[k].to == w[w.len() - 1];
        assert(s.contains(ms[k].to));
    }
}

proof fn lemma_walk_extends(ms: Seq<Move>, free_only: bool, a: Seq<char>, b: Seq<char>, k: int)
    requires
        reaches(ms, free_only, a, b),
        0 <= k < ms.len(),
        usable(ms[k], free_only),
        ms[k].from == b,
    ensures
        reaches(ms, free_only, a, ms[k].to),
{
    let w = choose|w: Seq<Seq<char>>| #[trigger] is_walk(ms, free_only, w) && w[0] == a && w.last() == b;
    let v = w.push(ms[k].to);
    assert forall|i: int| 0 <= i < v.len() - 1 implies #[trigger] linked(ms, free_only, v, i) by {
        if i < w.len() - 1 {
            assert(linked(ms, free_only, w, i));
        } else {
            assert(v[i] == b);
            assert(v[i + 1] == ms[k].to);
        }
    }
    assert(is_walk(ms, free_only, v));
}

proof fn lemma_walk_here(ms: Seq<Move>, free_only: bool, a: Seq<char>)
    ensures
        reaches(ms, free_only, a, a),
{
    let w = seq![a];
    assert(is_walk(ms, free_only, w));
}

/// Every state a walk of usable moves leads to from `start`, `start` included.
fn reach_from(ts: &[Transition], start: &str, free_only: bool) -> (seen: Vec<String>)
    ensures
        forall|x: Seq<char>|
            #[trigger] strs(seen@).contains(x) <==> reaches(moves(ts@), free_only, start@, x),
{
    let ghost ms = moves(ts@);
    let ghost u = seq![start@] + ms.map_values(|m: Move| m.to);
    let mut seen: Vec<String> = Vec::new();
    let mut queue: Vec<String> = Vec::new();
    queue.push(String::from_str(start));
    proof {
        lemma_walk_here(ms, free_only, start@);
        assert(strs(queue@)[0] == start@);
        assert(u[0] == start@);
    }
    while queue.len() > 0
        invariant
            ms == moves(ts@),
            u == seq![start@] + ms.map_values(|m: Move| m.to),
            strs(seen@).no_duplicates(),
            seen@.len() <= u.len(),
            forall|x: Seq<char>| #[trigger] strs(seen@).contains(x) ==> u.contains(x),
            forall|x: Seq<char>| #[trigger] strs(queue@).contains(x) ==> u.contains(x),
            forall|x: Seq<char>|
                #[trigger] strs(seen@).contains(x) ==> reaches(ms, free_only, start@, x),
            forall|x: Seq<char>|
                #[trigger] strs(queue@).contains(x) ==> reaches(ms, free_only, start@, x),
            strs(seen@).contains(start@) || strs(queue@).contains(start@),
            forall|x: Seq<char>, k: int|
                #![trigger strs(seen@).contains(x), ms[k]]
                strs(seen@).contains(x) && 0 <= k < ms.len() && usable(ms[k], free_only)
                    && ms[k].from == x ==> strs(seen@).contains(ms[k].to) || strs(
                    queue@,
                ).contains(ms[k].to),
        decreases u.len() - seen@.len(), queue@.len(),
    {
        let ghost q0 = strs(queue@);
        let at = queue.pop().unwrap();
        proof {
            assert(strs(queue@) =~= q0.drop_last());
            assert(q0.last() == at@);
            assert forall|x: Seq<char>| #[trigger] q0.contains(x) implies strs(queue@).contains(x)
                || x == at@ by {
                let w = choose|w: int| 0 <= w < q0.len() && q0[w] == x;
                if w < q0.len() - 1 {
                    assert(strs(queue@)[w] == x);
                }
            }
            assert forall|x: Seq<char>| #[trigger] strs(queue@).contains(x) implies q0.contains(x) by {
                let w = choose|w: int| 0 <= w < strs(queue@).len() && strs(queue@)[w] == x;
                assert(q0[w] == x);
            }
            assert(q0.contains(at@));
        }
        if holds_text(seen.as_slice(), at.as_str()) {
            continue;
        }
        let ghost s0 = strs(seen@);
        seen.push(at.clone());
        proof {
            assert(strs(seen@) =~= s0.push(at@));
            assert forall|x: Seq<char>| #[trigger] strs(seen@).contains(x) <==> (s0.contains(x) || x
                == at@) by {
                if strs(seen@).contains(x) {
                    let w = choose|w: int| 0 <= w < strs(seen@).len() && strs(seen@)[w] == x;
                    if w < s0.len() {
                        assert(s0[w] == x);
                    }
                }
                if s0.contains(x) {
                    let w = choose|w: int| 0 <= w < s0.len() && s0[w] == x;
                    assert(strs(seen@)[w] == x);
                }
                if x == at@ {
                    assert(strs(seen@)[s0.len() as int] == x);
                }
            }
            assert(strs(seen@).no_duplicates()) by {
                assert forall|i: int, j: int|
                    0 <= i < strs(seen@).len() && 0 <= j < strs(seen@).len() && i != j implies strs(
                    seen@,
                )[i] != strs(seen@)[j] by {
                    if i < s0.len() && j < s0.len() {
                    } else if i < s0.len() {
                        assert(s0.contains(s0[i]));
                    } else {
                        assert(s0.contains(s0[j]));
                    }
                }
            }
            lemma_distinct_within(strs(seen@), u);
        }
        let mut k: usize = 0;
        while k < ts.len()
            invariant
                ms == moves(ts@),
                u == seq![start@] + ms.map_values(|m: Move| m.to),
                k <= ms.len(),
                strs(seen@).no_duplicates(),
                seen@.len() <= u.len(),
                strs(seen@).contains(at@),
                forall|x: Seq<char>| #[trigger] strs(seen@).contains(x) ==> u.contains(x),
                forall|x: Seq<char>| #[trigger] strs(queue@).contains(x) ==> u.contains(x),
                forall|x: Seq<char>|
                    #[trigger] strs(seen@).contains(x) ==> reaches(ms, free_only, start@, x),
                forall|x: Seq<char>|
                    #[trigger] strs(queue@).contains(x) ==> reaches(ms, free_only, start@, x),
                strs(seen@).contains(start@) || strs(queue@).contains(start@),
                forall|x: Seq<char>, j: int|
                    #![trigger strs(seen@).contains(x), ms[j]]
                    strs(seen@).contains(x) && x != at@ && 0 <= j < ms.len() && usable(
                        ms[j],
                        free_only,
                    ) && ms[j].from == x ==> strs(seen@).contains(ms[j].to) || strs(
                        queue@,
                    ).contains(ms[j].to),
                forall|j: int|
                    0 <= j < k && usable(#[trigger] ms[j], free_only) && ms[j].from == at@
                        ==> strs(seen@).contains(ms[j].to) || strs(queue@).contains(ms[j].to),
            decreases ms.len() - k,
        {
            let t = &ts[k];
            assert(t@ == ms[k as int]);
            if (!free_only || t.requires.len() == 0) && same_text(t.from.as_str(), at.as_str()) {
                let ghost q1 = strs(queue@);
                queue.push(t.to.clone());
                proof {
                    assert(strs(queue@) =~= q1.push(t.to@));
                    assert forall|x: Seq<char>| #[trigger] q1.contains(x) implies strs(
                        queue@,
                    ).contains(x) by {
                        let w = choose|w: int| 0 <= w < q1.len() && q1[w] == x;
                        assert(strs(queue@)[w] == x);
                    }
                    assert(strs(queue@)[q1.len() as int] == t.to@);
                    assert forall|x: Seq<char>| #[trigger] strs(queue@).contains(x) implies u.contains(
                        x,
                    ) && reaches(ms, free_only, start@, x) by {
                        let w = choose|w: int| 0 <= w < strs(queue@).len() && strs(queue@)[w] == x;
                        if w < q1.len() {
                            assert(q1[w] == x);
                            assert(q1.contains(x));
                        } else {
                            assert(x == t.to@);
                            assert(ms.map_values(|m: Move| m.to)[k as int] == ms[k as int].to);
                            assert(u[k + 1] == x);
                            lemma_walk_extends(ms, free_only, start@, at@, k as int);
                        }
                    }
                }
            }
            k += 1;
        }
    }
    proof {
        assert(closed_under(ms, free_only, strs(seen@))) by {
            assert forall|x: Seq<char>, j: int|
                #![trigger strs(seen@).contains(x), ms[j]]
                strs(seen@).contains(x) && 0 <= j < ms.len() && usable(ms[j], free_only) && ms[j].from
                    == x implies strs(seen@).contains(ms[j].to) by {
                assert(strs(queue@).len() == 0);
            }
        }
        assert(strs(queue@).len() == 0);
        assert(strs(seen@).contains(start@));
        assert forall|x: Seq<char>| #[trigger]
            strs(seen@).contains(x) <==> reaches(ms, free_only, start@, x) by {
            if reaches(ms, free_only, start@, x) {
                let w = choose|w: Seq<Seq<char>>| #[trigger]
                    is_walk(ms, free_only, w) && w[0] == start@ && w.last() == x;
                lemma_walk_stays(ms, free_only, strs(seen@), w);
            }
        }
    }
    seen
}


// ---------------------------------------------------------------------------------------------
// The check, as functions on plain values
// ---------------------------------------------------------------------------------------------

/// The names of the states, in order.
pub open spec fn names(ss: Seq<StateShape>) -> Seq<Seq<char>> {
    ss.map_values(|s: StateShape| s.name)
}

/// A transition's label: `from → to`.
pub open spec fn arrow(m: Move) -> Seq<char> {
    m.from + " → "@ + m.to
}

/// The findings for one transition's ends that are not states, the start first.
pub open spec fn missing_ends(ss: Seq<StateShape>, m: Move) -> Seq<Fact> {
    (if names(ss).contains(m.from) {
        Seq::empty()
    } else {
        seq![Fact::UnknownState(arrow(m), m.from)]
    }) + (if names(ss).contains(m.to) {
        Seq::empty()
    } else {
        seq![Fact::UnknownState(arrow(m), m.to)]
    })
}

/// The unknown-state findings of the first `k` transitions, in transition order.
pub open spec fn unknown_upto(ss: Seq<StateShape>, ms: Seq<Move>, k: int) -> Seq<Fact>
    decreases k,
{
    if k <= 0 {
        Seq::empty()
    } else {
        unknown_upto(ss, ms, k - 1) + missing_ends(ss, ms[k - 1])
    }
}

/// How many of the first `k` states are marked initial.
pub open spec fn marked(ss: Seq<StateShape>, k: int) -> nat
    decreases k,
{
    if k <= 0 {
        0
    } else {
        marked(ss, k - 1) + if ss[k - 1].initial {
            1nat
        } else {
            0nat
        }
    }
}

/// The first state, from index `i` on, marked initial.
pub open spec fn first_initial(ss: Seq<StateShape>, i: int) -> Option<int>
    decreases ss.len() - i,
{
    if i < 0 || i >= ss.len() {
        None
    } else if ss[i].initial {
        Some(i)
    } else {
        first_initial(ss, i + 1)
    }
}

/// How many of the first `k` transitions leave `n`.
pub open spec fn exit_count(ms: Seq<Move>, n: Seq<char>, k: int) -> nat
    decreases k,
{
    if k <= 0 {
        0
    } else {
        exit_count(ms, n, k - 1) + if ms[k - 1].from == n {
            1nat
        } else {
            0nat
        }
    }
}

/// The first `j` texts of `xs` put into `s` one by one with `sorted_insert`.
pub open spec fn insert_all(s: Seq<Seq<char>>, xs: Seq<Seq<char>>, j: int) -> Seq<Seq<char>>
    decreases j,
{
    if j <= 0 {
        s
    } else {
        sorted_insert(insert_all(s, xs, j - 1), xs[j - 1])
    }
}

/// What the first `k` transitions leaving `n` require, sorted, each once.
pub open spec fn gate(ms: Seq<Move>, n: Seq<char>, k: int) -> Seq<Seq<char>>
    decreases k,
{
    if k <= 0 {
        Seq::empty()
    } else if ms[k - 1].from == n {
        insert_all(gate(ms, n, k - 1), ms[k - 1].requires, ms[k - 1].requires.len() as int)
    } else {
        gate(ms, n, k - 1)
    }
}

/// What the check says of state `s` when the variable starts at `init`: inaccessible if no walk
/// leads there; nothing for the start itself; a dead end if nothing leaves it; nothing if a walk of
/// free moves leads back to the start; else a dead end when no exit requires anything (a component
/// that closes on itself), or a gated exit naming what the exits require.
pub open spec fn verdict(ms: Seq<Move>, s: Seq<char>, init: Seq<char>) -> Option<Fact> {
    let exits = exit_count(ms, s, ms.len() as int);
    let needs = gate(ms, s, ms.len() as int);
    if !reaches(ms, false, init, s) {
        Some(Fact::Inaccessible(s))
    } else if s == init {
        None
    } else if exits == 0 {
        Some(Fact::DeadEnd(s))
    } else if reaches(ms, true, s, init) {
        None
    } else if needs.len() == 0 {
        Some(Fact::DeadEnd(s))
    } else {
        Some(Fact::ExitGated(s, needs, exits))
    }
}

/// The verdicts on the first `k` states, in state order.
pub open spec fn verdicts(ss: Seq<StateShape>, ms: Seq<Move>, init: Seq<char>, k: int) -> Seq<Fact>
    decreases k,
{
    if k <= 0 {
        Seq::empty()
    } else {
        verdicts(ss, ms, init, k - 1) + match verdict(ms, ss[k - 1].name, init) {
            Some(f) => seq![f],
            None => Seq::empty(),
        }
    }
}

/// How many findings at the front of `s` read no later than `f`.
pub open spec fn le_prefix(s: Seq<Fact>, f: Fact) -> nat
    decreases s.len(),
{
    if s.len() == 0 {
        0
    } else if !text_lt(fact_text(f), fact_text(s[0])) {
        1 + le_prefix(s.drop_first(), f)
    } else {
        0
    }
}

/// The findings stably sorted by how they read: each put after the ones before it that read no
/// later.
pub open spec fn sort_facts(fs: Seq<Fact>) -> Seq<Fact>
    decreases fs.len(),
{
    if fs.len() == 0 {
        fs
    } else {
        let s = sort_facts(fs.drop_last());
        s.insert(le_prefix(s, fs.last()) as int, fs.last())
    }
}

/// Everything the check reports. Unless exactly one state is initial, the unknown-state findings
/// and then the one finding about the start, and nothing else; otherwise the unknown-state
/// findings and the verdicts on every state, sorted by how they read.
pub open spec fn findings_of(ss: Seq<StateShape>, ms: Seq<Move>) -> Seq<Fact> {
    let unknown = unknown_upto(ss, ms, ms.len() as int);
    let count = marked(ss, ss.len() as int);
    if count != 1 {
        unknown.push(Fact::InitialUnclear(count))
    } else {
        match first_initial(ss, 0) {
            Some(i) => sort_facts(unknown + verdicts(ss, ms, ss[i].name, ss.len() as int)),
            None => unknown,
        }
    }
}

/// The initial state's name, when exactly one state is marked.
pub open spec fn initial_of(ss: Seq<StateShape>) -> Option<Seq<char>> {
    if marked(ss, ss.len() as int) != 1 {
        None
    } else {
        match first_initial(ss, 0) {
            Some(i) => Some(ss[i].name),
            None => None,
        }
    }
}

proof fn lemma_first_initial(ss: Seq<StateShape>, i: int)
    requires
        0 <= i,
    ensures
        match first_initial(ss, i) {
            Some(j) => i <= j < ss.len() && ss[j].initial,
            None => forall|j: int| i <= j < ss.len() ==> !(#[trigger] ss[j]).initial,
        },
    decreases ss.len() - i,
{
    if i < ss.len() && !ss[i].initial {
        lemma_first_initial(ss, i + 1);
    }
}

proof fn lemma_none_marked(ss: Seq<StateShape>, k: int)
    requires
        0 <= k <= ss.len(),
        forall|j: int| 0 <= j < k ==> !(#[trigger] ss[j]).initial,
    ensures
        marked(ss, k) == 0,
    decreases k,
{
    if k > 0 {
        lemma_none_marked(ss, k - 1);
    }
}


// ---------------------------------------------------------------------------------------------
// StateGraph
// ---------------------------------------------------------------------------------------------

/// A `.cvstate` graph.
#[derive(Clone, Debug, PartialEq, Eq)]
pub struct StateGraph {
    /// What the graph settles.
    pub variable: String,
    /// The settings.
    pub states: Vec<State>,
    /// The moves.
    pub transitions: Vec<Transition>,
}

impl StateGraph {
    /// The states as plain values.
    pub open spec fn shape(self) -> Seq<StateShape> {
        state_shapes(self.states@)
    }

    /// The transitions as plain values.
    pub open spec fn moves_spec(self) -> Seq<Move> {
        moves(self.transitions@)
    }

    /// An empty graph over a variable.
    pub fn new(variable: &str) -> (g: StateGraph)
        ensures
            g.variable@ == variable@,
            g.states@.len() == 0,
            g.transitions@.len() == 0,
    {
        StateGraph { variable: String::from_str(variable), states: Vec::new(), transitions: Vec::new() }
    }

    /// Add a state.
    pub fn state(self, name: &str, initial: bool) -> (g: StateGraph)
        ensures
            g.variable == self.variable,
            g.transitions == self.transitions,
            g.states@ == self.states@.push(g.states@.last()),
            g.states@.last().name@ == name@,
            g.states@.last().initial == initial,
            g.states@.last().doc@ == Seq::<char>::empty(),
    {
        let mut g = self;
        g.states.push(State { name: String::from_str(name), initial, doc: String::new() });
        g
    }

    /// Add a transition.
    pub fn transition(self, from: &str, to: &str, needs: &[&str], via: &str) -> (g: StateGraph)
        ensures
            g.variable == self.variable,
            g.states == self.states,
            g.transitions@ == self.transitions@.push(g.transitions@.last()),
            g.transitions@.last()@ == (Move { from: from@, to: to@, requires: texts(needs@) }),
            g.transitions@.last().via@ == via@,
    {
        let mut g = self;
        g.transitions.push(
            Transition {
                from: String::from_str(from),
                to: String::from_str(to),
                requires: owned_texts(needs),
                via: String::from_str(via),
            },
        );
        g
    }

    /// Is there a state named `n`?
    fn has_state(&self, n: &str) -> (b: bool)
        ensures
            b == names(self.shape()).contains(n@),
    {
        let ghost ns = names(self.shape());
        let mut i: usize = 0;
        while i < self.states.len()
            invariant
                ns == names(self.shape()),
                i <= ns.len(),
                forall|j: int| 0 <= j < i ==> ns[j] != n@,
            decreases ns.len() - i,
        {
            if same_text(self.states[i].name.as_str(), n) {
                assert(ns[i as int] == n@);
                return true;
            }
            i += 1;
        }
        false
    }

    /// How many states are marked initial.
    fn marked_count(&self) -> (c: usize)
        ensures
            c == marked(self.shape(), self.shape().len() as int),
    {
        let ghost ss = self.shape();
        let mut c: usize = 0;
        let mut i: usize = 0;
        while i < self.states.len()
            invariant
                ss == self.shape(),
                i <= ss.len(),
                c == marked(ss, i as int),
                c <= i,
            decreases ss.len() - i,
        {
            if self.states[i].initial {
                c += 1;
            }
            i += 1;
        }
        c
    }

    /// The first state marked initial.
    fn initial_index(&self) -> (r: Option<usize>)
        ensures
            match r {
                Some(i) => first_initial(self.shape(), 0) == Some(i as int),
                None => first_initial(self.shape(), 0) is None,
            },
    {
        let ghost ss = self.shape();
        let mut i: usize = 0;
        while i < self.states.len()
            invariant
                ss == self.shape(),
                i <= ss.len(),
                first_initial(ss, 0) == first_initial(ss, i as int),
            decreases ss.len() - i,
        {
            if self.states[i].initial {
                return Some(i);
            }
            i += 1;
        }
        None
    }

    /// The initial state's name, when exactly one is marked.
    pub fn initial(&self) -> (r: Option<&str>)
        ensures
            match r {
                Some(n) => initial_of(self.shape()) == Some(n@),
                None => initial_of(self.shape()) is None,
            },
    {
        let ghost ss = self.shape();
        if self.marked_count() != 1 {
            return None;
        }
        let r = self.initial_index();
        proof {
            lemma_first_initial(ss, 0);
        }
        match r {
            Some(i) => {
                assert(self.states@[i as int]@ == ss[i as int]);
                Some(self.states[i].name.as_str())
            },
            None => {
                proof {
                    lemma_none_marked(ss, ss.len() as int);
                }
                None
            },
        }
    }

    /// How many transitions leave `n`.
    fn exits_from(&self, n: &str) -> (c: usize)
        ensures
            c == exit_count(self.moves_spec(), n@, self.moves_spec().len() as int),
    {
        let ghost ms = self.moves_spec();
        let mut c: usize = 0;
        let mut k: usize = 0;
        while k < self.transitions.len()
            invariant
                ms == self.moves_spec(),
                k <= ms.len(),
                c == exit_count(ms, n@, k as int),
                c <= k,
            decreases ms.len() - k,
        {
            if same_text(self.transitions[k].from.as_str(), n) {
                c += 1;
            }
            k += 1;
        }
        c
    }

    /// What the transitions leaving `n` require, sorted, each once.
    fn gate_of(&self, n: &str) -> (g: Vec<String>)
        ensures
            strs(g@) == gate(self.moves_spec(), n@, self.moves_spec().len() as int),
    {
        let ghost ms = self.moves_spec();
        let mut g: Vec<String> = Vec::new();
        let mut k: usize = 0;
        while k < self.transitions.len()
            invariant
                ms == self.moves_spec(),
                k <= ms.len(),
                strs(g@) == gate(ms, n@, k as int),
            decreases ms.len() - k,
        {
            let t = &self.transitions[k];
            assert(t@ == ms[k as int]);
            if same_text(t.from.as_str(), n) {
                let ghost base = strs(g@);
                let mut j: usize = 0;
                while j < t.requires.len()
                    invariant
                        t@ == ms[k as int],
                        j <= t@.requires.len(),
                        strs(g@) == insert_all(base, t@.requires, j as int),
                    decreases t@.requires.len() - j,
                {
                    insert_text_sorted(&mut g, t.requires[j].as_str());
                    j += 1;
                }
            }
            k += 1;
        }
        g
    }
}


/// A transition's label, `from → to`.
fn arrow_text(t: &Transition) -> (s: String)
    ensures
        s@ == arrow(t@),
{
    let mut s = t.from.clone();
    s.append(" → ");
    s.append(t.to.as_str());
    s
}

/// Sort findings stably by how they read.
fn sort_findings(raw: Vec<Finding>) -> (out: Vec<Finding>)
    ensures
        facts(out@) == sort_facts(facts(raw@)),
{
    let ghost orig = facts(raw@);
    let n = raw.len();
    let mut rest = raw;
    let mut out: Vec<Finding> = Vec::new();
    let mut keys: Vec<String> = Vec::new();
    let mut i: usize = 0;
    assert(orig.skip(0) =~= orig);
    assert(orig.take(0) =~= Seq::<Fact>::empty());
    while i < n
        invariant
            n == orig.len(),
            i <= n,
            facts(rest@) == orig.skip(i as int),
            rest@.len() == n - i,
            facts(out@) == sort_facts(orig.take(i as int)),
            keys@.len() == out@.len(),
            forall|j: int| 0 <= j < keys@.len() ==> #[trigger] keys@[j]@ == fact_text(facts(out@)[j]),
        decreases n - i,
    {
        let ghost r0 = rest@;
        let f = rest.remove(0);
        proof {
            assert(rest@ == r0.remove(0));
            assert(facts(rest@) =~= facts(r0).drop_first());
            assert(orig.skip(i as int).drop_first() =~= orig.skip(i + 1));
            assert(facts(r0)[0] == f@);
            assert(orig.skip(i as int)[0] == orig[i as int]);
        }
        let key = f.to_string();
        let ghost s = facts(out@);
        let mut p: usize = 0;
        assert(s.skip(0) =~= s);
        while p < out.len() && !text_less(key.as_str(), keys[p].as_str())
            invariant
                s == facts(out@),
                keys@.len() == out@.len(),
                forall|j: int| 0 <= j < keys@.len() ==> #[trigger] keys@[j]@ == fact_text(s[j]),
                key@ == fact_text(f@),
                p <= s.len(),
                le_prefix(s, f@) == p + le_prefix(s.skip(p as int), f@),
            decreases s.len() - p,
        {
            assert(s.skip(p as int)[0] == s[p as int]);
            assert(s.skip(p as int).drop_first() =~= s.skip(p + 1));
            p += 1;
        }
        if p < out.len() {
            assert(s.skip(p as int)[0] == s[p as int]);
        }
        let ghost ko = keys@;
        out.insert(p, f);
        keys.insert(p, key);
        proof {
            assert(facts(out@) =~= s.insert(p as int, orig[i as int]));
            assert(orig.take(i + 1).drop_last() =~= orig.take(i as int));
            assert(orig.take(i + 1).last() == orig[i as int]);
            assert forall|j: int| 0 <= j < keys@.len() implies #[trigger] keys@[j]@ == fact_text(
                facts(out@)[j],
            ) by {
                if j < p {
                    assert(keys@[j] == ko[j]);
                } else if j > p {
                    assert(keys@[j] == ko[j - 1]);
                }
            }
        }
        i += 1;
    }
    assert(orig.take(n as int) =~= orig);
    out
}

impl StateGraph {
    /// The verdict on state `s`, given the states a walk from the start reaches.
    fn verdict_of(&self, s: &str, init: &str, accessible: &[String]) -> (r: Option<Finding>)
        requires
            forall|x: Seq<char>|
                #[trigger] strs(accessible@).contains(x) <==> reaches(
                    self.moves_spec(),
                    false,
                    init@,
                    x,
                ),
        ensures
            match r {
                Some(f) => verdict(self.moves_spec(), s@, init@) == Some(f@),
                None => verdict(self.moves_spec(), s@, init@) is None,
            },
    {
        if !holds_text(accessible, s) {
            return Some(Finding::Inaccessible { state: String::from_str(s) });
        }
        if same_text(s, init) {
            return None;
        }
        let exits = self.exits_from(s);
        if exits == 0 {
            return Some(Finding::DeadEnd { state: String::from_str(s) });
        }
        let back = reach_from(self.transitions.as_slice(), s, true);
        if holds_text(back.as_slice(), init) {
            return None;
        }
        let needs = self.gate_of(s);
        if needs.len() == 0 {
            return Some(Finding::DeadEnd { state: String::from_str(s) });
        }
        Some(Finding::ExitGated { state: String::from_str(s), requires: needs, paths_affected: exits })
    }

    /// The softlock check, cheap enough to run on every edit. Transitions naming missing states
    /// first; then, without exactly one initial state, that one finding and nothing more;
    /// otherwise a verdict on every state, and everything sorted by how it reads.
    pub fn check(&self) -> (fs: Vec<Finding>)
        ensures
            facts(fs@) == findings_of(self.shape(), self.moves_spec()),
    {
        let ghost ss = self.shape();
        let ghost ms = self.moves_spec();
        let mut out: Vec<Finding> = Vec::new();
        let mut k: usize = 0;
        while k < self.transitions.len()
            invariant
                ss == self.shape(),
                ms == self.moves_spec(),
                k <= ms.len(),
                facts(out@) == unknown_upto(ss, ms, k as int),
            decreases ms.len() - k,
        {
            let t = &self.transitions[k];
            assert(t@ == ms[k as int]);
            let ghost before = facts(out@);
            if !self.has_state(t.from.as_str()) {
                out.push(
                    Finding::UnknownState { transition: arrow_text(t), missing: t.from.clone() },
                );
            }
            let ghost middle = facts(out@);
            if !self.has_state(t.to.as_str()) {
                out.push(Finding::UnknownState { transition: arrow_text(t), missing: t.to.clone() });
            }
            proof {
                let m = ms[k as int];
                let first = if names(ss).contains(m.from) {
                    Seq::empty()
                } else {
                    seq![Fact::UnknownState(arrow(m), m.from)]
                };
                let second = if names(ss).contains(m.to) {
                    Seq::empty()
                } else {
                    seq![Fact::UnknownState(arrow(m), m.to)]
                };
                assert(middle =~= before + first);
                assert(facts(out@) =~= middle + second);
                assert(facts(out@) =~= before + missing_ends(ss, m));
            }
            k += 1;
        }
        let ghost unknown = facts(out@);
        let count = self.marked_count();
        if count != 1 {
            let ghost before = facts(out@);
            out.push(Finding::InitialUnclear { count });
            assert(facts(out@) =~= before.push(Fact::InitialUnclear(count as nat)));
            return out;
        }
        let first = self.initial_index();
        proof {
            lemma_first_initial(ss, 0);
            if first is None {
                lemma_none_marked(ss, ss.len() as int);
            }
        }
        let idx = match first {
            Some(idx) => idx,
            None => {
                return out;
            },
        };
        let init = self.states[idx].name.as_str();
        assert(init@ == ss[idx as int].name);
        let accessible = reach_from(self.transitions.as_slice(), init, false);
        let mut i: usize = 0;
        assert(unknown + verdicts(ss, ms, init@, 0) =~= unknown);
        while i < self.states.len()
            invariant
                ss == self.shape(),
                ms == self.moves_spec(),
                i <= ss.len(),
                forall|x: Seq<char>|
                    #[trigger] strs(accessible@).contains(x) <==> reaches(ms, false, init@, x),
                facts(out@) == unknown + verdicts(ss, ms, init@, i as int),
            decreases ss.len() - i,
        {
            let st = &self.states[i];
            assert(st@ == ss[i as int]);
            let ghost before = facts(out@);
            match self.verdict_of(st.name.as_str(), init, accessible.as_slice()) {
                Some(f) => {
                    out.push(f);
                    assert(facts(out@) =~= before.push(f@));
                },
                None => {},
            }
            assert(facts(out@) =~= unknown + verdicts(ss, ms, init@, i + 1));
            i += 1;
        }
        sort_findings(out)
    }

    /// Does the graph satisfy the softlock rule? A gated exit does not fail it: only findings
    /// that block do.
    pub fn satisfies_p15(&self) -> (b: bool)
        ensures
            b == forall|i: int|
                0 <= i < findings_of(self.shape(), self.moves_spec()).len() ==> !blocking(
                    #[trigger] findings_of(self.shape(), self.moves_spec())[i],
                ),
    {
        let fs = self.check();
        let ghost all = findings_of(self.shape(), self.moves_spec());
        let mut i: usize = 0;
        while i < fs.len()
            invariant
                facts(fs@) == all,
                all == findings_of(self.shape(), self.moves_spec()),
                i <= fs@.len(),
                forall|j: int| 0 <= j < i ==> !blocking(#[trigger] all[j]),
            decreases fs@.len() - i,
        {
            assert(all[i as int] == fs@[i as int]@);
            if fs[i].blocks() {
                assert(blocking(all[i as int]));
                return false;
            }
            i += 1;
        }
        true
    }
}

/// The names in a list of name-and-count pairs.
pub open spec fn keys_of(v: Seq<(String, usize)>) -> Seq<Seq<char>> {
    v.map_values(|e: (String, usize)| e.0@)
}

/// Inserting a list of texts one by one into a strictly sorted list keeps it strictly sorted,
/// and adds exactly those texts.
pub proof fn lemma_insert_all(s: Seq<Seq<char>>, xs: Seq<Seq<char>>, j: int)
    requires
        strictly_sorted(s),
        0 <= j <= xs.len(),
    ensures
        strictly_sorted(insert_all(s, xs, j)),
        forall|y: Seq<char>|
            #[trigger] insert_all(s, xs, j).contains(y) <==> (s.contains(y) || xs.take(j).contains(y)),
    decreases j,
{
    if j > 0 {
        lemma_insert_all(s, xs, j - 1);
        lemma_sorted_insert(insert_all(s, xs, j - 1), xs[j - 1]);
        assert forall|y: Seq<char>| xs.take(j).contains(y) <==> (xs.take(j - 1).contains(y) || y
            == xs[j - 1]) by {
            let longer = xs.take(j);
            let shorter = xs.take(j - 1);
            if longer.contains(y) {
                let w = choose|w: int| 0 <= w < longer.len() && longer[w] == y;
                if w < j - 1 {
                    assert(shorter[w] == y);
                }
            }
            if shorter.contains(y) {
                let w = choose|w: int| 0 <= w < shorter.len() && shorter[w] == y;
                assert(longer[w] == y);
            }
            if y == xs[j - 1] {
                assert(xs.take(j)[j - 1] == y);
            }
        }
    } else {
        assert(xs.take(0) =~= Seq::<Seq<char>>::empty());
    }
}

impl StateGraph {
    /// How many transitions leave each state: one entry per state name, sorted by name.
    pub fn out_degree(&self) -> (out: Vec<(String, usize)>)
        ensures
            keys_of(out@) == insert_all(
                Seq::empty(),
                names(self.shape()),
                self.shape().len() as int,
            ),
            strictly_sorted(keys_of(out@)),
            forall|n: Seq<char>| #[trigger] keys_of(out@).contains(n) <==> names(self.shape()).contains(n),
            forall|i: int|
                0 <= i < out@.len() ==> out@[i].1 == exit_count(
                    self.moves_spec(),
                    #[trigger] keys_of(out@)[i],
                    self.moves_spec().len() as int,
                ),
    {
        let ghost ss = self.shape();
        let ghost ns = names(ss);
        let mut keys: Vec<String> = Vec::new();
        let mut i: usize = 0;
        while i < self.states.len()
            invariant
                ss == self.shape(),
                ns == names(ss),
                i <= ss.len(),
                strs(keys@) == insert_all(Seq::empty(), ns, i as int),
            decreases ss.len() - i,
        {
            assert(self.states@[i as int].name@ == ns[i as int]);
            insert_text_sorted(&mut keys, self.states[i].name.as_str());
            i += 1;
        }
        proof {
            assert(strictly_sorted(Seq::<Seq<char>>::empty()));
            lemma_insert_all(Seq::empty(), ns, ns.len() as int);
            assert(ns.take(ns.len() as int) =~= ns);
        }
        let mut out: Vec<(String, usize)> = Vec::new();
        let mut j: usize = 0;
        while j < keys.len()
            invariant
                j <= keys@.len(),
                keys_of(out@) == strs(keys@).take(j as int),
                forall|x: int|
                    0 <= x < out@.len() ==> out@[x].1 == exit_count(
                        self.moves_spec(),
                        #[trigger] keys_of(out@)[x],
                        self.moves_spec().len() as int,
                    ),
            decreases keys@.len() - j,
        {
            let c = self.exits_from(keys[j].as_str());
            let ghost before = keys_of(out@);
            out.push((keys[j].clone(), c));
            proof {
                assert(keys_of(out@) =~= before.push(keys@[j as int]@));
                assert(strs(keys@).take(j + 1) =~= strs(keys@).take(j as int).push(keys@[j as int]@));
            }
            j += 1;
        }
        assert(strs(keys@).take(keys@.len() as int) =~= strs(keys@));
        out
    }
}


// ---------------------------------------------------------------------------------------------
// Laws
// ---------------------------------------------------------------------------------------------

/// Findings in an order where none reads later than the one after it.
pub open spec fn reads_in_order(fs: Seq<Fact>) -> bool {
    forall|i: int, j: int|
        0 <= i < j < fs.len() ==> !text_lt(fact_text(#[trigger] fs[j]), fact_text(#[trigger] fs[i]))
}

proof fn lemma_le_prefix(s: Seq<Fact>, f: Fact)
    ensures
        le_prefix(s, f) <= s.len(),
        forall|j: int| 0 <= j < le_prefix(s, f) ==> !text_lt(fact_text(f), fact_text(#[trigger] s[j])),
        le_prefix(s, f) < s.len() ==> text_lt(fact_text(f), fact_text(s[le_prefix(s, f) as int])),
    decreases s.len(),
{
    if s.len() > 0 && !text_lt(fact_text(f), fact_text(s[0])) {
        lemma_le_prefix(s.drop_first(), f);
        assert forall|j: int| 0 <= j < le_prefix(s, f) implies !text_lt(
            fact_text(f),
            fact_text(#[trigger] s[j]),
        ) by {
            if j > 0 {
                assert(s[j] == s.drop_first()[j - 1]);
            }
        }
    }
}

proof fn lemma_no_later_transitive(a: Seq<char>, b: Seq<char>, c: Seq<char>)
    requires
        !text_lt(b, a),
        !text_lt(c, b),
    ensures
        !text_lt(c, a),
{
    lemma_text_lt_total(a, b);
    if text_lt(c, a) && a != b {
        lemma_text_lt_transitive(c, a, b);
    }
}

/// The stable sort leaves findings in reading order and loses none.
pub proof fn lemma_sort_facts(fs: Seq<Fact>)
    ensures
        reads_in_order(sort_facts(fs)),
        sort_facts(fs).len() == fs.len(),
        forall|x: Fact| #[trigger] sort_facts(fs).contains(x) ==> fs.contains(x),
    decreases fs.len(),
{
    if fs.len() > 0 {
        let rest = fs.drop_last();
        let x = fs.last();
        lemma_sort_facts(rest);
        let s = sort_facts(rest);
        lemma_le_prefix(s, x);
        let p = le_prefix(s, x) as int;
        let r = s.insert(p, x);
        assert forall|i: int, j: int| 0 <= i < j < r.len() implies !text_lt(
            fact_text(#[trigger] r[j]),
            fact_text(#[trigger] r[i]),
        ) by {
            if j < p {
                assert(r[i] == s[i] && r[j] == s[j]);
            } else if j == p {
                assert(r[i] == s[i]);
            } else if i > p {
                assert(r[i] == s[i - 1] && r[j] == s[j - 1]);
            } else if i == p {
                assert(r[j] == s[j - 1]);
                lemma_text_lt_total(fact_text(x), fact_text(s[p]));
                if j - 1 > p {
                    lemma_no_later_transitive(fact_text(x), fact_text(s[p]), fact_text(s[j - 1]));
                }
            } else {
                assert(r[i] == s[i] && r[j] == s[j - 1]);
                lemma_text_lt_total(fact_text(x), fact_text(s[p]));
                if j - 1 > p {
                    lemma_no_later_transitive(fact_text(x), fact_text(s[p]), fact_text(s[j - 1]));
                }
                lemma_no_later_transitive(fact_text(s[i]), fact_text(x), fact_text(s[j - 1]));
            }
        }
        assert forall|y: Fact| #[trigger] r.contains(y) implies fs.contains(y) by {
            let w = choose|w: int| 0 <= w < r.len() && r[w] == y;
            if w == p {
                assert(fs[fs.len() - 1] == y);
            } else {
                let v = if w < p {
                    w
                } else {
                    w - 1
                };
                assert(s[v] == y);
                assert(s.contains(y));
                let u = choose|u: int| 0 <= u < rest.len() && rest[u] == y;
                assert(fs[u] == y);
            }
        }
    }
}

/// When exactly one state is initial, the findings read in order: none reads later than the one
/// after it.
pub proof fn law_findings_read_in_order(g: StateGraph)
    requires
        marked(g.shape(), g.shape().len() as int) == 1,
    ensures
        reads_in_order(findings_of(g.shape(), g.moves_spec())),
{
    let ss = g.shape();
    lemma_first_initial(ss, 0);
    if first_initial(ss, 0) is None {
        lemma_none_marked(ss, ss.len() as int);
    }
    let i = first_initial(ss, 0)->Some_0;
    let unknown = unknown_upto(ss, g.moves_spec(), g.moves_spec().len() as int);
    lemma_sort_facts(unknown + verdicts(ss, g.moves_spec(), ss[i].name, ss.len() as int));
}

/// The state a finding is about, for the findings that are about one state.
pub open spec fn subject(f: Fact) -> Option<Seq<char>> {
    match f {
        Fact::Inaccessible(s) => Some(s),
        Fact::DeadEnd(s) => Some(s),
        Fact::ExitGated(s, _, _) => Some(s),
        _ => None,
    }
}

proof fn lemma_unknown_has_no_subject(ss: Seq<StateShape>, ms: Seq<Move>, k: int, x: Fact)
    requires
        0 <= k <= ms.len(),
        unknown_upto(ss, ms, k).contains(x),
    ensures
        subject(x) is None,
    decreases k,
{
    if k > 0 {
        let a = unknown_upto(ss, ms, k - 1);
        let b = missing_ends(ss, ms[k - 1]);
        let w = choose|w: int| 0 <= w < (a + b).len() && (a + b)[w] == x;
        if w < a.len() {
            assert(a[w] == x);
            lemma_unknown_has_no_subject(ss, ms, k - 1, x);
        } else {
            assert(b[w - a.len()] == x);
        }
    }
}

proof fn lemma_verdict_source(ss: Seq<StateShape>, ms: Seq<Move>, init: Seq<char>, k: int, x: Fact)
    requires
        0 <= k <= ss.len(),
        verdicts(ss, ms, init, k).contains(x),
    ensures
        exists|j: int| 0 <= j < k && verdict(ms, (#[trigger] ss[j]).name, init) == Some(x),
    decreases k,
{
    if k > 0 {
        let a = verdicts(ss, ms, init, k - 1);
        let b = match verdict(ms, ss[k - 1].name, init) {
            Some(f) => seq![f],
            None => Seq::empty(),
        };
        let w = choose|w: int| 0 <= w < (a + b).len() && (a + b)[w] == x;
        if w < a.len() {
            assert(a[w] == x);
            lemma_verdict_source(ss, ms, init, k - 1, x);
        } else {
            assert(b[w - a.len()] == x);
            assert(verdict(ms, ss[k - 1].name, init) == Some(x));
        }
    }
}

/// A state is never reported when it is the start, or when a walk leads to it and a walk of free
/// moves leads from it back to the start: re-enterability, not reachability, is the question.
pub proof fn law_re_enterable_states_are_not_reported(g: StateGraph, s: Seq<char>)
    requires
        initial_of(g.shape()) is Some,
        ({
            let init = initial_of(g.shape())->Some_0;
            s == init || (reaches(g.moves_spec(), false, init, s) && reaches(
                g.moves_spec(),
                true,
                s,
                init,
            ))
        }),
    ensures
        forall|x: Fact|
            #[trigger] findings_of(g.shape(), g.moves_spec()).contains(x) ==> subject(x) != Some(s),
{
    let ss = g.shape();
    let ms = g.moves_spec();
    lemma_first_initial(ss, 0);
    let i = first_initial(ss, 0)->Some_0;
    let init = ss[i].name;
    let unknown = unknown_upto(ss, ms, ms.len() as int);
    let vs = verdicts(ss, ms, init, ss.len() as int);
    lemma_walk_here(ms, false, init);
    if s != init {
        let w = choose|w: Seq<Seq<char>>| #[trigger] is_walk(ms, true, w) && w[0] == s && w.last() == init;
        assert(linked(ms, true, w, 0));
        let k = choose|k: int|
            0 <= k < ms.len() && usable(#[trigger] ms[k], true) && ms[k].from == w[0] && ms[k].to == w[1];
        lemma_exit_count_positive(ms, s, ms.len() as int, k);
    }
    assert(verdict(ms, s, init) is None);
    lemma_sort_facts(unknown + vs);
    assert forall|x: Fact| #[trigger] findings_of(ss, ms).contains(x) implies subject(x) != Some(s) by {
        assert((unknown + vs).contains(x));
        let w = choose|w: int| 0 <= w < (unknown + vs).len() && (unknown + vs)[w] == x;
        if w < unknown.len() {
            assert(unknown[w] == x);
            lemma_unknown_has_no_subject(ss, ms, ms.len() as int, x);
        } else {
            assert(vs[w - unknown.len()] == x);
            lemma_verdict_source(ss, ms, init, ss.len() as int, x);
            let j = choose|j: int| 0 <= j < ss.len() && verdict(ms, (#[trigger] ss[j]).name, init) == Some(x);
            assert(subject(x) == Some(ss[j].name));
        }
    }
}

/// What a gated exit reports is each requirement of the state's exits, once, in sorted order.
pub proof fn law_gate_lists_each_requirement_once(g: StateGraph, n: Seq<char>, y: Seq<char>)
    ensures
        strictly_sorted(gate(g.moves_spec(), n, g.moves_spec().len() as int)),
        gate(g.moves_spec(), n, g.moves_spec().len() as int).contains(y) <==> exists|k: int|
            0 <= k < g.moves_spec().len() && (#[trigger] g.moves_spec()[k]).from == n
                && g.moves_spec()[k].requires.contains(y),
{
    lemma_gate(g.moves_spec(), n, g.moves_spec().len() as int, y);
}

proof fn lemma_gate(ms: Seq<Move>, n: Seq<char>, k: int, y: Seq<char>)
    requires
        0 <= k <= ms.len(),
    ensures
        strictly_sorted(gate(ms, n, k)),
        gate(ms, n, k).contains(y) <==> exists|j: int|
            0 <= j < k && (#[trigger] ms[j]).from == n && ms[j].requires.contains(y),
    decreases k,
{
    if k > 0 {
        lemma_gate(ms, n, k - 1, y);
        let m = ms[k - 1];
        if m.from == n {
            lemma_insert_all(gate(ms, n, k - 1), m.requires, m.requires.len() as int);
            assert(m.requires.take(m.requires.len() as int) =~= m.requires);
        }
    }
}


proof fn lemma_exit_count_positive(ms: Seq<Move>, n: Seq<char>, k: int, j: int)
    requires
        0 <= j < k <= ms.len(),
        ms[j].from == n,
    ensures
        exit_count(ms, n, k) > 0,
    decreases k,
{
    if j < k - 1 {
        lemma_exit_count_positive(ms, n, k - 1, j);
    }
}

} // verus!
