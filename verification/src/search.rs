//! The search heuristics, each carried with the guardrail that bounds it, and the ladder of moves
//! for resolving an ambiguous answer.

use crate::trivalent::Trivalent;
use vstd::prelude::*;

verus! {

/// One of the five search heuristics.
#[derive(Clone, Copy, Debug, PartialEq, Eq, PartialOrd, Ord, Hash, Structural)]
pub enum Heuristic {
    /// Try the most-constrained placement first.
    MostConstrainedFirst,
    /// Reuse a previous placement search.
    CachePlacementSearch,
    /// Stop retrying locally after so many attempts.
    DecayingAttemptBudget,
    /// Push placements apart for distribution.
    Repulsion,
    /// Move an anchor out of the tolerance band.
    PushItOut,
}

impl Heuristic {
    /// All five.
    pub fn all() -> (v: [Heuristic; 5])
        ensures
            v@ == seq![
                Heuristic::MostConstrainedFirst,
                Heuristic::CachePlacementSearch,
                Heuristic::DecayingAttemptBudget,
                Heuristic::Repulsion,
                Heuristic::PushItOut,
            ],
    {
        let v = [
            Heuristic::MostConstrainedFirst,
            Heuristic::CachePlacementSearch,
            Heuristic::DecayingAttemptBudget,
            Heuristic::Repulsion,
            Heuristic::PushItOut,
        ];
        assert(v@ =~= seq![
            Heuristic::MostConstrainedFirst,
            Heuristic::CachePlacementSearch,
            Heuristic::DecayingAttemptBudget,
            Heuristic::Repulsion,
            Heuristic::PushItOut,
        ]);
        v
    }

    /// What keeps this heuristic from restricting what is expressible.
    pub fn guardrail(self) -> (s: &'static str)
        ensures
            s@ == guardrail_text(self),
            s@.len() > 0,
    {
        proof {
            reveal_strlit("reaching zero escalates, never abandons");
            reveal_strlit("keyed on the resolved configuration, and deletable without changing the output");
            reveal_strlit("ordering changes which valid solution is found, never whether one exists; so it is a selectable policy, not a constant");
            reveal_strlit("a pressure; never overrides an obligation, a pin, or an explicit placement");
            reveal_strlit("applies only to an AMBIGUOUS scalar answer; it moves an anchor, never a decision");
        }
        match self {
            Heuristic::MostConstrainedFirst => "ordering changes which valid solution is found, never whether one exists; so it is a selectable policy, not a constant",
            Heuristic::CachePlacementSearch => "keyed on the resolved configuration, and deletable without changing the output",
            Heuristic::DecayingAttemptBudget => "reaching zero escalates, never abandons",
            Heuristic::Repulsion => "a pressure; never overrides an obligation, a pin, or an explicit placement",
            Heuristic::PushItOut => "applies only to an AMBIGUOUS scalar answer; it moves an anchor, never a decision",
        }
    }

    /// May a project turn this off without changing which worlds are possible? All five may.
    pub fn is_optional(self) -> (b: bool)
        ensures
            b,
    {
        true
    }

    /// The name shown in reports.
    pub fn to_string(&self) -> (s: String)
        ensures
            s@ == heuristic_name(*self),
    {
        String::from_str(match self {
            Heuristic::MostConstrainedFirst => "most-constrained-first",
            Heuristic::CachePlacementSearch => "cache-placement-search",
            Heuristic::DecayingAttemptBudget => "decaying-attempt-budget",
            Heuristic::Repulsion => "repulsion",
            Heuristic::PushItOut => "push-it-out",
        })
    }
}

/// A heuristic's name.
pub open spec fn heuristic_name(h: Heuristic) -> Seq<char> {
    match h {
        Heuristic::MostConstrainedFirst => "most-constrained-first"@,
        Heuristic::CachePlacementSearch => "cache-placement-search"@,
        Heuristic::DecayingAttemptBudget => "decaying-attempt-budget"@,
        Heuristic::Repulsion => "repulsion"@,
        Heuristic::PushItOut => "push-it-out"@,
    }
}

/// A heuristic's guardrail.
pub open spec fn guardrail_text(h: Heuristic) -> Seq<char> {
    match h {
        Heuristic::MostConstrainedFirst => "ordering changes which valid solution is found, never whether one exists; so it is a selectable policy, not a constant"@,
        Heuristic::CachePlacementSearch => "keyed on the resolved configuration, and deletable without changing the output"@,
        Heuristic::DecayingAttemptBudget => "reaching zero escalates, never abandons"@,
        Heuristic::Repulsion => "a pressure; never overrides an obligation, a pin, or an explicit placement"@,
        Heuristic::PushItOut => "applies only to an AMBIGUOUS scalar answer; it moves an anchor, never a decision"@,
    }
}

/// One move for resolving an ambiguous decision; the declaration order is the cost order.
#[derive(Clone, Copy, Debug, PartialEq, Eq, PartialOrd, Ord, Hash, Structural)]
pub enum Move {
    /// Move the anchor until the margin clears the band. Usually free.
    PushOut,
    /// Leave it ambiguous; the next fidelity rung settles it.
    Defer,
    /// Contour that one Space early to shrink the tolerance. Expensive.
    TightenProxy,
}

impl Move {
    /// The ladder, cheapest first.
    pub fn ladder() -> (v: [Move; 3])
        ensures
            v@ == seq![Move::PushOut, Move::Defer, Move::TightenProxy],
    {
        let v = [Move::PushOut, Move::Defer, Move::TightenProxy];
        assert(v@ =~= seq![Move::PushOut, Move::Defer, Move::TightenProxy]);
        v
    }

    /// A rough relative cost, for reporting.
    pub fn cost(self) -> (s: &'static str)
        ensures
            s@ == cost_text(self),
            s@.len() > 0,
    {
        proof {
            reveal_strlit("usually free at L3, and should be preferred overwhelmingly");
            reveal_strlit("affordable because the band is narrow");
            reveal_strlit("expensive; the escape hatch, not the plan");
        }
        match self {
            Move::PushOut => "usually free at L3, and should be preferred overwhelmingly",
            Move::Defer => "affordable because the band is narrow",
            Move::TightenProxy => "expensive; the escape hatch, not the plan",
        }
    }
}

/// How expensive a move is, in words.
pub open spec fn cost_text(m: Move) -> Seq<char> {
    match m {
        Move::PushOut => "usually free at L3, and should be preferred overwhelmingly"@,
        Move::Defer => "affordable because the band is narrow"@,
        Move::TightenProxy => "expensive; the escape hatch, not the plan"@,
    }
}

impl Move {
    /// The move's name in a trace.
    pub fn to_string(&self) -> (s: String)
        ensures
            s@ == match *self {
                Move::PushOut => "push it out"@,
                Move::Defer => "defer"@,
                Move::TightenProxy => "tighten the proxy"@,
            },
    {
        String::from_str(
            match self {
                Move::PushOut => "push it out",
                Move::Defer => "defer",
                Move::TightenProxy => "tighten the proxy",
            },
        )
    }
}

/// A move's position on the ladder.
pub open spec fn move_rank(m: Move) -> int {
    match m {
        Move::PushOut => 0,
        Move::Defer => 1,
        Move::TightenProxy => 2,
    }
}

/// Which side of the band a nudge is aiming for.
#[derive(Clone, Copy, Debug, PartialEq, Eq, Hash, Structural)]
pub enum Target {
    /// Above the tolerance: a definite yes.
    Clear,
    /// Below minus the tolerance: a definite no.
    Closed,
}

impl Target {
    /// The target's name in a trace.
    pub fn to_string(&self) -> (s: String)
        ensures
            s@ == match *self {
                Target::Clear => "clear"@,
                Target::Closed => "closed"@,
            },
    {
        String::from_str(
            match self {
                Target::Clear => "clear",
                Target::Closed => "closed",
            },
        )
    }
}

/// The occurrences of `m` in `s`, in order.
pub open spec fn only(s: Seq<Move>, m: Move) -> Seq<Move>
    decreases s.len(),
{
    if s.len() == 0 {
        Seq::empty()
    } else if s.last() == m {
        only(s.drop_last(), m).push(m)
    } else {
        only(s.drop_last(), m)
    }
}

/// `s` ordered cheapest first, equal moves keeping their order.
pub open spec fn by_cost(s: Seq<Move>) -> Seq<Move> {
    only(s, Move::PushOut) + only(s, Move::Defer) + only(s, Move::TightenProxy)
}

/// The cheapest move in `s`, leaving out `PushOut` when `no_push`.
pub open spec fn cheapest(s: Seq<Move>, no_push: bool) -> Option<Move> {
    if !no_push && s.contains(Move::PushOut) {
        Some(Move::PushOut)
    } else if s.contains(Move::Defer) {
        Some(Move::Defer)
    } else if s.contains(Move::TightenProxy) {
        Some(Move::TightenProxy)
    } else {
        None
    }
}

/// `s` with every occurrence of `h` left out.
pub open spec fn removed(s: Seq<Heuristic>, h: Heuristic) -> Seq<Heuristic>
    decreases s.len(),
{
    if s.len() == 0 {
        Seq::empty()
    } else if s.last() == h {
        removed(s.drop_last(), h)
    } else {
        removed(s.drop_last(), h).push(s.last())
    }
}

proof fn lemma_removed_contains(s: Seq<Heuristic>, h: Heuristic)
    ensures
        forall|x: Heuristic| #[trigger] removed(s, h).contains(x) <==> (s.contains(x) && x != h),
    decreases s.len(),
{
    if s.len() > 0 {
        let t = s.drop_last();
        lemma_removed_contains(t, h);
        assert forall|x: Heuristic| #[trigger] removed(s, h).contains(x) <==> (s.contains(x) && x
            != h) by {
            assert(removed(t, h).contains(x) <==> (t.contains(x) && x != h));
            if t.contains(x) {
                let k = choose|k: int| 0 <= k < t.len() && t[k] == x;
                assert(s[k] == x);
            }
            if s.contains(x) {
                let k = choose|k: int| 0 <= k < s.len() && s[k] == x;
                if k < t.len() {
                    assert(t[k] == x);
                }
            }
            let r = removed(t, h);
            if s.last() != h {
                assert(removed(s, h) == r.push(s.last()));
                if r.contains(x) {
                    let k = choose|k: int| 0 <= k < r.len() && r[k] == x;
                    assert(r.push(s.last())[k] == x);
                }
                if x == s.last() {
                    assert(r.push(s.last())[r.len() as int] == x);
                }
                if r.push(s.last()).contains(x) && x != s.last() {
                    let k = choose|k: int| 0 <= k < r.len() + 1 && r.push(s.last())[k] == x;
                    assert(r[k] == x);
                }
            } else {
                assert(removed(s, h) == r);
            }
        }
    } else {
        assert forall|x: Heuristic| #[trigger] removed(s, h).contains(x) <==> (s.contains(x) && x
            != h) by {
            assert(removed(s, h).len() == 0);
        }
    }
}

/// Which heuristics are on, and which moves are affordable.
#[derive(Clone, Debug, PartialEq)]
pub struct SearchPolicy {
    enabled: Vec<Heuristic>,
    admissible: Vec<Move>,
}

fn copies_of(s: &[Move], m: Move, out: &mut Vec<Move>)
    ensures
        final(out)@ == old(out)@ + only(s@, m),
{
    let mut i: usize = 0;
    while i < s.len()
        invariant
            i <= s@.len(),
            out@ == old(out)@ + only(s@.take(i as int), m),
        decreases s@.len() - i,
    {
        proof {
            assert(s@.take(i + 1).drop_last() =~= s@.take(i as int));
        }
        if s[i] == m {
            out.push(m);
        }
        proof {
            assert(out@ =~= old(out)@ + only(s@.take(i + 1), m));
        }
        i += 1;
    }
    assert(s@.take(s@.len() as int) =~= s@);
}

impl SearchPolicy {
    /// The heuristics that are on.
    pub closed spec fn on(self) -> Seq<Heuristic> {
        self.enabled@
    }

    /// The affordable moves, cheapest first.
    pub closed spec fn moves(self) -> Seq<Move> {
        self.admissible@
    }

    /// Everything on, every move affordable.
    pub fn new() -> (p: SearchPolicy)
        ensures
            forall|h: Heuristic| p.on().contains(h),
            p.moves() == seq![Move::PushOut, Move::Defer, Move::TightenProxy],
    {
        let hs = Heuristic::all();
        let ms = Move::ladder();
        let p = SearchPolicy {
            enabled: vstd::slice::slice_to_vec(&hs),
            admissible: vstd::slice::slice_to_vec(&ms),
        };
        proof {
            assert forall|h: Heuristic| p.on().contains(h) by {
                match h {
                    Heuristic::MostConstrainedFirst => assert(p.on()[0] == h),
                    Heuristic::CachePlacementSearch => assert(p.on()[1] == h),
                    Heuristic::DecayingAttemptBudget => assert(p.on()[2] == h),
                    Heuristic::Repulsion => assert(p.on()[3] == h),
                    Heuristic::PushItOut => assert(p.on()[4] == h),
                }
            }
        }
        p
    }

    /// Turn a heuristic off.
    pub fn without(self, h: Heuristic) -> (p: SearchPolicy)
        ensures
            p.on() == removed(self.on(), h),
            forall|x: Heuristic| p.on().contains(x) <==> (self.on().contains(x) && x != h),
            p.moves() == self.moves(),
    {
        let mut kept: Vec<Heuristic> = Vec::new();
        let mut i: usize = 0;
        while i < self.enabled.len()
            invariant
                i <= self.enabled@.len(),
                kept@ == removed(self.enabled@.take(i as int), h),
            decreases self.enabled@.len() - i,
        {
            proof {
                assert(self.enabled@.take(i + 1).drop_last() =~= self.enabled@.take(i as int));
            }
            if self.enabled[i] != h {
                kept.push(self.enabled[i]);
            }
            i += 1;
        }
        assert(self.enabled@.take(self.enabled@.len() as int) =~= self.enabled@);
        proof {
            lemma_removed_contains(self.enabled@, h);
        }
        SearchPolicy { enabled: kept, admissible: self.admissible }
    }

    /// Is it on?
    pub fn enabled(&self, h: Heuristic) -> (b: bool)
        ensures
            b == self.on().contains(h),
    {
        let mut i: usize = 0;
        while i < self.enabled.len()
            invariant
                i <= self.enabled@.len(),
                forall|j: int| 0 <= j < i ==> self.enabled@[j] != h,
            decreases self.enabled@.len() - i,
        {
            if self.enabled[i] == h {
                proof {
                    assert(self.enabled@[i as int] == h);
                }
                return true;
            }
            i += 1;
        }
        false
    }

    /// Restrict which moves are affordable; they are kept cheapest first.
    pub fn affording(self, moves: &[Move]) -> (p: SearchPolicy)
        ensures
            p.moves() == by_cost(moves@),
            p.on() == self.on(),
    {
        let mut out: Vec<Move> = Vec::new();
        copies_of(moves, Move::PushOut, &mut out);
        copies_of(moves, Move::Defer, &mut out);
        copies_of(moves, Move::TightenProxy, &mut out);
        assert(out@ =~= by_cost(moves@));
        SearchPolicy { enabled: self.enabled, admissible: out }
    }

    /// The move to make for an answer: the cheapest affordable one for an ambiguous answer,
    /// with `PushOut` left out when push-it-out is off; nothing for a decided answer.
    pub fn resolve(&self, answer: Trivalent) -> (m: Option<Move>)
        ensures
            answer != Trivalent::Ambiguous ==> m is None,
            answer == Trivalent::Ambiguous ==> m == cheapest(
                self.moves(),
                !self.on().contains(Heuristic::PushItOut),
            ),
    {
        if answer != Trivalent::Ambiguous {
            return None;
        }
        let no_push = !self.enabled(Heuristic::PushItOut);
        let mut has_push = false;
        let mut has_defer = false;
        let mut has_tighten = false;
        let mut i: usize = 0;
        while i < self.admissible.len()
            invariant
                i <= self.admissible@.len(),
                has_push == self.admissible@.take(i as int).contains(Move::PushOut),
                has_defer == self.admissible@.take(i as int).contains(Move::Defer),
                has_tighten == self.admissible@.take(i as int).contains(Move::TightenProxy),
            decreases self.admissible@.len() - i,
        {
            let m = self.admissible[i];
            proof {
                let t = self.admissible@.take(i as int);
                let t1 = self.admissible@.take(i + 1);
                assert(t1 =~= t.push(m));
                assert forall|x: Move| t1.contains(x) <==> (t.contains(x) || x == m) by {
                    if t.contains(x) {
                        let k = choose|k: int| 0 <= k < t.len() && t[k] == x;
                        assert(t1[k] == x);
                    }
                    if x == m {
                        assert(t1[i as int] == x);
                    }
                    if t1.contains(x) {
                        let k = choose|k: int| 0 <= k < t1.len() && t1[k] == x;
                        if k < i {
                            assert(t[k] == x);
                        }
                    }
                }
            }
            match m {
                Move::PushOut => {
                    has_push = true;
                },
                Move::Defer => {
                    has_defer = true;
                },
                Move::TightenProxy => {
                    has_tighten = true;
                },
            }
            i += 1;
        }
        assert(self.admissible@.take(self.admissible@.len() as int) =~= self.admissible@);
        if !no_push && has_push {
            Some(Move::PushOut)
        } else if has_defer {
            Some(Move::Defer)
        } else if has_tighten {
            Some(Move::TightenProxy)
        } else {
            None
        }
    }
}

impl Default for SearchPolicy {
    fn default() -> (p: SearchPolicy)
        ensures
            forall|h: Heuristic| p.on().contains(h),
            p.moves() == seq![Move::PushOut, Move::Defer, Move::TightenProxy],
    {
        SearchPolicy::new()
    }
}

/// Affording any nonempty set of moves leaves an ambiguous answer somewhere to go, even with
/// push-it-out turned off, unless push-it-out was the only move afforded.
pub proof fn law_an_affordable_move_is_always_found(moves: Seq<Move>, no_push: bool)
    requires
        exists|i: int| 0 <= i < moves.len() && (moves[i] != Move::PushOut || !no_push),
    ensures
        cheapest(moves, no_push) is Some,
{
    let i = choose|i: int| 0 <= i < moves.len() && (moves[i] != Move::PushOut || !no_push);
    assert(moves.contains(moves[i]));
}

/// **Turning a heuristic off twice is turning it off once.**
pub proof fn law_removing_twice_is_removing_once(s: Seq<Heuristic>, h: Heuristic)
    ensures
        removed(removed(s, h), h) == removed(s, h),
    decreases s.len(),
{
    if s.len() > 0 {
        law_removing_twice_is_removing_once(s.drop_last(), h);
        if s.last() != h {
            let r = removed(s.drop_last(), h);
            assert(r.push(s.last()).drop_last() =~= r);
            assert(r.push(s.last()).last() == s.last());
        }
    }
}

} // verus!
