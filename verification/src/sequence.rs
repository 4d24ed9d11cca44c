//! The schedule-rule consumer: where a declared [`ScheduleRule`] decides whether an item may go
//! into the world yet, and where a permanent hold is told apart from a temporary one.
//!
//! `PlacedAfter` holds an item until its target is in and the sphere gap is met, `ExclusiveWith`
//! removes an item once the other is in, `Supersedes` retires the base once its successor is in,
//! and `SpherePin` excludes an item outside its sphere range. Permanent reasons are checked first.

use crate::mission::strictly_sorted;
use crate::object::ObjectId;
use crate::placement::ScheduleRule;
use crate::spine::Strictness;
use crate::text::{decimal, decimal_text};
use vstd::prelude::*;

verus! {

broadcast use ObjectId::lemma_raw_determines;

/// Why an item is not placeable right now.
#[derive(Clone, Copy, Debug, PartialEq, Eq)]
pub enum Held {
    /// Its `PlacedAfter` target has not been placed.
    AwaitingTarget { target: ObjectId },
    /// Its target is placed, but not far enough back in the progression.
    GapNotMet { target: ObjectId, gap: (u32, u32) },
    /// Something it is exclusive with is already in the world.
    ExcludedBy { other: ObjectId },
    /// Its successor is already placed, so it is retired.
    Superseded { by: ObjectId },
    /// The current sphere is outside its pin.
    OutsideSpherePin { min: u32, max: u32, sphere: u32 },
}

impl Held {
    /// Can this item never become placeable again in this world?
    pub fn is_permanent(&self) -> (b: bool)
        ensures
            b == (*self is Superseded || *self is ExcludedBy),
    {
        match self {
            Held::Superseded { .. } | Held::ExcludedBy { .. } => true,
            _ => false,
        }
    }

    /// Why, in words.
    pub fn to_string(&self) -> (s: String)
        ensures
            s@ == held_text(*self),
    {
        proof {
            reveal_strlit("its PlacedAfter target is not placed yet");
            reveal_strlit("something it is ExclusiveWith is already placed");
            reveal_strlit("its successor is placed, so the base is retired");
            reveal_strlit("its target is placed, but the sphere gap ");
            reveal_strlit("sphere ");
        }
        match self {
            Held::AwaitingTarget { .. } => String::from_str(
                "its PlacedAfter target is not placed yet",
            ),
            Held::GapNotMet { gap, .. } => {
                let mut s = String::from_str("its target is placed, but the sphere gap ");
                let a = decimal_text(gap.0 as u64);
                let b = decimal_text(gap.1 as u64);
                s.append(a.as_str());
                s.append("..");
                s.append(b.as_str());
                s.append(" is not met");
                s
            },
            Held::ExcludedBy { .. } => String::from_str(
                "something it is ExclusiveWith is already placed",
            ),
            Held::Superseded { .. } => String::from_str(
                "its successor is placed, so the base is retired",
            ),
            Held::OutsideSpherePin { min, max, sphere } => {
                let mut s = String::from_str("sphere ");
                let a = decimal_text(*sphere as u64);
                let b = decimal_text(*min as u64);
                let c = decimal_text(*max as u64);
                s.append(a.as_str());
                s.append(" is outside its pin of ");
                s.append(b.as_str());
                s.append("..");
                s.append(c.as_str());
                s
            },
        }
    }
}

/// How a hold reads.
pub open spec fn held_text(h: Held) -> Seq<char> {
    match h {
        Held::AwaitingTarget { .. } => "its PlacedAfter target is not placed yet"@,
        Held::GapNotMet { gap, .. } => "its target is placed, but the sphere gap "@ + decimal(gap.0 as nat) + ".."@
            + decimal(gap.1 as nat) + " is not met"@,
        Held::ExcludedBy { .. } => "something it is ExclusiveWith is already placed"@,
        Held::Superseded { .. } => "its successor is placed, so the base is retired"@,
        Held::OutsideSpherePin { min, max, sphere } => "sphere "@ + decimal(sphere as nat) + " is outside its pin of "@
            + decimal(min as nat) + ".."@ + decimal(max as nat),
    }
}

// ---------------------------------------------------------------------------------------------
// A table keyed by object id
// ---------------------------------------------------------------------------------------------

/// The value the last entry for `id` carries, if any.
pub open spec fn lookup<V>(s: Seq<(ObjectId, V)>, id: ObjectId) -> Option<V>
    decreases s.len(),
{
    if s.len() == 0 {
        None
    } else if s.last().0 == id {
        Some(s.last().1)
    } else {
        lookup(s.drop_last(), id)
    }
}

/// No id occurs twice.
pub open spec fn distinct_keys<V>(s: Seq<(ObjectId, V)>) -> bool {
    forall|i: int, j: int| #![trigger s[i], s[j]] 0 <= i < j < s.len() ==> s[i].0 != s[j].0
}

proof fn lemma_lookup_at<V>(s: Seq<(ObjectId, V)>, i: int)
    requires
        distinct_keys(s),
        0 <= i < s.len(),
    ensures
        lookup(s, s[i].0) == Some(s[i].1),
    decreases s.len(),
{
    if i < s.len() - 1 {
        assert(s.last().0 != s[i].0);
        lemma_lookup_at(s.drop_last(), i);
    }
}

proof fn lemma_lookup_absent<V>(s: Seq<(ObjectId, V)>, id: ObjectId)
    requires
        forall|i: int| 0 <= i < s.len() ==> s[i].0 != id,
    ensures
        lookup(s, id) is None,
    decreases s.len(),
{
    if s.len() > 0 {
        lemma_lookup_absent(s.drop_last(), id);
    }
}

proof fn lemma_lookup_some<V>(s: Seq<(ObjectId, V)>, id: ObjectId)
    requires
        distinct_keys(s),
        lookup(s, id) is Some,
    ensures
        exists|i: int| 0 <= i < s.len() && s[i].0 == id && lookup(s, id) == Some(s[i].1),
{
    if forall|i: int| 0 <= i < s.len() ==> s[i].0 != id {
        lemma_lookup_absent(s, id);
    }
    let i = choose|i: int| 0 <= i < s.len() && s[i].0 == id;
    lemma_lookup_at(s, i);
}

/// Find the index of `id`, if present.
fn position<V: Copy>(v: &Vec<(ObjectId, V)>, id: ObjectId) -> (r: Option<usize>)
    requires
        distinct_keys(v@),
    ensures
        match r {
            Some(i) => i < v@.len() && v@[i as int].0 == id && lookup(v@, id) == Some(v@[i as int].1),
            None => lookup(v@, id) is None,
        },
{
    let mut i: usize = 0;
    while i < v.len()
        invariant
            i <= v@.len(),
            distinct_keys(v@),
            forall|j: int| 0 <= j < i ==> v@[j].0 != id,
        decreases v@.len() - i,
    {
        if v[i].0.same(id) {
            proof {
                lemma_lookup_at(v@, i as int);
            }
            return Some(i);
        }
        i += 1;
    }
    proof {
        lemma_lookup_absent(v@, id);
    }
    None
}

/// Set `id` to `value`, replacing any entry it had.
fn put<V: Copy>(v: &mut Vec<(ObjectId, V)>, id: ObjectId, value: V)
    requires
        distinct_keys(old(v)@),
    ensures
        distinct_keys(final(v)@),
        lookup(final(v)@, id) == Some(value),
        forall|o: ObjectId| o != id ==> lookup(final(v)@, o) == lookup(old(v)@, o),
        final(v)@.len() == old(v)@.len() + if lookup(old(v)@, id) is None {
            1int
        } else {
            0int
        },
{
    match position(v, id) {
        Some(i) => {
            v.set(i, (id, value));
            proof {
                assert(v@[i as int].0 == old(v)@[i as int].0);
                assert forall|a: int, b: int| #![trigger v@[a], v@[b]] 0 <= a < b < v@.len() implies v@[a].0 != v@[b].0 by {
                    assert(v@[a].0 == old(v)@[a].0);
                    assert(v@[b].0 == old(v)@[b].0);
                }
                lemma_lookup_at(v@, i as int);
                assert forall|o: ObjectId| o != id implies lookup(v@, o) == lookup(old(v)@, o) by {
                    if lookup(old(v)@, o) is Some {
                        lemma_lookup_some(old(v)@, o);
                        let k = choose|k: int|
                            0 <= k < old(v)@.len() && old(v)@[k].0 == o && lookup(old(v)@, o)
                                == Some(old(v)@[k].1);
                        assert(v@[k] == old(v)@[k]);
                        lemma_lookup_at(v@, k);
                    } else {
                        assert forall|k: int| 0 <= k < v@.len() implies v@[k].0 != o by {
                            if k != i {
                                assert(v@[k] == old(v)@[k]);
                                if old(v)@[k].0 == o {
                                    lemma_lookup_at(old(v)@, k);
                                }
                            }
                        }
                        lemma_lookup_absent(v@, o);
                    }
                }
            }
        },
        None => {
            proof {
                assert forall|k: int| 0 <= k < old(v)@.len() implies old(v)@[k].0 != id by {
                    if old(v)@[k].0 == id {
                        lemma_lookup_at(old(v)@, k);
                    }
                }
            }
            v.push((id, value));
            proof {
                assert(v@.drop_last() =~= old(v)@);
            }
        },
    }
}

// ---------------------------------------------------------------------------------------------
// Placed
// ---------------------------------------------------------------------------------------------

/// What has gone into the world so far, and at which sphere, per item.
#[derive(Clone, Debug, PartialEq, Eq)]
pub struct Placed {
    at: Vec<(ObjectId, u32)>,
}

impl Placed {
    /// The sphere `item` went in at, if it is in.
    pub closed spec fn sphere(self, item: ObjectId) -> Option<u32> {
        lookup(self.at@, item)
    }

    /// How many items are in.
    pub closed spec fn count(self) -> nat {
        self.at@.len()
    }

    /// The internal table never repeats an item.
    pub closed spec fn wf(self) -> bool {
        distinct_keys(self.at@)
    }

    /// Nothing placed.
    pub fn new() -> (p: Placed)
        ensures
            p.wf(),
            p.count() == 0,
            forall|i: ObjectId| p.sphere(i) is None,
    {
        Placed { at: Vec::new() }
    }

    /// Record a placement; recording an item again moves it to the new sphere.
    pub fn record(&mut self, item: ObjectId, sphere: u32)
        requires
            old(self).wf(),
        ensures
            final(self).wf(),
            final(self).sphere(item) == Some(sphere),
            forall|o: ObjectId| o != item ==> final(self).sphere(o) == old(self).sphere(o),
            final(self).count() == old(self).count() + if old(self).sphere(item) is None {
                1int
            } else {
                0int
            },
    {
        put(&mut self.at, item, sphere);
    }

    /// Which sphere something went in at.
    pub fn sphere_of(&self, item: ObjectId) -> (s: Option<u32>)
        requires
            self.wf(),
        ensures
            s == self.sphere(item),
    {
        match position(&self.at, item) {
            Some(i) => Some(self.at[i].1),
            None => None,
        }
    }

    /// Is it in the world?
    pub fn contains(&self, item: ObjectId) -> (b: bool)
        requires
            self.wf(),
        ensures
            b == self.sphere(item) is Some,
    {
        position(&self.at, item).is_some()
    }

    /// How many.
    pub fn len(&self) -> (n: usize)
        ensures
            n == self.count(),
    {
        self.at.len()
    }

    /// Nothing yet.
    pub fn is_empty(&self) -> (b: bool)
        ensures
            b == (self.count() == 0),
    {
        self.at.len() == 0
    }
}

impl Default for Placed {
    fn default() -> (p: Placed)
        ensures
            p.wf(),
            p.count() == 0,
    {
        Placed::new()
    }
}

// ---------------------------------------------------------------------------------------------
// Holds
// ---------------------------------------------------------------------------------------------

/// The first `ExclusiveWith` rule from index `i` on whose other item is placed.
pub open spec fn first_exclusion(rules: Seq<ScheduleRule>, i: nat, placed: Placed) -> Option<Held>
    decreases rules.len() - i,
{
    if i >= rules.len() {
        None
    } else {
        match rules[i as int] {
            ScheduleRule::ExclusiveWith { other } => if placed.sphere(other) is Some {
                Some(Held::ExcludedBy { other })
            } else {
                first_exclusion(rules, i + 1, placed)
            },
            _ => first_exclusion(rules, i + 1, placed),
        }
    }
}

/// How many spheres after `at` the sphere `now` is; negative when `now` comes first.
pub open spec fn sphere_gap(now: u32, at: u32) -> int {
    now - at
}

/// The first `PlacedAfter` or `SpherePin` rule from index `i` on that holds the item back.
pub open spec fn first_wait(rules: Seq<ScheduleRule>, i: nat, placed: Placed, sphere: u32) -> Option<
    Held,
>
    decreases rules.len() - i,
{
    if i >= rules.len() {
        None
    } else {
        match rules[i as int] {
            ScheduleRule::PlacedAfter { target, gap } => match placed.sphere(target) {
                None => Some(Held::AwaitingTarget { target }),
                Some(at) => if sphere_gap(sphere, at) < gap.0 || sphere_gap(sphere, at) > gap.1 {
                    Some(Held::GapNotMet { target, gap })
                } else {
                    first_wait(rules, i + 1, placed, sphere)
                },
            },
            ScheduleRule::SpherePin { min, max } => if sphere < min || sphere > max {
                Some(Held::OutsideSpherePin { min, max, sphere })
            } else {
                first_wait(rules, i + 1, placed, sphere)
            },
            _ => first_wait(rules, i + 1, placed, sphere),
        }
    }
}

/// Why an item with a known successor cannot go in at `sphere`, if it cannot: retirement first,
/// then exclusion, then the first waiting rule in the order the rules were written.
pub open spec fn hold_of(
    successor: Option<ObjectId>,
    rules: Seq<ScheduleRule>,
    placed: Placed,
    sphere: u32,
) -> Option<Held> {
    match successor {
        Some(by) if placed.sphere(by) is Some => Some(Held::Superseded { by }),
        _ => match first_exclusion(rules, 0, placed) {
            Some(h) => Some(h),
            None => first_wait(rules, 0, placed, sphere),
        },
    }
}

/// Applies schedule rules to a pool.
#[derive(Clone, Debug)]
pub struct Sequencer {
    successors: Vec<(ObjectId, ObjectId)>,
}

impl Sequencer {
    /// The item known to supersede `base`, if any.
    pub closed spec fn successor(self, base: ObjectId) -> Option<ObjectId> {
        lookup(self.successors@, base)
    }

    /// The internal table never repeats a base.
    pub closed spec fn wf(self) -> bool {
        distinct_keys(self.successors@)
    }

    /// A sequencer that knows about no upgrades.
    pub fn new() -> (s: Sequencer)
        ensures
            s.wf(),
            forall|b: ObjectId| s.successor(b) is None,
    {
        Sequencer { successors: Vec::new() }
    }

    /// Learn the rules attached to one item: each `Supersedes { base }` records `item` as the
    /// successor of `base`.
    pub fn learn(&mut self, item: ObjectId, rules: &[ScheduleRule])
        requires
            old(self).wf(),
        ensures
            final(self).wf(),
            forall|b: ObjectId| #[trigger] final(self).successor(b) == if supersedes_in(rules@, b) {
                Some(item)
            } else {
                old(self).successor(b)
            },
    {
        let mut i: usize = 0;
        while i < rules.len()
            invariant
                i <= rules@.len(),
                self.wf(),
                forall|b: ObjectId| #[trigger] self.successor(b) == if supersedes_in(
                    rules@.take(i as int),
                    b,
                ) {
                    Some(item)
                } else {
                    old(self).successor(b)
                },
            decreases rules@.len() - i,
        {
            let r = rules[i];
            let ghost prev = self.successors@;
            let ghost before = *self;
            proof {
                assert(rules@.take(i + 1).drop_last() =~= rules@.take(i as int));
                assert(rules@.take(i + 1).last() == r);
            }
            if let ScheduleRule::Supersedes { base } = r {
                put(&mut self.successors, base, item);
            }
            proof {
                assert forall|b: ObjectId| #[trigger] self.successor(b) == if supersedes_in(
                    rules@.take(i + 1),
                    b,
                ) {
                    Some(item)
                } else {
                    old(self).successor(b)
                } by {
                    assert(supersedes_in(rules@.take(i + 1), b) == ((r == ScheduleRule::Supersedes {
                        base: b,
                    }) || supersedes_in(rules@.take(i as int), b)));
                    assert(before.successor(b) == lookup(prev, b));
                    assert(before.successor(b) == if supersedes_in(rules@.take(i as int), b) {
                        Some(item)
                    } else {
                        old(self).successor(b)
                    });
                }
            }
            i += 1;
        }
        assert(rules@.take(rules@.len() as int) =~= rules@);
    }

    /// Why this item cannot be placed at this sphere, if it cannot.
    pub fn holds(&self, item: ObjectId, rules: &[ScheduleRule], placed: &Placed, sphere: u32) -> (h:
        Option<Held>)
        requires
            self.wf(),
            placed.wf(),
        ensures
            h == hold_of(self.successor(item), rules@, *placed, sphere),
    {
        match position(&self.successors, item) {
            Some(k) => {
                let by = self.successors[k].1;
                if placed.contains(by) {
                    return Some(Held::Superseded { by });
                }
            },
            None => {},
        }
        match Self::exclusion(rules, placed) {
            Some(h) => Some(h),
            None => Self::wait(rules, placed, sphere),
        }
    }

    fn exclusion(rules: &[ScheduleRule], placed: &Placed) -> (h: Option<Held>)
        requires
            placed.wf(),
        ensures
            h == first_exclusion(rules@, 0, *placed),
    {
        let mut i = rules.len();
        let mut found: Option<Held> = None;
        while i > 0
            invariant
                i <= rules@.len(),
                placed.wf(),
                found == first_exclusion(rules@, i as nat, *placed),
            decreases i,
        {
            i -= 1;
            if let ScheduleRule::ExclusiveWith { other } = rules[i] {
                if placed.contains(other) {
                    found = Some(Held::ExcludedBy { other });
                }
            }
        }
        found
    }

    fn wait(rules: &[ScheduleRule], placed: &Placed, sphere: u32) -> (h: Option<Held>)
        requires
            placed.wf(),
        ensures
            h == first_wait(rules@, 0, *placed, sphere),
    {
        let mut i = rules.len();
        let mut found: Option<Held> = None;
        while i > 0
            invariant
                i <= rules@.len(),
                placed.wf(),
                found == first_wait(rules@, i as nat, *placed, sphere),
            decreases i,
        {
            i -= 1;
            match rules[i] {
                ScheduleRule::PlacedAfter { target, gap } => match placed.sphere_of(target) {
                    None => {
                        found = Some(Held::AwaitingTarget { target });
                    },
                    Some(at) => {
                        if sphere < at {
                            found = Some(Held::GapNotMet { target, gap });
                        } else {
                            let delta = sphere - at;
                            if delta < gap.0 || delta > gap.1 {
                                found = Some(Held::GapNotMet { target, gap });
                            }
                        }
                    },
                },
                ScheduleRule::SpherePin { min, max } => {
                    if sphere < min || sphere > max {
                        found = Some(Held::OutsideSpherePin { min, max, sphere });
                    }
                },
                _ => {},
            }
        }
        found
    }

    /// The items of a pool that can go in at this sphere, in pool order.
    pub fn placeable(
        &self,
        pool: &[(ObjectId, Vec<ScheduleRule>)],
        placed: &Placed,
        sphere: u32,
    ) -> (v: Vec<ObjectId>)
        requires
            self.wf(),
            placed.wf(),
            keys_ascending(pool@),
        ensures
            v@ == free_in(pool@, self.successors_spec(), *placed, sphere),
            strictly_sorted(v@),
    {
        let mut v: Vec<ObjectId> = Vec::new();
        let mut i: usize = 0;
        while i < pool.len()
            invariant
                i <= pool@.len(),
                self.wf(),
                placed.wf(),
                v@ == free_in(pool@.take(i as int), self.successors_spec(), *placed, sphere),
            decreases pool@.len() - i,
        {
            proof {
                assert(pool@.take(i + 1).drop_last() =~= pool@.take(i as int));
            }
            let (id, rules) = &pool[i];
            if self.holds(*id, rules.as_slice(), placed, sphere).is_none() {
                v.push(*id);
            }
            i += 1;
        }
        assert(pool@.take(pool@.len() as int) =~= pool@);
        proof {
            lemma_free_in_ascending(pool@, self.successors_spec(), *placed, sphere);
        }
        v
    }

    /// Items of a pool that will never be placeable in this world, and why, in pool order.
    pub fn retired(
        &self,
        pool: &[(ObjectId, Vec<ScheduleRule>)],
        placed: &Placed,
        sphere: u32,
    ) -> (v: Vec<(ObjectId, Held)>)
        requires
            self.wf(),
            placed.wf(),
            keys_ascending(pool@),
        ensures
            v@ == retired_in(pool@, self.successors_spec(), *placed, sphere),
            forall|a: int, b: int| 0 <= a < b < v@.len() ==> (#[trigger] v@[a]).0.raw() < (#[trigger] v@[b]).0.raw(),
    {
        let mut v: Vec<(ObjectId, Held)> = Vec::new();
        let mut i: usize = 0;
        while i < pool.len()
            invariant
                i <= pool@.len(),
                self.wf(),
                placed.wf(),
                v@ == retired_in(pool@.take(i as int), self.successors_spec(), *placed, sphere),
            decreases pool@.len() - i,
        {
            proof {
                assert(pool@.take(i + 1).drop_last() =~= pool@.take(i as int));
            }
            let (id, rules) = &pool[i];
            match self.holds(*id, rules.as_slice(), placed, sphere) {
                Some(h) => {
                    if h.is_permanent() {
                        v.push((*id, h));
                    }
                },
                None => {},
            }
            i += 1;
        }
        assert(pool@.take(pool@.len() as int) =~= pool@);
        proof {
            lemma_retired_in_ascending(pool@, self.successors_spec(), *placed, sphere);
        }
        v
    }

    /// The successor table as a function from base to successor.
    pub closed spec fn successors_spec(self) -> spec_fn(ObjectId) -> Option<ObjectId> {
        |b: ObjectId| lookup(self.successors@, b)
    }
}

impl Default for Sequencer {
    fn default() -> (s: Sequencer)
        ensures
            s.wf(),
    {
        Sequencer::new()
    }
}

/// Does some `Supersedes` rule in `rules` name `base`?
pub open spec fn supersedes_in(rules: Seq<ScheduleRule>, base: ObjectId) -> bool
    decreases rules.len(),
{
    if rules.len() == 0 {
        false
    } else {
        (rules.last() == ScheduleRule::Supersedes { base }) || supersedes_in(rules.drop_last(), base)
    }
}

/// The items of `pool` that nothing holds back, in order.
pub open spec fn free_in(
    pool: Seq<(ObjectId, Vec<ScheduleRule>)>,
    successors: spec_fn(ObjectId) -> Option<ObjectId>,
    placed: Placed,
    sphere: u32,
) -> Seq<ObjectId>
    decreases pool.len(),
{
    if pool.len() == 0 {
        Seq::empty()
    } else {
        let (id, rules) = pool.last();
        let rest = free_in(pool.drop_last(), successors, placed, sphere);
        if hold_of(successors(id), rules@, placed, sphere) is None {
            rest.push(id)
        } else {
            rest
        }
    }
}

/// The items of `pool` held back permanently, with their holds, in order.
pub open spec fn retired_in(
    pool: Seq<(ObjectId, Vec<ScheduleRule>)>,
    successors: spec_fn(ObjectId) -> Option<ObjectId>,
    placed: Placed,
    sphere: u32,
) -> Seq<(ObjectId, Held)>
    decreases pool.len(),
{
    if pool.len() == 0 {
        Seq::empty()
    } else {
        let (id, rules) = pool.last();
        let rest = retired_in(pool.drop_last(), successors, placed, sphere);
        match hold_of(successors(id), rules@, placed, sphere) {
            Some(h) => if h is Superseded || h is ExcludedBy {
                rest.push((id, h))
            } else {
                rest
            },
            None => rest,
        }
    }
}

/// **A retired base stays retired.** Once its successor is in the world, the base is held back
/// as superseded whatever its own rules say, at every sphere, and that hold is permanent.
pub proof fn law_superseded_is_reported_first(
    by: ObjectId,
    rules: Seq<ScheduleRule>,
    placed: Placed,
    sphere: u32,
)
    requires
        placed.sphere(by) is Some,
    ensures
        hold_of(Some(by), rules, placed, sphere) == Some(Held::Superseded { by }),
{
}

/// **A gap is a window, not a floor.** An item placed after a target at sphere `at` is held
/// back exactly when the distance from `at` falls outside the gap.
pub proof fn law_placed_after_is_a_window(
    target: ObjectId,
    gap: (u32, u32),
    placed: Placed,
    sphere: u32,
)
    requires
        placed.sphere(target) is Some,
        first_exclusion(seq![ScheduleRule::PlacedAfter { target, gap }], 0, placed) is None,
    ensures
        ({
            let at = placed.sphere(target).unwrap();
            let d = sphere_gap(sphere, at);
            hold_of(None, seq![ScheduleRule::PlacedAfter { target, gap }], placed, sphere) is None
                <==> (gap.0 <= d && d <= gap.1)
        }),
{
    let rules = seq![ScheduleRule::PlacedAfter { target, gap }];
    assert(first_wait(rules, 1, placed, sphere) is None);
}

/// Is `by` a successor that is already in the world?
pub open spec fn successor_placed(successor: Option<ObjectId>, placed: Placed) -> bool {
    match successor {
        Some(by) => placed.sphere(by) is Some,
        None => false,
    }
}

/// Rule `i` is the first `ExclusiveWith` whose other item is placed.
pub open spec fn first_placed_partner(rules: Seq<ScheduleRule>, placed: Placed, i: int, other: ObjectId) -> bool {
    &&& 0 <= i < rules.len()
    &&& rules[i] == ScheduleRule::ExclusiveWith { other }
    &&& placed.sphere(other) is Some
    &&& forall|j: int| 0 <= j < i ==> !(#[trigger] rules[j] matches ScheduleRule::ExclusiveWith { other: o }
        && placed.sphere(o) is Some)
}

proof fn lemma_exclusion_found(rules: Seq<ScheduleRule>, placed: Placed, from: int, i: int, other: ObjectId)
    requires
        0 <= from <= i,
        first_placed_partner(rules, placed, i, other),
    ensures
        first_exclusion(rules, from as nat, placed) == Some(Held::ExcludedBy { other }),
    decreases i - from,
{
    if from < i {
        assert(!(rules[from] matches ScheduleRule::ExclusiveWith { other: o } && placed.sphere(o) is Some));
        lemma_exclusion_found(rules, placed, from + 1, i, other);
    }
}

/// **A permanent reason outranks a temporary one.** When no successor of the item is in the
/// world and one of its exclusive partners is, the item is excluded by the first such partner,
/// whatever `PlacedAfter` or `SpherePin` rules it also has and wherever they stand: it can never
/// be placed, so it is never merely waiting.
pub proof fn law_a_placed_partner_excludes_before_any_wait(
    successor: Option<ObjectId>,
    rules: Seq<ScheduleRule>,
    placed: Placed,
    sphere: u32,
    i: int,
    other: ObjectId,
)
    requires
        !successor_placed(successor, placed),
        first_placed_partner(rules, placed, i, other),
    ensures
        hold_of(successor, rules, placed, sphere) == Some(Held::ExcludedBy { other }),
{
    lemma_exclusion_found(rules, placed, 0, i, other);
}

/// **An item with a placed exclusive partner is retired.** In every pool, each item whose
/// successor is not placed and one of whose exclusive partners is placed is listed among the
/// retired items, excluded by its first placed partner.
pub proof fn law_an_excluded_item_is_retired(
    pool: Seq<(ObjectId, Vec<ScheduleRule>)>,
    successors: spec_fn(ObjectId) -> Option<ObjectId>,
    placed: Placed,
    sphere: u32,
    k: int,
    i: int,
    other: ObjectId,
)
    requires
        0 <= k < pool.len(),
        !successor_placed(successors(pool[k].0), placed),
        first_placed_partner(pool[k].1@, placed, i, other),
    ensures
        retired_in(pool, successors, placed, sphere).contains((pool[k].0, Held::ExcludedBy { other })),
    decreases pool.len(),
{
    let last = pool.len() - 1;
    let rest = retired_in(pool.drop_last(), successors, placed, sphere);
    if k == last {
        law_a_placed_partner_excludes_before_any_wait(successors(pool[k].0), pool[k].1@, placed, sphere, i, other);
        let r = retired_in(pool, successors, placed, sphere);
        assert(r == rest.push((pool[k].0, Held::ExcludedBy { other })));
        assert(r[rest.len() as int] == (pool[k].0, Held::ExcludedBy { other }));
    } else {
        assert(pool.drop_last()[k] == pool[k]);
        law_an_excluded_item_is_retired(pool.drop_last(), successors, placed, sphere, k, i, other);
        let w = choose|w: int| 0 <= w < rest.len() && rest[w] == (pool[k].0, Held::ExcludedBy { other });
        let r = retired_in(pool, successors, placed, sphere);
        assert(r == rest || r =~= rest.push(r.last()));
        assert(r[w] == rest[w]);
    }
}

/// The ids of a pool are in strictly increasing order, as the keys of a sorted map are.
pub open spec fn keys_ascending(pool: Seq<(ObjectId, Vec<ScheduleRule>)>) -> bool {
    forall|i: int, j: int| 0 <= i < j < pool.len() ==> (#[trigger] pool[i]).0.raw() < (#[trigger] pool[j]).0.raw()
}

/// Does the pool entry for `id` pass, and with which hold?
proof fn lemma_pool_membership(
    pool: Seq<(ObjectId, Vec<ScheduleRule>)>,
    successors: spec_fn(ObjectId) -> Option<ObjectId>,
    placed: Placed,
    sphere: u32,
)
    ensures
        forall|x: ObjectId| #[trigger] free_in(pool, successors, placed, sphere).contains(x) <==> exists|i: int|
            0 <= i < pool.len() && (#[trigger] pool[i]).0 == x && hold_of(successors(x), pool[i].1@, placed, sphere) is None,
        forall|x: ObjectId, h: Held| #[trigger] retired_in(pool, successors, placed, sphere).contains((x, h)) <==> exists|i: int|
            0 <= i < pool.len() && (#[trigger] pool[i]).0 == x && hold_of(successors(x), pool[i].1@, placed, sphere) == Some(h)
                && (h is Superseded || h is ExcludedBy),
        forall|k: int| 0 <= k < free_in(pool, successors, placed, sphere).len() ==> exists|i: int|
            0 <= i < pool.len() && (#[trigger] pool[i]).0 == #[trigger] free_in(pool, successors, placed, sphere)[k],
    decreases pool.len(),
{
    if pool.len() > 0 {
        let d = pool.drop_last();
        lemma_pool_membership(d, successors, placed, sphere);
        let f = free_in(pool, successors, placed, sphere);
        let fd = free_in(d, successors, placed, sphere);
        let r = retired_in(pool, successors, placed, sphere);
        let rd = retired_in(d, successors, placed, sphere);
        let last = pool.last();
        assert(pool[pool.len() - 1] == last);
        assert forall|x: ObjectId| #[trigger] f.contains(x) <==> exists|i: int|
            0 <= i < pool.len() && (#[trigger] pool[i]).0 == x && hold_of(successors(x), pool[i].1@, placed, sphere) is None by {
            if f.contains(x) {
                if fd.contains(x) {
                    let i = choose|i: int| 0 <= i < d.len() && (#[trigger] d[i]).0 == x && hold_of(successors(x), d[i].1@, placed, sphere) is None;
                    assert(pool[i] == d[i]);
                } else {
                    let w = choose|w: int| 0 <= w < f.len() && f[w] == x;
                    assert(w == fd.len());
                }
            }
            if exists|i: int| 0 <= i < pool.len() && (#[trigger] pool[i]).0 == x && hold_of(successors(x), pool[i].1@, placed, sphere) is None {
                let i = choose|i: int| 0 <= i < pool.len() && (#[trigger] pool[i]).0 == x && hold_of(successors(x), pool[i].1@, placed, sphere) is None;
                if i < d.len() {
                    assert(d[i] == pool[i]);
                    assert(fd.contains(x));
                    let w = choose|w: int| 0 <= w < fd.len() && fd[w] == x;
                    assert(f[w] == x);
                } else {
                    assert(f[fd.len() as int] == x);
                }
            }
        }
        assert forall|x: ObjectId, h: Held| #[trigger] r.contains((x, h)) <==> exists|i: int|
            0 <= i < pool.len() && (#[trigger] pool[i]).0 == x && hold_of(successors(x), pool[i].1@, placed, sphere) == Some(h)
                && (h is Superseded || h is ExcludedBy) by {
            if r.contains((x, h)) {
                if rd.contains((x, h)) {
                    let i = choose|i: int| 0 <= i < d.len() && (#[trigger] d[i]).0 == x && hold_of(successors(x), d[i].1@, placed, sphere) == Some(h)
                        && (h is Superseded || h is ExcludedBy);
                    assert(pool[i] == d[i]);
                } else {
                    let w = choose|w: int| 0 <= w < r.len() && r[w] == (x, h);
                    assert(w == rd.len());
                }
            }
            if exists|i: int| 0 <= i < pool.len() && (#[trigger] pool[i]).0 == x && hold_of(successors(x), pool[i].1@, placed, sphere) == Some(h)
                && (h is Superseded || h is ExcludedBy) {
                let i = choose|i: int| 0 <= i < pool.len() && (#[trigger] pool[i]).0 == x && hold_of(successors(x), pool[i].1@, placed, sphere) == Some(h)
                    && (h is Superseded || h is ExcludedBy);
                if i < d.len() {
                    assert(d[i] == pool[i]);
                    assert(rd.contains((x, h)));
                    let w = choose|w: int| 0 <= w < rd.len() && rd[w] == (x, h);
                    assert(r[w] == (x, h));
                } else {
                    assert(r[rd.len() as int] == (x, h));
                }
            }
        }
        assert forall|k: int| 0 <= k < f.len() implies exists|i: int| 0 <= i < pool.len() && (#[trigger] pool[i]).0 == #[trigger] f[k] by {
            if k < fd.len() {
                assert(f[k] == fd[k]);
                let i = choose|i: int| 0 <= i < d.len() && (#[trigger] d[i]).0 == #[trigger] fd[k];
                assert(pool[i] == d[i]);
            } else {
                assert(pool[pool.len() - 1].0 == f[k]);
            }
        }
    }
}

/// With the pool's ids ascending, what can go in is listed in ascending id order, each once.
proof fn lemma_free_in_ascending(
    pool: Seq<(ObjectId, Vec<ScheduleRule>)>,
    successors: spec_fn(ObjectId) -> Option<ObjectId>,
    placed: Placed,
    sphere: u32,
)
    requires
        keys_ascending(pool),
    ensures
        strictly_sorted(free_in(pool, successors, placed, sphere)),
        pool.len() > 0 ==> forall|k: int| 0 <= k < free_in(pool, successors, placed, sphere).len()
            ==> (#[trigger] free_in(pool, successors, placed, sphere)[k]).raw() <= pool.last().0.raw(),
    decreases pool.len(),
{
    if pool.len() > 0 {
        let d = pool.drop_last();
        assert(keys_ascending(d)) by {
            assert forall|i: int, j: int| 0 <= i < j < d.len() implies (#[trigger] d[i]).0.raw() < (#[trigger] d[j]).0.raw() by {
                assert(d[i] == pool[i] && d[j] == pool[j]);
            }
        }
        lemma_free_in_ascending(d, successors, placed, sphere);
        lemma_pool_membership(d, successors, placed, sphere);
        let fd = free_in(d, successors, placed, sphere);
        assert forall|k: int| 0 <= k < fd.len() implies (#[trigger] fd[k]).raw() < pool.last().0.raw() by {
            let i = choose|i: int| 0 <= i < d.len() && (#[trigger] d[i]).0 == #[trigger] fd[k];
            assert(pool[i] == d[i]);
            assert(pool[pool.len() - 1] == pool.last());
        }
    }
}

/// With the pool's ids ascending, the retired items are listed in ascending id order, each once.
proof fn lemma_retired_in_ascending(
    pool: Seq<(ObjectId, Vec<ScheduleRule>)>,
    successors: spec_fn(ObjectId) -> Option<ObjectId>,
    placed: Placed,
    sphere: u32,
)
    requires
        keys_ascending(pool),
    ensures
        forall|a: int, b: int| 0 <= a < b < retired_in(pool, successors, placed, sphere).len()
            ==> (#[trigger] retired_in(pool, successors, placed, sphere)[a]).0.raw() < (#[trigger] retired_in(pool, successors, placed, sphere)[b]).0.raw(),
    decreases pool.len(),
{
    if pool.len() > 0 {
        let d = pool.drop_last();
        assert(keys_ascending(d)) by {
            assert forall|i: int, j: int| 0 <= i < j < d.len() implies (#[trigger] d[i]).0.raw() < (#[trigger] d[j]).0.raw() by {
                assert(d[i] == pool[i] && d[j] == pool[j]);
            }
        }
        lemma_retired_in_ascending(d, successors, placed, sphere);
        lemma_pool_membership(d, successors, placed, sphere);
        let rd = retired_in(d, successors, placed, sphere);
        assert forall|k: int| 0 <= k < rd.len() implies (#[trigger] rd[k]).0.raw() < pool.last().0.raw() by {
            assert(rd.contains(rd[k]));
            let (x, h) = rd[k];
            assert(rd.contains((x, h)));
            let i = choose|i: int| 0 <= i < d.len() && (#[trigger] d[i]).0 == x && hold_of(successors(x), d[i].1@, placed, sphere) == Some(h)
                && (h is Superseded || h is ExcludedBy);
            assert(pool[i] == d[i]);
            assert(pool[pool.len() - 1] == pool.last());
        }
    }
}

/// **Nothing is both placeable and retired**: with each id in the pool once, an item that can go
/// in now is never one that is held back for good.
pub proof fn law_placeable_and_retired_are_disjoint(
    pool: Seq<(ObjectId, Vec<ScheduleRule>)>,
    successors: spec_fn(ObjectId) -> Option<ObjectId>,
    placed: Placed,
    sphere: u32,
    x: ObjectId,
    h: Held,
)
    requires
        keys_ascending(pool),
        free_in(pool, successors, placed, sphere).contains(x),
    ensures
        !retired_in(pool, successors, placed, sphere).contains((x, h)),
{
    lemma_pool_membership(pool, successors, placed, sphere);
    let i = choose|i: int| 0 <= i < pool.len() && (#[trigger] pool[i]).0 == x && hold_of(successors(x), pool[i].1@, placed, sphere) is None;
    if retired_in(pool, successors, placed, sphere).contains((x, h)) {
        let j = choose|j: int| 0 <= j < pool.len() && (#[trigger] pool[j]).0 == x && hold_of(successors(x), pool[j].1@, placed, sphere) == Some(h)
            && (h is Superseded || h is ExcludedBy);
        if i < j {
            assert(pool[i].0.raw() < pool[j].0.raw());
        } else if j < i {
            assert(pool[j].0.raw() < pool[i].0.raw());
        }
    }
}

/// The relaxations report: the preferences the solver dropped that a developer should see, each
/// as a row. A `Required` preference is never relaxed, so it never reaches the report; an
/// `Optional` one is dropped silently.
#[derive(Clone, Debug, PartialEq)]
pub struct Relaxations<T> {
    rows: Vec<T>,
}

impl<T> View for Relaxations<T> {
    type V = Seq<T>;

    /// The rows, in the order they were recorded.
    closed spec fn view(&self) -> Seq<T> {
        self.rows@
    }
}

impl<T> Default for Relaxations<T> {
    fn default() -> (r: Relaxations<T>)
        ensures
            r@ == Seq::<T>::empty(),
    {
        Relaxations { rows: Vec::new() }
    }
}

impl<T> Relaxations<T> {
    /// Nothing relaxed yet.
    pub fn new() -> (r: Relaxations<T>)
        ensures
            r@ == Seq::<T>::empty(),
    {
        Relaxations { rows: Vec::new() }
    }

    /// Record that a preference of this strictness could not be met, with `row` describing it.
    /// Answers whether the relaxation was legal: a `Required` preference may not be relaxed, and
    /// nothing is recorded for it. Only a `Preferred` one is recorded.
    pub fn honour(&mut self, strictness: Strictness, row: T) -> (legal: bool)
        ensures
            legal == (strictness != Strictness::Required),
            final(self)@ == if strictness == Strictness::Preferred {
                old(self)@.push(row)
            } else {
                old(self)@
            },
    {
        if !strictness.is_relaxable() {
            return false;
        }
        if strictness.relaxation_is_reportable() {
            self.rows.push(row);
        }
        true
    }

    /// Every relaxation a developer should see.
    pub fn rows(&self) -> (r: &[T])
        ensures
            r@ == self@,
    {
        self.rows.as_slice()
    }

    /// How many.
    pub fn len(&self) -> (n: usize)
        ensures
            n == self@.len(),
    {
        self.rows.len()
    }

    /// Nothing to report.
    pub fn is_empty(&self) -> (b: bool)
        ensures
            b == (self@.len() == 0),
    {
        self.rows.len() == 0
    }
}

} // verus!
