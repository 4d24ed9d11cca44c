//! What a spine costs and how its budget is spent: the fewest scopes an instance needs, and how
//! many connective scopes each gap between consecutive kept slots gets.
//!
//! The arithmetic is integer end to end, because it decides where the capstone physically lands:
//! float rounding that differed between targets would give two players differently shaped worlds
//! from one seed. Surplus beyond the guaranteed floor is spread in proportion to each segment's
//! declared headroom, and what the proportional shares leave over goes to the largest remainders,
//! ties to the earlier segment.

use crate::handle::Handle;
use crate::mission::Rule;
use crate::mission_graph::{edge_requested, joins, MissionEdge, MissionGraph, MissionView};
use crate::scope_graph::Node;
use crate::spine::Strictness;
use crate::text::{find_text, same_text, strs};
use vstd::prelude::*;

verus! {

/// The ceiling a free segment declares: as much as the instance can spare. Not `u32::MAX`, so that
/// headroom summed across segments stays comfortably inside a `u64`.
pub const UNBOUNDED: u32 = u32::MAX / 1024;

/// A segment's ends and length bounds, as the budget reads them.
#[derive(Clone, Debug, PartialEq, Eq)]
pub struct SegmentBounds {
    /// The slot it leaves.
    pub from: String,
    /// The slot it reaches.
    pub to: String,
    /// The length below which it reads sparse.
    pub soft_min: u32,
    /// The most scopes it may take.
    pub hard_max: u32,
}

/// A slot's name and strictness override, as the budget reads them.
#[derive(Clone, Debug, PartialEq, Eq)]
pub struct SlotBinding {
    /// The slot's name.
    pub name: String,
    /// Overrides the template's strictness for this slot.
    pub strictness: Option<Strictness>,
}

/// The smaller of two lengths.
pub open spec fn lesser(a: u32, b: u32) -> u32 {
    if a <= b {
        a
    } else {
        b
    }
}

impl SegmentBounds {
    /// The fewest scopes this segment can consume: its soft minimum, capped by its ceiling.
    pub fn min_length(&self) -> (m: u32)
        ensures
            m == lesser(self.soft_min, self.hard_max),
    {
        if self.soft_min <= self.hard_max {
            self.soft_min
        } else {
            self.hard_max
        }
    }

    /// Is this segment's length unconstrained?
    pub fn is_free(&self) -> (b: bool)
        ensures
            b == (self.hard_max >= UNBOUNDED),
    {
        self.hard_max >= UNBOUNDED
    }
}

/// The strictness in force for a slot, given the template default.
pub open spec fn effective(slot: Option<Strictness>, template: Strictness) -> Strictness {
    match slot {
        Some(s) => s,
        None => template,
    }
}

/// The strictness in force for a slot, given the template default.
pub fn effective_strictness(slot: Option<Strictness>, template: Strictness) -> (s: Strictness)
    ensures
        s == effective(slot, template),
{
    match slot {
        Some(s) => s,
        None => template,
    }
}

// ---------------------------------------------------------------------------------------------
// The required minimum
// ---------------------------------------------------------------------------------------------

/// How many of the first `k` slots are required once the template default is applied.
pub open spec fn required_slots(slots: Seq<SlotBinding>, template: Strictness, k: int) -> nat
    decreases k,
{
    if k <= 0 {
        0
    } else {
        required_slots(slots, template, k - 1) + if effective(slots[k - 1].strictness, template)
            == Strictness::Required {
            1nat
        } else {
            0nat
        }
    }
}

/// The first slot, from index `k` on, with this name.
pub open spec fn slot_from(slots: Seq<SlotBinding>, name: Seq<char>, k: int) -> Option<int>
    decreases slots.len() - k,
{
    if k < 0 || k >= slots.len() {
        None
    } else if slots[k].name@ == name {
        Some(k)
    } else {
        slot_from(slots, name, k + 1)
    }
}

/// Does the slot with this name exist and bind?
pub open spec fn named_required(slots: Seq<SlotBinding>, template: Strictness, name: Seq<char>) -> bool {
    match slot_from(slots, name, 0) {
        Some(i) => effective(slots[i].strictness, template) == Strictness::Required,
        None => false,
    }
}

/// The minimum lengths of the first `k` segments that run between two required slots.
pub open spec fn hard_segments(
    slots: Seq<SlotBinding>,
    template: Strictness,
    segs: Seq<SegmentBounds>,
    k: int,
) -> nat
    decreases k,
{
    if k <= 0 {
        0
    } else {
        hard_segments(slots, template, segs, k - 1) + if named_required(
            slots,
            template,
            segs[k - 1].from@,
        ) && named_required(slots, template, segs[k - 1].to@) {
            lesser(segs[k - 1].soft_min, segs[k - 1].hard_max) as nat
        } else {
            0nat
        }
    }
}

/// The fewest scopes an instance needs: every required slot, plus the minimum length of every
/// segment between two required slots.
pub open spec fn required_minimum_of(
    slots: Seq<SlotBinding>,
    template: Strictness,
    segs: Seq<SegmentBounds>,
) -> nat {
    required_slots(slots, template, slots.len() as int) + hard_segments(
        slots,
        template,
        segs,
        segs.len() as int,
    )
}

pub(crate) fn slot_index(slots: &[SlotBinding], name: &str) -> (r: Option<usize>)
    ensures
        match r {
            Some(i) => slot_from(slots@, name@, 0) == Some(i as int),
            None => slot_from(slots@, name@, 0) is None,
        },
{
    let mut i: usize = 0;
    while i < slots.len()
        invariant
            i <= slots@.len(),
            slot_from(slots@, name@, 0) == slot_from(slots@, name@, i as int),
        decreases slots@.len() - i,
    {
        if same_text(slots[i].name.as_str(), name) {
            return Some(i);
        }
        i += 1;
    }
    None
}

pub(crate) proof fn lemma_slot_from(slots: Seq<SlotBinding>, name: Seq<char>, k: int)
    requires
        0 <= k,
    ensures
        match slot_from(slots, name, k) {
            Some(i) => k <= i < slots.len() && slots[i].name@ == name,
            None => true,
        },
    decreases slots.len() - k,
{
    if k < slots.len() && slots[k].name@ != name {
        lemma_slot_from(slots, name, k + 1);
    }
}

fn is_named_required(slots: &[SlotBinding], template: Strictness, name: &str) -> (b: bool)
    ensures
        b == named_required(slots@, template, name@),
{
    let r = slot_index(slots, name);
    proof {
        lemma_slot_from(slots@, name@, 0);
    }
    match r {
        Some(i) => effective_strictness(slots[i].strictness, template) == Strictness::Required,
        None => false,
    }
}

proof fn lemma_required_slots_bounded(slots: Seq<SlotBinding>, template: Strictness, k: int)
    requires
        0 <= k <= slots.len(),
    ensures
        required_slots(slots, template, k) <= k,
    decreases k,
{
    if k > 0 {
        lemma_required_slots_bounded(slots, template, k - 1);
    }
}

proof fn lemma_required_slots_grow(slots: Seq<SlotBinding>, template: Strictness, j: int, k: int)
    requires
        0 <= j <= k <= slots.len(),
    ensures
        required_slots(slots, template, j) <= required_slots(slots, template, k),
    decreases k - j,
{
    if j < k {
        lemma_required_slots_grow(slots, template, j, k - 1);
    }
}

proof fn lemma_hard_segments_grow(
    slots: Seq<SlotBinding>,
    template: Strictness,
    segs: Seq<SegmentBounds>,
    j: int,
    k: int,
)
    requires
        0 <= j <= k <= segs.len(),
    ensures
        hard_segments(slots, template, segs, j) <= hard_segments(slots, template, segs, k),
    decreases k - j,
{
    if j < k {
        lemma_hard_segments_grow(slots, template, segs, j, k - 1);
    }
}

/// The fewest scopes an instance needs. A spine raises a floor on the scope budget rather than
/// competing with it.
pub fn required_minimum(slots: &[SlotBinding], template: Strictness, segments: &[SegmentBounds]) -> (m:
    u32)
    requires
        required_minimum_of(slots@, template, segments@) <= u32::MAX,
    ensures
        m == required_minimum_of(slots@, template, segments@),
{
    proof {
        lemma_required_slots_bounded(slots@, template, slots@.len() as int);
        lemma_hard_segments_grow(slots@, template, segments@, 0, segments@.len() as int);
    }
    let mut count: u32 = 0;
    let mut i: usize = 0;
    while i < slots.len()
        invariant
            i <= slots@.len(),
            count == required_slots(slots@, template, i as int),
            required_slots(slots@, template, slots@.len() as int) <= u32::MAX,
        decreases slots@.len() - i,
    {
        proof {
            lemma_required_slots_grow(slots@, template, i + 1, slots@.len() as int);
        }
        if effective_strictness(slots[i].strictness, template) == Strictness::Required {
            count += 1;
        }
        i += 1;
    }
    let mut total: u32 = 0;
    let mut k: usize = 0;
    while k < segments.len()
        invariant
            k <= segments@.len(),
            count == required_slots(slots@, template, slots@.len() as int),
            total == hard_segments(slots@, template, segments@, k as int),
            required_minimum_of(slots@, template, segments@) <= u32::MAX,
        decreases segments@.len() - k,
    {
        let s = &segments[k];
        if is_named_required(slots, template, s.from.as_str()) && is_named_required(
            slots,
            template,
            s.to.as_str(),
        ) {
            proof {
                lemma_hard_segments_grow(slots@, template, segments@, k + 1, segments@.len() as int);
            }
            total += s.min_length();
        }
        k += 1;
    }
    count + total
}

// ---------------------------------------------------------------------------------------------
// Segment lengths
// ---------------------------------------------------------------------------------------------

/// The first segment, from index `k` on, that runs from `a` to `b`.
pub open spec fn segment_from(segs: Seq<SegmentBounds>, a: Seq<char>, b: Seq<char>, k: int) -> Option<
    int,
>
    decreases segs.len() - k,
{
    if k < 0 || k >= segs.len() {
        None
    } else if segs[k].from@ == a && segs[k].to@ == b {
        Some(k)
    } else {
        segment_from(segs, a, b, k + 1)
    }
}

proof fn lemma_segment_from(segs: Seq<SegmentBounds>, a: Seq<char>, b: Seq<char>, k: int)
    requires
        0 <= k,
    ensures
        match segment_from(segs, a, b, k) {
            Some(j) => k <= j < segs.len(),
            None => true,
        },
    decreases segs.len() - k,
{
    if k < segs.len() && !(segs[k].from@ == a && segs[k].to@ == b) {
        lemma_segment_from(segs, a, b, k + 1);
    }
}

/// The segment filling the gap after kept slot `i`, if one is declared.
pub open spec fn gap_segment(segs: Seq<SegmentBounds>, kept: Seq<Seq<char>>, i: int) -> Option<int> {
    segment_from(segs, kept[i], kept[i + 1], 0)
}

/// The guaranteed length of gap `i`: its segment's minimum, or nothing without a segment.
pub open spec fn floor_at(segs: Seq<SegmentBounds>, kept: Seq<Seq<char>>, i: int) -> nat {
    match gap_segment(segs, kept, i) {
        Some(k) => lesser(segs[k].soft_min, segs[k].hard_max) as nat,
        None => 0,
    }
}

/// How far gap `i` may grow past its floor: up to its segment's ceiling.
pub open spec fn room_at(segs: Seq<SegmentBounds>, kept: Seq<Seq<char>>, i: int) -> nat {
    match gap_segment(segs, kept, i) {
        Some(k) => (segs[k].hard_max - lesser(segs[k].soft_min, segs[k].hard_max)) as nat,
        None => 0,
    }
}

/// The floors of the first `m` gaps, summed.
pub open spec fn floors(segs: Seq<SegmentBounds>, kept: Seq<Seq<char>>, m: int) -> nat
    decreases m,
{
    if m <= 0 {
        0
    } else {
        floors(segs, kept, m - 1) + floor_at(segs, kept, m - 1)
    }
}

/// The room of the first `m` gaps, summed.
pub open spec fn rooms(segs: Seq<SegmentBounds>, kept: Seq<Seq<char>>, m: int) -> nat
    decreases m,
{
    if m <= 0 {
        0
    } else {
        rooms(segs, kept, m - 1) + room_at(segs, kept, m - 1)
    }
}

/// The scopes left once the kept slots and every gap's floor are paid for, out of `capacity`
/// taken as a `u32`.
pub open spec fn surplus_of(segs: Seq<SegmentBounds>, kept: Seq<Seq<char>>, capacity: usize) -> nat {
    let used = floors(segs, kept, kept.len() - 1) + kept.len();
    let cap = (capacity as u32) as nat;
    if cap > used {
        (cap - used) as nat
    } else {
        0
    }
}

/// The part of the surplus handed out: no more than the gaps have room for.
pub open spec fn granted_of(segs: Seq<SegmentBounds>, kept: Seq<Seq<char>>, capacity: usize) -> nat {
    let total = rooms(segs, kept, kept.len() - 1);
    let s = surplus_of(segs, kept, capacity);
    if s <= total {
        s
    } else {
        total
    }
}

/// A gap's proportional share of `g` scopes, among rooms totalling `t`.
pub open spec fn share_of(g: nat, t: nat, room: nat) -> nat {
    (g * room / t) as nat
}

/// What that share leaves over, in units of `1 / t` scope.
pub open spec fn remainder_of(g: nat, t: nat, room: nat) -> nat {
    (g * room % t) as nat
}

/// The shares of the first `m` gaps, summed.
pub open spec fn shares(segs: Seq<SegmentBounds>, kept: Seq<Seq<char>>, g: nat, t: nat, m: int) -> nat
    decreases m,
{
    if m <= 0 {
        0
    } else {
        shares(segs, kept, g, t, m - 1) + share_of(g, t, room_at(segs, kept, m - 1))
    }
}

/// Gap `j` claims a leftover scope before gap `i`: a larger remainder, or an equal one and an
/// earlier gap.
pub open spec fn ahead(segs: Seq<SegmentBounds>, kept: Seq<Seq<char>>, g: nat, t: nat, j: int, i: int) -> bool {
    let rj = remainder_of(g, t, room_at(segs, kept, j));
    let ri = remainder_of(g, t, room_at(segs, kept, i));
    rj > ri || (rj == ri && j < i)
}

/// How many of the first `m` gaps claim before gap `i`.
pub open spec fn rank(segs: Seq<SegmentBounds>, kept: Seq<Seq<char>>, g: nat, t: nat, i: int, m: int) -> nat
    decreases m,
{
    if m <= 0 {
        0
    } else {
        rank(segs, kept, g, t, i, m - 1) + if ahead(segs, kept, g, t, m - 1, i) {
            1nat
        } else {
            0nat
        }
    }
}

/// The length of gap `i`: its floor, and when there is surplus and room, its proportional share
/// plus one leftover scope when it is among the first to claim one.
pub open spec fn length_at(segs: Seq<SegmentBounds>, kept: Seq<Seq<char>>, capacity: usize, i: int) -> nat {
    let n = kept.len() - 1;
    let t = rooms(segs, kept, n);
    let g = granted_of(segs, kept, capacity);
    if surplus_of(segs, kept, capacity) == 0 || t == 0 {
        floor_at(segs, kept, i)
    } else {
        floor_at(segs, kept, i) + share_of(g, t, room_at(segs, kept, i)) + if rank(
            segs,
            kept,
            g,
            t,
            i,
            n,
        ) < g - shares(segs, kept, g, t, n) {
            1nat
        } else {
            0nat
        }
    }
}

/// The remainders of the first `m` gaps, summed.
pub open spec fn remainders(segs: Seq<SegmentBounds>, kept: Seq<Seq<char>>, g: nat, t: nat, m: int) -> nat
    decreases m,
{
    if m <= 0 {
        0
    } else {
        remainders(segs, kept, g, t, m - 1) + remainder_of(g, t, room_at(segs, kept, m - 1))
    }
}

/// How many of the first `m` gaps leave a remainder.
pub open spec fn positives(segs: Seq<SegmentBounds>, kept: Seq<Seq<char>>, g: nat, t: nat, m: int) -> nat
    decreases m,
{
    if m <= 0 {
        0
    } else {
        positives(segs, kept, g, t, m - 1) + if remainder_of(g, t, room_at(segs, kept, m - 1)) > 0 {
            1nat
        } else {
            0nat
        }
    }
}

proof fn lemma_floors_grow(segs: Seq<SegmentBounds>, kept: Seq<Seq<char>>, j: int, k: int)
    requires
        0 <= j <= k,
    ensures
        floors(segs, kept, j) <= floors(segs, kept, k),
    decreases k - j,
{
    if j < k {
        lemma_floors_grow(segs, kept, j, k - 1);
    }
}

proof fn lemma_room_within(segs: Seq<SegmentBounds>, kept: Seq<Seq<char>>, i: int, m: int)
    requires
        0 <= i < m,
    ensures
        room_at(segs, kept, i) <= rooms(segs, kept, m),
    decreases m,
{
    if i < m - 1 {
        lemma_room_within(segs, kept, i, m - 1);
    }
}

proof fn lemma_rooms_bounded(segs: Seq<SegmentBounds>, kept: Seq<Seq<char>>, m: int)
    requires
        0 <= m,
    ensures
        rooms(segs, kept, m) <= m * 0xffff_ffff,
    decreases m,
{
    if m > 0 {
        lemma_rooms_bounded(segs, kept, m - 1);
        lemma_gap_bounds(segs, kept, m - 1);
    }
}

/// A gap's floor plus its room is its segment's ceiling, and both fit a `u32`.
proof fn lemma_gap_bounds(segs: Seq<SegmentBounds>, kept: Seq<Seq<char>>, i: int)
    ensures
        floor_at(segs, kept, i) + room_at(segs, kept, i) <= 0xffff_ffff,
        gap_segment(segs, kept, i) matches Some(k) ==> floor_at(segs, kept, i) + room_at(
            segs,
            kept,
            i,
        ) == segs[k].hard_max,
{
}

/// A share and its remainder make up the gap's part of the granted scopes, and no share exceeds
/// its room while no more is granted than there is room.
proof fn lemma_share(g: nat, t: nat, room: nat)
    requires
        t > 0,
        g <= t,
    ensures
        share_of(g, t, room) * t + remainder_of(g, t, room) == g * room,
        remainder_of(g, t, room) < t,
        share_of(g, t, room) <= room,
        remainder_of(g, t, room) > 0 ==> share_of(g, t, room) < room,
{
    let x = (g * room) as int;
    vstd::arithmetic::div_mod::lemma_fundamental_div_mod(x, t as int);
    vstd::arithmetic::div_mod::lemma_mod_pos_bound(x, t as int);
    vstd::arithmetic::div_mod::lemma_div_pos_is_pos(x, t as int);
    let q = x / (t as int);
    let r = x % (t as int);
    assert(q * t + r == g * room) by (nonlinear_arith)
        requires
            x == t * q + r,
            x == g * room,
    ;
    assert(q <= room) by (nonlinear_arith)
        requires
            q * t + r == g * room,
            0 <= r,
            g <= t,
            t > 0,
            q >= 0,
    ;
    assert(r > 0 ==> q < room) by (nonlinear_arith)
        requires
            q * t + r == g * room,
            0 <= r,
            g <= t,
            t > 0,
            q >= 0,
    ;
}

/// Shares and remainders together account for every granted scope: summed over the first `m`
/// gaps, `shares * t + remainders == g * rooms`.
proof fn lemma_shares_account(segs: Seq<SegmentBounds>, kept: Seq<Seq<char>>, g: nat, t: nat, m: int)
    requires
        t > 0,
        g <= t,
        0 <= m,
    ensures
        shares(segs, kept, g, t, m) * t + remainders(segs, kept, g, t, m) == g * rooms(segs, kept, m),
        remainders(segs, kept, g, t, m) <= positives(segs, kept, g, t, m) * (t - 1),
    decreases m,
{
    if m > 0 {
        lemma_shares_account(segs, kept, g, t, m - 1);
        let room = room_at(segs, kept, m - 1);
        lemma_share(g, t, room);
        let s0 = shares(segs, kept, g, t, m - 1);
        let r0 = remainders(segs, kept, g, t, m - 1);
        let w0 = rooms(segs, kept, m - 1);
        let p0 = positives(segs, kept, g, t, m - 1);
        let sh = share_of(g, t, room);
        let re = remainder_of(g, t, room);
        assert((s0 + sh) * t + (r0 + re) == g * (w0 + room)) by (nonlinear_arith)
            requires
                s0 * t + r0 == g * w0,
                sh * t + re == g * room,
        ;
        let p1 = positives(segs, kept, g, t, m);
        assert(r0 + re <= p1 * (t - 1)) by (nonlinear_arith)
            requires
                r0 <= p0 * (t - 1),
                re < t,
                re > 0 ==> p1 == p0 + 1,
                re == 0 ==> p1 == p0,
                t > 0,
        ;
    } else {
        assert(g * rooms(segs, kept, m) == 0) by (nonlinear_arith)
            requires
                rooms(segs, kept, m) == 0,
        ;
    }
}

/// A gap without a remainder has every gap with one ahead of it.
proof fn lemma_rank_counts_positives(
    segs: Seq<SegmentBounds>,
    kept: Seq<Seq<char>>,
    g: nat,
    t: nat,
    i: int,
    m: int,
)
    requires
        remainder_of(g, t, room_at(segs, kept, i)) == 0,
        0 <= m,
    ensures
        positives(segs, kept, g, t, m) <= rank(segs, kept, g, t, i, m),
    decreases m,
{
    if m > 0 {
        lemma_rank_counts_positives(segs, kept, g, t, i, m - 1);
    }
}

/// The leftover scopes number no more than the gaps with a remainder, so every gap that claims
/// one has a remainder, and so room to take it.
proof fn lemma_leftover_fits(segs: Seq<SegmentBounds>, kept: Seq<Seq<char>>, g: nat, t: nat, n: int, i: int)
    requires
        t > 0,
        g <= t,
        0 <= i < n,
        t == rooms(segs, kept, n),
        rank(segs, kept, g, t, i, n) < g - shares(segs, kept, g, t, n),
    ensures
        shares(segs, kept, g, t, n) <= g,
        remainder_of(g, t, room_at(segs, kept, i)) > 0,
        share_of(g, t, room_at(segs, kept, i)) < room_at(segs, kept, i),
{
    lemma_shares_account(segs, kept, g, t, n);
    let s = shares(segs, kept, g, t, n);
    let r = remainders(segs, kept, g, t, n);
    let p = positives(segs, kept, g, t, n);
    assert(s <= g) by (nonlinear_arith)
        requires
            s * t + r == g * t,
            t > 0,
    ;
    assert(g - s <= p) by (nonlinear_arith)
        requires
            s * t + r == g * t,
            r <= p * (t - 1),
            t > 0,
            s <= g,
    ;
    if remainder_of(g, t, room_at(segs, kept, i)) == 0 {
        lemma_rank_counts_positives(segs, kept, g, t, i, n);
    }
    lemma_share(g, t, room_at(segs, kept, i));
}

/// The shares never add up to more than was granted.
proof fn lemma_shares_within(segs: Seq<SegmentBounds>, kept: Seq<Seq<char>>, g: nat, t: nat, n: int)
    requires
        t > 0,
        g <= t,
        0 <= n,
        t == rooms(segs, kept, n),
    ensures
        shares(segs, kept, g, t, n) <= g,
{
    lemma_shares_account(segs, kept, g, t, n);
    let s = shares(segs, kept, g, t, n);
    let r = remainders(segs, kept, g, t, n);
    assert(s <= g) by (nonlinear_arith)
        requires
            s * t + r == g * t,
            t > 0,
    ;
}

/// The segment that runs from `a` to `b`; the first declared, if several do.
fn find_segment(segs: &[SegmentBounds], a: &str, b: &str) -> (r: Option<usize>)
    ensures
        match r {
            Some(k) => segment_from(segs@, a@, b@, 0) == Some(k as int),
            None => segment_from(segs@, a@, b@, 0) is None,
        },
{
    let mut k: usize = 0;
    while k < segs.len()
        invariant
            k <= segs@.len(),
            segment_from(segs@, a@, b@, 0) == segment_from(segs@, a@, b@, k as int),
        decreases segs@.len() - k,
    {
        if same_text(segs[k].from.as_str(), a) && same_text(segs[k].to.as_str(), b) {
            return Some(k);
        }
        k += 1;
    }
    None
}

/// How many connective scopes each gap between consecutive kept slots gets, given `capacity`
/// scopes to work with: each gap's floor, and, when capacity is left over and the gaps have room,
/// a share of it in proportion to each gap's room, with what the shares leave over going one by
/// one to the largest remainders, ties to the earlier gap.
pub fn segment_lengths(segments: &[SegmentBounds], kept: &[String], capacity: usize) -> (out: Vec<u32>)
    requires
        kept@.len() >= 2 ==> floors(segments@, strs(kept@), kept@.len() - 1) + kept@.len() <= u32::MAX,
    ensures
        kept@.len() < 2 ==> out@.len() == 0,
        kept@.len() >= 2 ==> out@.len() == kept@.len() - 1,
        forall|i: int|
            0 <= i < out@.len() ==> out@[i] == length_at(segments@, strs(kept@), capacity, i),
{
    if kept.len() < 2 {
        return Vec::new();
    }
    let ghost segs = segments@;
    let ghost ks = strs(kept@);
    let n = kept.len() - 1;
    let mut gaps: Vec<Option<usize>> = Vec::new();
    let mut lengths: Vec<u32> = Vec::new();
    let mut floor_sum: u32 = 0;
    let mut i: usize = 0;
    while i < n
        invariant
            segs == segments@,
            ks == strs(kept@),
            n == kept@.len() - 1,
            i <= n,
            floors(segs, ks, n as int) + kept@.len() <= u32::MAX,
            gaps@.len() == i,
            lengths@.len() == i,
            forall|j: int|
                0 <= j < i ==> match #[trigger] gaps@[j] {
                    Some(k) => gap_segment(segs, ks, j) == Some(k as int) && k < segs.len(),
                    None => gap_segment(segs, ks, j) is None,
                },
            forall|j: int| 0 <= j < i ==> #[trigger] lengths@[j] == floor_at(segs, ks, j),
            floor_sum == floors(segs, ks, i as int),
        decreases n - i,
    {
        let g = find_segment(segments, kept[i].as_str(), kept[i + 1].as_str());
        proof {
            lemma_segment_from(segs, ks[i as int], ks[i + 1], 0);
            lemma_floors_grow(segs, ks, i + 1, n as int);
        }
        let fl = match g {
            Some(k) => segments[k].min_length(),
            None => 0,
        };
        gaps.push(g);
        lengths.push(fl);
        floor_sum = floor_sum + fl;
        i += 1;
    }
    let used: u32 = floor_sum + (kept.len() as u32);
    let cap = #[verifier::truncate] (capacity as u32);
    let surplus: u32 = if cap > used {
        cap - used
    } else {
        0
    };
    assert(surplus == surplus_of(segs, ks, capacity));
    if surplus == 0 {
        return lengths;
    }
    let mut room: Vec<u32> = Vec::new();
    let mut total: u64 = 0;
    i = 0;
    while i < n
        invariant
            segs == segments@,
            ks == strs(kept@),
            n == kept@.len() - 1,
            i <= n,
            gaps@.len() == n,
            lengths@.len() == n,
            forall|j: int|
                0 <= j < n ==> match #[trigger] gaps@[j] {
                    Some(k) => gap_segment(segs, ks, j) == Some(k as int) && k < segs.len(),
                    None => gap_segment(segs, ks, j) is None,
                },
            forall|j: int| 0 <= j < n ==> #[trigger] lengths@[j] == floor_at(segs, ks, j),
            room@.len() == i,
            forall|j: int| 0 <= j < i ==> #[trigger] room@[j] == room_at(segs, ks, j),
            total == rooms(segs, ks, i as int),
            total <= i * 0xffff_ffff,
            n <= 0xffff_ffff,
        decreases n - i,
    {
        proof {
            lemma_gap_bounds(segs, ks, i as int);
        }
        let r = match gaps[i] {
            Some(k) => segments[k].hard_max - lengths[i],
            None => 0,
        };
        room.push(r);
        total = total + r as u64;
        i += 1;
    }
    if total == 0 {
        return lengths;
    }
    let g: u32 = if (surplus as u64) <= total {
        surplus
    } else {
        total as u32
    };
    assert(g == granted_of(segs, ks, capacity));
    let ghost t = total as nat;
    let mut rems: Vec<u64> = Vec::new();
    let mut handed: u64 = 0;
    i = 0;
    while i < n
        invariant
            segs == segments@,
            ks == strs(kept@),
            n == kept@.len() - 1,
            i <= n,
            t == total,
            t > 0,
            g <= t,
            t == rooms(segs, ks, n as int),
            room@.len() == n,
            forall|j: int| 0 <= j < n ==> #[trigger] room@[j] == room_at(segs, ks, j),
            lengths@.len() == n,
            forall|j: int|
                0 <= j < i ==> #[trigger] lengths@[j] == floor_at(segs, ks, j) + share_of(
                    g as nat,
                    t,
                    room_at(segs, ks, j),
                ),
            forall|j: int| i <= j < n ==> #[trigger] lengths@[j] == floor_at(segs, ks, j),
            rems@.len() == i,
            forall|j: int|
                0 <= j < i ==> #[trigger] rems@[j] == remainder_of(g as nat, t, room_at(segs, ks, j)),
            handed == shares(segs, ks, g as nat, t, i as int),
            handed <= i * 0xffff_ffff,
            n <= 0xffff_ffff,
        decreases n - i,
    {
        let gg = g as u64;
        let rr = room[i] as u64;
        assert(gg * rr <= 0xffff_ffff * 0xffff_ffff) by (nonlinear_arith)
            requires
                gg <= 0xffff_ffff,
                rr <= 0xffff_ffff,
        ;
        let exact: u64 = gg * rr;
        let share: u64 = exact / total;
        let rem: u64 = exact % total;
        proof {
            lemma_gap_bounds(segs, ks, i as int);
            lemma_share(g as nat, t, room_at(segs, ks, i as int));
        }
        lengths.set(i, lengths[i] + (share as u32));
        handed = handed + share;
        rems.push(rem);
        i += 1;
    }
    proof {
        lemma_shares_within(segs, ks, g as nat, t, n as int);
    }
    let extra: u64 = (g as u64) - handed;
    i = 0;
    while i < n
        invariant
            segs == segments@,
            ks == strs(kept@),
            n == kept@.len() - 1,
            i <= n,
            t == total,
            t > 0,
            g <= t,
            t == rooms(segs, ks, n as int),
            g == granted_of(segs, ks, capacity),
            surplus_of(segs, ks, capacity) != 0,
            extra == g - shares(segs, ks, g as nat, t, n as int),
            lengths@.len() == n,
            forall|j: int|
                0 <= j < i ==> #[trigger] lengths@[j] == length_at(segments@, strs(kept@), capacity, j),
            forall|j: int|
                i <= j < n ==> #[trigger] lengths@[j] == floor_at(segs, ks, j) + share_of(
                    g as nat,
                    t,
                    room_at(segs, ks, j),
                ),
            rems@.len() == n,
            forall|j: int|
                0 <= j < n ==> #[trigger] rems@[j] == remainder_of(g as nat, t, room_at(segs, ks, j)),
        decreases n - i,
    {
        let mut count: u64 = 0;
        let mut j: usize = 0;
        while j < n
            invariant
                i < n,
                j <= n,
                rems@.len() == n,
                forall|x: int|
                    0 <= x < n ==> #[trigger] rems@[x] == remainder_of(g as nat, t, room_at(segs, ks, x)),
                count == rank(segs, ks, g as nat, t, i as int, j as int),
                count <= j,
            decreases n - j,
        {
            if rems[j] > rems[i] || (rems[j] == rems[i] && j < i) {
                count += 1;
            }
            j += 1;
        }
        if count < extra {
            proof {
                lemma_leftover_fits(segs, ks, g as nat, t, n as int, i as int);
                lemma_gap_bounds(segs, ks, i as int);
            }
            lengths.set(i, lengths[i] + 1);
        }
        i += 1;
    }
    lengths
}

// ---------------------------------------------------------------------------------------------
// Laws
// ---------------------------------------------------------------------------------------------

/// No gap is shorter than its floor, and none outgrows its room: a declared segment never runs past
/// its ceiling, and a gap with no declared segment stays a direct connection.
pub proof fn law_lengths_stay_within_bounds(
    segments: Seq<SegmentBounds>,
    kept: Seq<Seq<char>>,
    capacity: usize,
    i: int,
)
    requires
        0 <= i < kept.len() - 1,
    ensures
        floor_at(segments, kept, i) <= length_at(segments, kept, capacity, i),
        length_at(segments, kept, capacity, i) <= floor_at(segments, kept, i) + room_at(
            segments,
            kept,
            i,
        ),
        gap_segment(segments, kept, i) matches Some(k) ==> length_at(segments, kept, capacity, i)
            <= segments[k].hard_max,
        gap_segment(segments, kept, i) is None ==> length_at(segments, kept, capacity, i) == 0,
{
    let n = kept.len() - 1;
    let t = rooms(segments, kept, n);
    let g = granted_of(segments, kept, capacity);
    lemma_gap_bounds(segments, kept, i);
    if surplus_of(segments, kept, capacity) != 0 && t != 0 {
        lemma_share(g, t, room_at(segments, kept, i));
        if rank(segments, kept, g, t, i, n) < g - shares(segments, kept, g, t, n) {
            lemma_leftover_fits(segments, kept, g, t, n, i);
        }
    }
}

/// The lengths of the first `m` gaps, summed.
pub open spec fn lengths_total(segs: Seq<SegmentBounds>, kept: Seq<Seq<char>>, capacity: usize, m: int) -> nat
    decreases m,
{
    if m <= 0 {
        0
    } else {
        lengths_total(segs, kept, capacity, m - 1) + length_at(segs, kept, capacity, m - 1)
    }
}

/// Does gap `i` take one of the `extra` leftover scopes?
pub open spec fn claims(segs: Seq<SegmentBounds>, kept: Seq<Seq<char>>, g: nat, t: nat, n: int, extra: int, i: int) -> bool {
    rank(segs, kept, g, t, i, n) < extra
}

/// How many of the first `m` gaps take a leftover scope.
pub open spec fn claimed(segs: Seq<SegmentBounds>, kept: Seq<Seq<char>>, g: nat, t: nat, n: int, extra: int, m: int) -> nat
    decreases m,
{
    if m <= 0 {
        0
    } else {
        claimed(segs, kept, g, t, n, extra, m - 1) + if claims(segs, kept, g, t, n, extra, m - 1) {
            1nat
        } else {
            0nat
        }
    }
}

proof fn lemma_rank_below(segs: Seq<SegmentBounds>, kept: Seq<Seq<char>>, g: nat, t: nat, i: int, m: int)
    requires
        0 <= m,
    ensures
        rank(segs, kept, g, t, i, m) <= m,
        0 <= i < m ==> rank(segs, kept, g, t, i, m) < m,
    decreases m,
{
    if m > 0 {
        lemma_rank_below(segs, kept, g, t, i, m - 1);
    }
}

/// Whatever is ahead of `j` is ahead of everything `j` is ahead of, and `j` itself counts: so a
/// gap ahead of another has a strictly smaller rank.
proof fn lemma_rank_strict(segs: Seq<SegmentBounds>, kept: Seq<Seq<char>>, g: nat, t: nat, j: int, i: int, m: int)
    requires
        ahead(segs, kept, g, t, j, i),
        0 <= m,
    ensures
        rank(segs, kept, g, t, j, m) + (if 0 <= j < m {
            1int
        } else {
            0int
        }) <= rank(segs, kept, g, t, i, m),
    decreases m,
{
    if m > 0 {
        lemma_rank_strict(segs, kept, g, t, j, i, m - 1);
    }
}

proof fn lemma_ranks_distinct(segs: Seq<SegmentBounds>, kept: Seq<Seq<char>>, g: nat, t: nat, n: int, a: int, b: int)
    requires
        0 <= a < n,
        0 <= b < n,
        a != b,
    ensures
        rank(segs, kept, g, t, a, n) != rank(segs, kept, g, t, b, n),
{
    if ahead(segs, kept, g, t, a, b) {
        lemma_rank_strict(segs, kept, g, t, a, b, n);
    } else {
        assert(ahead(segs, kept, g, t, b, a));
        lemma_rank_strict(segs, kept, g, t, b, a, n);
    }
}

proof fn lemma_count_as_set(p: spec_fn(int) -> bool, c: spec_fn(int) -> nat, m: int)
    requires
        0 <= m,
        c(0) == 0,
        forall|k: int| 0 < k <= m ==> #[trigger] c(k) == c(k - 1) + if p(k - 1) {
            1nat
        } else {
            0nat
        },
    ensures
        vstd::set_lib::set_int_range(0, m).filter(p).finite(),
        vstd::set_lib::set_int_range(0, m).filter(p).len() == c(m),
    decreases m,
{
    let s = vstd::set_lib::set_int_range(0, m).filter(p);
    if m == 0 {
        assert(s =~= Set::<int>::empty());
    } else {
        lemma_count_as_set(p, c, m - 1);
        let prev = vstd::set_lib::set_int_range(0, m - 1).filter(p);
        assert(c(m) == c(m - 1) + if p(m - 1) {
            1nat
        } else {
            0nat
        });
        if p(m - 1) {
            assert(s =~= prev.insert(m - 1));
        } else {
            assert(s =~= prev);
        }
    }
}

/// Exactly `extra` gaps take a leftover scope, when there are at least that many gaps: the ranks
/// of the gaps are `0..n` in some order.
proof fn lemma_claims_are_exact(segs: Seq<SegmentBounds>, kept: Seq<Seq<char>>, g: nat, t: nat, n: int, extra: int)
    requires
        0 <= extra <= n,
    ensures
        claimed(segs, kept, g, t, n, extra, n) == extra,
{
    let all = vstd::set_lib::set_int_range(0, n);
    let f = |i: int| rank(segs, kept, g, t, i, n) as int;
    vstd::set_lib::lemma_int_range(0, n);
    vstd::set_lib::lemma_int_range(0, extra);
    assert(vstd::relations::injective_on(f, all)) by {
        assert forall|x1: int, x2: int|
            all.contains(x1) && all.contains(x2) && #[trigger] f(x1) == #[trigger] f(x2) implies x1
            == x2 by {
            if x1 != x2 {
                lemma_ranks_distinct(segs, kept, g, t, n, x1, x2);
            }
        }
    }
    let image = all.map(f);
    vstd::set_lib::lemma_map_size(all, image, f);
    assert(image.subset_of(all)) by {
        assert forall|r: int| image.contains(r) implies all.contains(r) by {
            let i = choose|i: int| all.contains(i) && f(i) == r;
            lemma_rank_below(segs, kept, g, t, i, n);
        }
    }
    vstd::set_lib::lemma_subset_equality(image, all);
    let p = |i: int| claims(segs, kept, g, t, n, extra, i);
    let chosen = all.filter(p);
    let low = vstd::set_lib::set_int_range(0, extra);
    assert(chosen.map(f) =~= low) by {
        assert forall|r: int| chosen.map(f).contains(r) implies low.contains(r) by {
            let i = choose|i: int| chosen.contains(i) && f(i) == r;
        }
        assert forall|r: int| low.contains(r) implies chosen.map(f).contains(r) by {
            assert(image.contains(r));
            let i = choose|i: int| all.contains(i) && f(i) == r;
            assert(chosen.contains(i));
        }
    }
    vstd::set_lib::lemma_set_subset_finite(all, chosen);
    assert(vstd::relations::injective_on(f, chosen));
    vstd::set_lib::lemma_map_size(chosen, chosen.map(f), f);
    let c = |m: int| claimed(segs, kept, g, t, n, extra, m);
    lemma_count_as_set(p, c, n);
}

proof fn lemma_positives_below(segs: Seq<SegmentBounds>, kept: Seq<Seq<char>>, g: nat, t: nat, m: int)
    requires
        0 <= m,
    ensures
        positives(segs, kept, g, t, m) <= m,
    decreases m,
{
    if m > 0 {
        lemma_positives_below(segs, kept, g, t, m - 1);
    }
}

proof fn lemma_lengths_split(segs: Seq<SegmentBounds>, kept: Seq<Seq<char>>, capacity: usize, m: int)
    requires
        0 <= m <= kept.len() - 1,
        surplus_of(segs, kept, capacity) != 0,
        rooms(segs, kept, kept.len() - 1) != 0,
    ensures
        ({
            let n = kept.len() - 1;
            let t = rooms(segs, kept, n);
            let g = granted_of(segs, kept, capacity);
            let extra = g - shares(segs, kept, g, t, n);
            lengths_total(segs, kept, capacity, m) == floors(segs, kept, m) + shares(
                segs,
                kept,
                g,
                t,
                m,
            ) + claimed(segs, kept, g, t, n, extra, m)
        }),
    decreases m,
{
    if m > 0 {
        lemma_lengths_split(segs, kept, capacity, m - 1);
    }
}

/// The surplus is spent exactly: when capacity is left over and the gaps have room, the lengths
/// add up to the floors plus every granted scope, which is the surplus or, when it is larger, all
/// the room there is.
pub proof fn law_surplus_is_spent_exactly(segments: Seq<SegmentBounds>, kept: Seq<Seq<char>>, capacity: usize)
    requires
        kept.len() >= 2,
        surplus_of(segments, kept, capacity) != 0,
        rooms(segments, kept, kept.len() - 1) != 0,
    ensures
        lengths_total(segments, kept, capacity, kept.len() - 1) == floors(
            segments,
            kept,
            kept.len() - 1,
        ) + granted_of(segments, kept, capacity),
        granted_of(segments, kept, capacity) == if surplus_of(segments, kept, capacity) <= rooms(
            segments,
            kept,
            kept.len() - 1,
        ) {
            surplus_of(segments, kept, capacity)
        } else {
            rooms(segments, kept, kept.len() - 1)
        },
{
    let n = kept.len() - 1;
    let t = rooms(segments, kept, n);
    let g = granted_of(segments, kept, capacity);
    lemma_shares_account(segments, kept, g, t, n);
    lemma_shares_within(segments, kept, g, t, n);
    lemma_positives_below(segments, kept, g, t, n);
    let s = shares(segments, kept, g, t, n);
    let r = remainders(segments, kept, g, t, n);
    let p = positives(segments, kept, g, t, n);
    assert(g - s <= p) by (nonlinear_arith)
        requires
            s * t + r == g * t,
            r <= p * (t - 1),
            t > 0,
            s <= g,
    ;
    let extra = g - s;
    lemma_claims_are_exact(segments, kept, g, t, n, extra);
    lemma_lengths_split(segments, kept, capacity, n);
}

// ---------------------------------------------------------------------------------------------
// Allocating slots to scopes
// ---------------------------------------------------------------------------------------------

/// Where one slot of a spine went, as positions in the instance's available scopes.
#[derive(Clone, Copy, Debug, PartialEq, Eq, Structural)]
pub enum SlotPlan {
    /// Not kept at this adherence.
    Dropped,
    /// Kept, but no scope was left for it in this instance.
    NoRoom,
    /// Placed at `scope`, reached through the connective scopes `filler_from..filler_to` that the
    /// segment before it consumed (none for the first placed slot).
    Placed { filler_from: usize, filler_to: usize, scope: usize },
}

/// The allocator's state after the first slots: the plans so far, the next free scope, the next
/// gap, and whether any slot has been placed yet.
pub struct PlanState {
    /// Where each slot so far went.
    pub plans: Seq<SlotPlan>,
    /// The next available scope not yet taken.
    pub cursor: int,
    /// The next gap whose planned length applies.
    pub gap: int,
    /// Has any slot been placed yet?
    pub placed: bool,
}

/// The planned length of gap `g`; a gap past the planned ones is direct.
pub open spec fn gap_length(lengths: Seq<u32>, g: int) -> int {
    if 0 <= g < lengths.len() {
        lengths[g] as int
    } else {
        0
    }
}

/// One step of the allocation. A dropped slot changes nothing. A kept slot after the first placed
/// one first consumes its gap's connective scopes, never the last scope, since the slot itself has
/// to land somewhere; then it takes the next scope if one is left.
pub open spec fn plan_step(st: PlanState, kept: bool, lengths: Seq<u32>, available: int) -> PlanState {
    if !kept {
        PlanState { plans: st.plans.push(SlotPlan::Dropped), ..st }
    } else if st.placed {
        let wanted = st.cursor + gap_length(lengths, st.gap);
        let last = if available > 0 {
            available - 1
        } else {
            0
        };
        let capped = if wanted < last {
            wanted
        } else {
            last
        };
        let end = if capped > st.cursor {
            capped
        } else {
            st.cursor
        };
        if end < available {
            PlanState {
                plans: st.plans.push(
                    SlotPlan::Placed {
                        filler_from: st.cursor as usize,
                        filler_to: end as usize,
                        scope: end as usize,
                    },
                ),
                cursor: end + 1,
                gap: st.gap + 1,
                placed: true,
            }
        } else {
            PlanState {
                plans: st.plans.push(SlotPlan::NoRoom),
                cursor: end,
                gap: st.gap + 1,
                placed: true,
            }
        }
    } else if st.cursor < available {
        PlanState {
            plans: st.plans.push(
                SlotPlan::Placed {
                    filler_from: st.cursor as usize,
                    filler_to: st.cursor as usize,
                    scope: st.cursor as usize,
                },
            ),
            cursor: st.cursor + 1,
            gap: st.gap,
            placed: true,
        }
    } else {
        PlanState { plans: st.plans.push(SlotPlan::NoRoom), ..st }
    }
}

/// The allocation after the first `k` slots.
pub open spec fn plan_upto(kept: Seq<bool>, lengths: Seq<u32>, available: int, k: int) -> PlanState
    decreases k,
{
    if k <= 0 {
        PlanState { plans: seq![], cursor: 0, gap: 0, placed: false }
    } else {
        plan_step(plan_upto(kept, lengths, available, k - 1), kept[k - 1], lengths, available)
    }
}

proof fn lemma_plan_bounds(kept: Seq<bool>, lengths: Seq<u32>, available: int, k: int)
    requires
        0 <= k <= kept.len(),
        0 <= available,
    ensures
        0 <= plan_upto(kept, lengths, available, k).cursor <= available,
        0 <= plan_upto(kept, lengths, available, k).gap <= k,
        plan_upto(kept, lengths, available, k).plans.len() == k,
    decreases k,
{
    if k > 0 {
        lemma_plan_bounds(kept, lengths, available, k - 1);
    }
}

/// Allocate the slots of a spine, in order, to an instance's `available` scopes: which slots are
/// kept decides which take a scope, and `lengths` how many connective scopes each gap between
/// consecutive placed slots consumes. Slots are placed front to back; a slot for which no scope
/// is left is reported, not placed.
pub fn plan_slots(kept: &[bool], lengths: &[u32], available: usize) -> (out: Vec<SlotPlan>)
    ensures
        out@ == plan_upto(kept@, lengths@, available as int, kept@.len() as int).plans,
{
    let mut out: Vec<SlotPlan> = Vec::new();
    let mut cursor: usize = 0;
    let mut gap: usize = 0;
    let mut placed = false;
    let mut i: usize = 0;
    while i < kept.len()
        invariant
            i <= kept@.len(),
            ({
                let st = plan_upto(kept@, lengths@, available as int, i as int);
                &&& out@ == st.plans
                &&& cursor == st.cursor
                &&& gap == st.gap
                &&& placed == st.placed
            }),
            cursor <= available,
            gap <= i,
        decreases kept@.len() - i,
    {
        proof {
            lemma_plan_bounds(kept@, lengths@, available as int, i as int);
        }
        if !kept[i] {
            out.push(SlotPlan::Dropped);
        } else if placed {
            let length: usize = if gap < lengths.len() {
                lengths[gap] as usize
            } else {
                0
            };
            let last: usize = if available > 0 {
                available - 1
            } else {
                0
            };
            let end: usize = if cursor > last {
                cursor
            } else if length < last - cursor {
                cursor + length
            } else {
                last
            };
            gap += 1;
            if end < available {
                out.push(SlotPlan::Placed { filler_from: cursor, filler_to: end, scope: end });
                cursor = end + 1;
            } else {
                out.push(SlotPlan::NoRoom);
                cursor = end;
            }
        } else if cursor < available {
            out.push(SlotPlan::Placed { filler_from: cursor, filler_to: cursor, scope: cursor });
            cursor += 1;
            placed = true;
        } else {
            out.push(SlotPlan::NoRoom);
        }
        i += 1;
    }
    out
}

/// Every placed slot's connective scopes start at or before its own scope, which is one of the
/// `available` scopes.
pub open spec fn plans_fit(plans: Seq<SlotPlan>, available: int) -> bool {
    forall|i: int|
        #![trigger plans[i]]
        0 <= i < plans.len() ==> match plans[i] {
            SlotPlan::Placed { filler_from, filler_to, scope } => filler_from <= filler_to
                && filler_to == scope && scope < available,
            _ => true,
        }
}

proof fn lemma_plan_fits(kept: Seq<bool>, lengths: Seq<u32>, available: int, k: int)
    requires
        0 <= k <= kept.len(),
        0 <= available <= usize::MAX,
    ensures
        plans_fit(plan_upto(kept, lengths, available, k).plans, available),
    decreases k,
{
    if k > 0 {
        lemma_plan_fits(kept, lengths, available, k - 1);
        lemma_plan_bounds(kept, lengths, available, k - 1);
        let st = plan_upto(kept, lengths, available, k - 1);
        let next = plan_upto(kept, lengths, available, k);
        assert forall|i: int| 0 <= i < next.plans.len() implies match #[trigger] next.plans[i] {
            SlotPlan::Placed { filler_from, filler_to, scope } => filler_from <= filler_to
                && filler_to == scope && scope < available,
            _ => true,
        } by {
            if i < st.plans.len() {
                assert(next.plans[i] == st.plans[i]);
            }
        }
    }
}

/// Is there already an edge between `a` and `b`?
pub open spec fn connected<B>(m: MissionView<B>, a: Handle<Node<B>>, b: Handle<Node<B>>) -> bool {
    exists|i: int| 0 <= i < m.edges.len() && #[trigger] joins(m.edges[i], a, b)
}

/// The graph after `a` is joined to `b` by an open edge, unless an edge already joins them; a
/// degree cap may refuse the edge.
pub open spec fn link<B>(m: MissionView<B>, a: Handle<Node<B>>, b: Handle<Node<B>>) -> MissionView<B> {
    if connected(m, a, b) {
        m
    } else {
        edge_requested(
            m,
            MissionEdge::<B> { from: a, to: b, rule: Rule::Always, reversible: true, is_shortcut: false },
        )
    }
}

/// The graph after each of the first `j` consecutive pairs of a chain is linked, in order.
pub open spec fn link_chain<B>(m: MissionView<B>, nodes: Seq<Handle<Node<B>>>, j: int) -> MissionView<B>
    decreases j,
{
    if j <= 0 {
        m
    } else {
        link(link_chain(m, nodes, j - 1), nodes[j - 1], nodes[j])
    }
}

/// The graph after the first `k` slot plans are wired in, and the scope of the last placed slot.
/// A placed slot after the first is reached from the slot before it through its connective
/// scopes, one edge per step.
pub open spec fn wired<B>(
    m: MissionView<B>,
    plans: Seq<SlotPlan>,
    available: Seq<Handle<Node<B>>>,
    k: int,
) -> (MissionView<B>, Option<Handle<Node<B>>>)
    decreases k,
{
    if k <= 0 {
        (m, None)
    } else {
        let (m1, prev) = wired(m, plans, available, k - 1);
        match plans[k - 1] {
            SlotPlan::Placed { filler_from, scope, .. } => match prev {
                Some(p) => {
                    let chain = seq![p] + available.subrange(filler_from as int, scope + 1);
                    (link_chain(m1, chain, chain.len() - 1), Some(available[scope as int]))
                },
                None => (m1, Some(available[scope as int])),
            },
            _ => (m1, prev),
        }
    }
}

/// Link the chain `prev`, `available[from..=to]` into the graph.
fn link_through<B>(
    mission: &mut MissionGraph<B>,
    prev: Handle<Node<B>>,
    available: &[Handle<Node<B>>],
    from: usize,
    to: usize,
)
    requires
        old(mission).wf(),
        from <= to < available@.len(),
    ensures
        final(mission).wf(),
        final(mission)@ == (MissionView::<B> { edges: final(mission)@.edges, ..old(mission)@ }),
        final(mission)@ == link_chain(
            old(mission)@,
            seq![prev] + available@.subrange(from as int, to + 1),
            to - from + 1,
        ),
{
    let ghost chain = seq![prev] + available@.subrange(from as int, to + 1);
    let mut at = prev;
    let mut k: usize = from;
    while k <= to
        invariant
            mission.wf(),
                mission@ == (MissionView::<B> { edges: mission@.edges, ..old(mission)@ }),
            from <= k <= to + 1,
            to < available@.len(),
            chain == seq![prev] + available@.subrange(from as int, to + 1),
            at == chain[k - from],
            mission@ == link_chain(old(mission)@, chain, k - from),
        decreases to + 1 - k,
    {
        let next = available[k];
        assert(chain[k - from + 1] == next);
        if !mission.connects(at, next) {
            mission.add_edge(MissionEdge::open(at, next));
        }
        at = next;
        k += 1;
    }
}

/// Wire slot plans into the mission graph: each placed slot after the first is reached from the
/// slot placed before it through its connective scopes.
fn wire_plans<B>(mission: &mut MissionGraph<B>, plans: &[SlotPlan], available: &[Handle<Node<B>>])
    requires
        old(mission).wf(),
        plans_fit(plans@, available@.len() as int),
    ensures
        final(mission).wf(),
        final(mission)@ == (MissionView::<B> { edges: final(mission)@.edges, ..old(mission)@ }),
        final(mission)@ == wired(old(mission)@, plans@, available@, plans@.len() as int).0,
{
    let mut prev: Option<Handle<Node<B>>> = None;
    let mut i: usize = 0;
    while i < plans.len()
        invariant
            mission.wf(),
                mission@ == (MissionView::<B> { edges: mission@.edges, ..old(mission)@ }),
            i <= plans@.len(),
            plans_fit(plans@, available@.len() as int),
            (mission@, prev) == wired(old(mission)@, plans@, available@, i as int),
        decreases plans@.len() - i,
    {
        match plans[i] {
            SlotPlan::Placed { filler_from, filler_to, scope } => {
                assert(filler_from <= filler_to && filler_to == scope && scope < available@.len());
                match prev {
                    Some(p) => {
                        link_through(mission, p, available, filler_from, scope);
                    },
                    None => {},
                }
                prev = Some(available[scope]);
            },
            _ => {},
        }
        i += 1;
    }
}

/// Lay a spine's slots out over an instance's `available` scopes and wire them into the mission
/// graph: which slot lands where (see [`plan_slots`]), and the open edges that chain each placed
/// slot to the one before it through its connective scopes. An edge that already exists is not
/// added twice, and one a degree cap refuses is not added.
pub fn lay_out<B>(
    mission: &mut MissionGraph<B>,
    kept: &[bool],
    lengths: &[u32],
    available: &[Handle<Node<B>>],
) -> (plans: Vec<SlotPlan>)
    requires
        old(mission).wf(),
    ensures
        final(mission).wf(),
        final(mission)@ == (MissionView::<B> { edges: final(mission)@.edges, ..old(mission)@ }),
        plans@ == plan_upto(kept@, lengths@, available@.len() as int, kept@.len() as int).plans,
        plans_fit(plans@, available@.len() as int),
        plans@.len() == kept@.len(),
        final(mission)@ == wired(old(mission)@, plans@, available@, plans@.len() as int).0,
{
    let plans = plan_slots(kept, lengths, available.len());
    proof {
        lemma_plan_fits(kept@, lengths@, available@.len() as int, kept@.len() as int);
        lemma_plan_bounds(kept@, lengths@, available@.len() as int, kept@.len() as int);
    }
    wire_plans(mission, plans.as_slice(), available);
    plans
}

} // verus!
