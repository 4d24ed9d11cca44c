//! Validating a spine template against the content that is registered and the scopes an
//! instance will have, and instantiating it over one scope instance. Only required conditions
//! fail validation; softer tiers produce warnings, so an author learns that a landmark will
//! rarely fit without being blocked by it.
//!
//! Both read a template as [`TemplateShape`]: the slots' names and strictness overrides, their
//! topology and content demands and roles, and each segment's ends, length bounds and gate. Each
//! validation check reports in the order it is made: the duplicate names, the budget, then slot
//! by slot, then segment by segment. Instantiation allocates the kept slots in order, chains them
//! through their segments, then joins declared adjacencies, applies gates, satisfies minimum
//! degrees and last freezes the caps; what the adherence dial keeps and what each grant draws are
//! decided by the caller and handed in.

use crate::mission::id_text;
use crate::node::NodeKind;
use crate::object::ObjectId;
use crate::spine::{GrantSpec, Relaxation, SlotContents, SlotRole, SlotShape, SpineError, SpineValidation, SpineWarning, Strictness, UnlockRef};
use crate::handle::Handle;
use crate::mission::Rule;
use crate::mission_graph::{at_cap, degree_of, edge_requested, lookup, MissionEdge, MissionGraph, MissionView};
use crate::scope_graph::{descendants, live, node_of, GraphView, Node, NodeGraph};
use crate::spine_budget::{
    connected, effective, effective_strictness, floors, lay_out, length_at, lemma_slot_from, link, plan_upto, plans_fit, segment_lengths, wired, required_minimum,
    required_minimum_of, slot_from, slot_index, SegmentBounds, SlotBinding, SlotPlan,
};
use crate::text::{decimal, decimal_text, same_text, strs};
use vstd::prelude::*;

verus! {

broadcast use Handle::lemma_parts_determine;

/// A validation error as its contents read, names and reasons as text.
pub enum ErrorView {
    /// Not enough scopes for the guaranteed slots and segments.
    BudgetTooSmall { needed: u32, available: u32 },
    /// A slot requires content nothing registered can satisfy.
    ContentUnavailable { slot: Seq<char>, content: ObjectId },
    /// A reference names a slot that does not exist.
    UnknownSlot { referenced_by: Seq<char>, name: Seq<char> },
    /// Two slots share a name.
    DuplicateSlot { name: Seq<char> },
    /// A slot requires an unlock granted only by a later slot.
    GrantOrderViolation { slot: Seq<char>, granted_by: Seq<char> },
    /// A slot needs more connections than the instance can supply.
    DegreeInfeasible { slot: Seq<char>, needed: u32, available: u32 },
    /// A slot's maximum degree cannot accommodate what the same slot also demands.
    DegreeContradiction { slot: Seq<char>, max: u32, required: u32, because: Seq<char> },
    /// A slot declared empty is also told to hold something.
    EmptyContradiction { slot: Seq<char>, because: Seq<char> },
    /// The template declares no slots at all.
    Empty,
    /// Two required spines target the same scope kind.
    ConflictingRequiredSpines { kind: NodeKind, first: ObjectId, second: ObjectId },
}

impl View for SpineError {
    type V = ErrorView;

    /// The error with its names and reasons as text.
    open spec fn view(&self) -> ErrorView {
        match *self {
            SpineError::BudgetTooSmall { needed, available } => ErrorView::BudgetTooSmall {
                needed,
                available,
            },
            SpineError::ContentUnavailable { slot, content } => ErrorView::ContentUnavailable {
                slot: slot@,
                content,
            },
            SpineError::UnknownSlot { referenced_by, name } => ErrorView::UnknownSlot {
                referenced_by: referenced_by@,
                name: name@,
            },
            SpineError::DuplicateSlot { name } => ErrorView::DuplicateSlot { name: name@ },
            SpineError::GrantOrderViolation { slot, granted_by } => ErrorView::GrantOrderViolation {
                slot: slot@,
                granted_by: granted_by@,
            },
            SpineError::DegreeInfeasible { slot, needed, available } => ErrorView::DegreeInfeasible {
                slot: slot@,
                needed,
                available,
            },
            SpineError::DegreeContradiction { slot, max, required, because } =>
                ErrorView::DegreeContradiction { slot: slot@, max, required, because: because@ },
            SpineError::EmptyContradiction { slot, because } => ErrorView::EmptyContradiction {
                slot: slot@,
                because: because@,
            },
            SpineError::Empty => ErrorView::Empty,
            SpineError::ConflictingRequiredSpines { kind, first, second } =>
                ErrorView::ConflictingRequiredSpines { kind, first, second },
        }
    }
}

impl View for SpineWarning {
    type V = (Seq<char>, Seq<char>);

    /// The subject and the detail.
    open spec fn view(&self) -> (Seq<char>, Seq<char>) {
        (self.subject@, self.detail@)
    }
}

/// A list of errors as their contents read.
pub open spec fn error_views(v: Seq<SpineError>) -> Seq<ErrorView> {
    v.map_values(|e: SpineError| e@)
}

/// A list of warnings as their contents read.
pub open spec fn warning_views(v: Seq<SpineWarning>) -> Seq<(Seq<char>, Seq<char>)> {
    v.map_values(|w: SpineWarning| w@)
}

/// A spine template as validation and instantiation read it. Slot `i` is named and bound by
/// `slots[i]`, demands `shapes[i]` of its topology and `contents[i]` of its contents, and plays
/// `roles[i]`; segment `k` runs as `segments[k]` says and is gated by `gates[k]`.
pub struct TemplateShape {
    /// The template's registered content id.
    pub id: ObjectId,
    /// Which scope kind an instance covers.
    pub applies_to: NodeKind,
    /// The template-wide strictness default.
    pub strictness: Strictness,
    /// Each slot's name and strictness override, in order.
    pub slots: Vec<SlotBinding>,
    /// Each slot's topology demands.
    pub shapes: Vec<SlotShape>,
    /// Each slot's content demands.
    pub contents: Vec<SlotContents>,
    /// The connective segments' ends and length bounds.
    pub segments: Vec<SegmentBounds>,
    /// What the path through each segment requires.
    pub gates: Vec<Option<UnlockRef>>,
    /// Each slot's structural role.
    pub roles: Vec<SlotRole>,
}

impl TemplateShape {
    /// Every slot has its demands and every segment its gate; no slot names so many adjacencies
    /// that a connection count could leave a `u32`.
    pub open spec fn wf(&self) -> bool {
        &&& self.shapes@.len() == self.slots@.len()
        &&& self.contents@.len() == self.slots@.len()
        &&& self.roles@.len() == self.slots@.len()
        &&& self.gates@.len() == self.segments@.len()
        &&& forall|i: int|
            0 <= i < self.shapes@.len() ==> #[trigger] self.shapes@[i].adjacent_to@.len()
                < u32::MAX
    }
}

/// Where the slot with this name stands, if one has it.
pub open spec fn index_of(t: TemplateShape, name: Seq<char>) -> Option<int> {
    slot_from(t.slots@, name, 0)
}

/// The name of slot `i`.
pub open spec fn name_of(t: TemplateShape, i: int) -> Seq<char> {
    t.slots@[i].name@
}

/// Is slot `i` binding, once the template default is applied?
pub open spec fn required_at(t: TemplateShape, i: int) -> bool {
    effective(t.slots@[i].strictness, t.strictness) == Strictness::Required
}

/// The scopes a template needs at the least.
pub open spec fn needed_of(t: TemplateShape) -> nat {
    required_minimum_of(t.slots@, t.strictness, t.segments@)
}

// ---------------------------------------------------------------------------------------------
// What each check reports
// ---------------------------------------------------------------------------------------------

/// One error for each of the first `k` slots whose name an earlier slot already has.
pub open spec fn duplicate_errors(t: TemplateShape, k: int) -> Seq<ErrorView>
    decreases k,
{
    if k <= 0 {
        seq![]
    } else {
        duplicate_errors(t, k - 1) + if index_of(t, name_of(t, k - 1)) != Some(k - 1) {
            seq![ErrorView::DuplicateSlot { name: name_of(t, k - 1) }]
        } else {
            seq![]
        }
    }
}

/// The budget error: the required slots and segment floors need more scopes than there are.
pub open spec fn budget_errors(t: TemplateShape, available: u32) -> Seq<ErrorView> {
    if needed_of(t) > available {
        seq![ErrorView::BudgetTooSmall { needed: needed_of(t) as u32, available }]
    } else {
        seq![]
    }
}

/// The budget warning: the required slots fit, but not every declared slot does.
pub open spec fn budget_warnings(t: TemplateShape, available: u32) -> Seq<(Seq<char>, Seq<char>)> {
    if t.slots@.len() > available && needed_of(t) <= available {
        seq![
            (
                id_text(t.id),
                decimal(t.slots@.len()) + " slots declared but only "@ + decimal(available as nat)
                    + " scopes available; softer slots will be dropped and reported"@,
            ),
        ]
    } else {
        seq![]
    }
}

/// For the first `k` must-contain entries of slot `i`: an error for each one not registered, if
/// the slot binds.
pub open spec fn must_errors(t: TemplateShape, reg: Seq<ObjectId>, i: int, k: int) -> Seq<ErrorView>
    decreases k,
{
    if k <= 0 {
        seq![]
    } else {
        let c = t.contents@[i].must_contain@[k - 1];
        must_errors(t, reg, i, k - 1) + if !reg.contains(c) && required_at(t, i) {
            seq![ErrorView::ContentUnavailable { slot: name_of(t, i), content: c }]
        } else {
            seq![]
        }
    }
}

/// For the first `k` must-contain entries of slot `i`: a warning for each one not registered, if
/// the slot does not bind, since it will be dropped.
pub open spec fn must_warnings(t: TemplateShape, reg: Seq<ObjectId>, i: int, k: int) -> Seq<
    (Seq<char>, Seq<char>),
>
    decreases k,
{
    if k <= 0 {
        seq![]
    } else {
        let c = t.contents@[i].must_contain@[k - 1];
        must_warnings(t, reg, i, k - 1) + if !reg.contains(c) && !required_at(t, i) {
            seq![(name_of(t, i), id_text(c) + " is not registered; this slot will be dropped"@)]
        } else {
            seq![]
        }
    }
}

/// For the first `k` prefer-contain entries of slot `i`: a warning for each one not registered.
pub open spec fn prefer_warnings(t: TemplateShape, reg: Seq<ObjectId>, i: int, k: int) -> Seq<
    (Seq<char>, Seq<char>),
>
    decreases k,
{
    if k <= 0 {
        seq![]
    } else {
        let c = t.contents@[i].prefer_contain@[k - 1];
        prefer_warnings(t, reg, i, k - 1) + if !reg.contains(c) {
            seq![(name_of(t, i), "preferred content "@ + id_text(c) + " is not registered"@)]
        } else {
            seq![]
        }
    }
}

/// A slot declared empty that is also told to hold something: one error per demand, in the
/// order must-contain, prefer-contain, grants.
pub open spec fn empty_errors(t: TemplateShape, i: int) -> Seq<ErrorView> {
    let c = t.contents@[i];
    if c.empty {
        (if c.must_contain@.len() > 0 {
            seq![ErrorView::EmptyContradiction { slot: name_of(t, i), because: "must_contain"@ }]
        } else {
            seq![]
        }) + (if c.prefer_contain@.len() > 0 {
            seq![ErrorView::EmptyContradiction { slot: name_of(t, i), because: "prefer_contain"@ }]
        } else {
            seq![]
        }) + (if c.grants is Some {
            seq![ErrorView::EmptyContradiction { slot: name_of(t, i), because: "grants"@ }]
        } else {
            seq![]
        })
    } else {
        seq![]
    }
}

/// For the first `k` adjacencies slot `i` declares: an error for each that names no slot.
pub open spec fn adjacency_errors(t: TemplateShape, i: int, k: int) -> Seq<ErrorView>
    decreases k,
{
    if k <= 0 {
        seq![]
    } else {
        let target = t.shapes@[i].adjacent_to@[k - 1]@;
        adjacency_errors(t, i, k - 1) + if index_of(t, target) is None {
            seq![ErrorView::UnknownSlot { referenced_by: name_of(t, i), name: target }]
        } else {
            seq![]
        }
    }
}

/// A slot that requires what another slot grants: that slot must exist and come earlier.
pub open spec fn requires_errors(t: TemplateShape, i: int) -> Seq<ErrorView> {
    match t.contents@[i].requires {
        Some(UnlockRef::GrantedBy(source)) => match index_of(t, source@) {
            None => seq![ErrorView::UnknownSlot { referenced_by: name_of(t, i), name: source@ }],
            Some(j) => if j >= i {
                seq![ErrorView::GrantOrderViolation { slot: name_of(t, i), granted_by: source@ }]
            } else {
                seq![]
            },
        },
        _ => seq![],
    }
}

/// Does adjacency `k` of slot `i` name a slot that the spine's own chain does not already join to
/// it, so that it costs a connection of its own?
pub open spec fn extra_adjacency(t: TemplateShape, i: int, k: int) -> bool {
    match index_of(t, t.shapes@[i].adjacent_to@[k]@) {
        Some(j) => j + 1 != i && i + 1 != j,
        None => false,
    }
}

/// How many of the first `k` adjacencies of slot `i` cost a connection of their own.
pub open spec fn extra_adjacencies(t: TemplateShape, i: int, k: int) -> nat
    decreases k,
{
    if k <= 0 {
        0
    } else {
        extra_adjacencies(t, i, k - 1) + if extra_adjacency(t, i, k - 1) {
            1nat
        } else {
            0nat
        }
    }
}

/// The connections slot `i` needs: the route in (every slot but the first has one) and each
/// declared adjacency beyond the chain.
pub open spec fn inbound_of(i: int) -> nat {
    if i > 0 {
        1
    } else {
        0
    }
}

/// Why a slot needs as many connections as it does.
pub open spec fn degree_reason(inbound: nat, extra: nat) -> Seq<char> {
    decimal(inbound) + " route in + "@ + decimal(extra) + " declared adjacenc"@ + if extra == 1 {
        "y"@
    } else {
        "ies"@
    }
}

/// A ceiling on a slot's connections must fit everything the same slot asks for, and its own
/// floor.
pub open spec fn degree_errors(t: TemplateShape, i: int) -> Seq<ErrorView> {
    let shape = t.shapes@[i];
    match shape.max_degree {
        Some(max) => {
            let extra = extra_adjacencies(t, i, shape.adjacent_to@.len() as int);
            let needed = inbound_of(i) + extra;
            (if needed > max {
                seq![
                    ErrorView::DegreeContradiction {
                        slot: name_of(t, i),
                        max,
                        required: needed as u32,
                        because: degree_reason(inbound_of(i), extra),
                    },
                ]
            } else {
                seq![]
            }) + match shape.min_degree {
                Some(min) => if min > max {
                    seq![
                        ErrorView::DegreeContradiction {
                            slot: name_of(t, i),
                            max,
                            required: min,
                            because: "min_degree"@,
                        },
                    ]
                } else {
                    seq![]
                },
                None => seq![],
            }
        },
        None => seq![],
    }
}

/// A binding slot that needs more neighbours than the instance has other scopes.
pub open spec fn infeasible_errors(t: TemplateShape, available: u32, i: int) -> Seq<ErrorView> {
    match t.shapes@[i].min_degree {
        Some(d) => if required_at(t, i) && d >= available {
            seq![
                ErrorView::DegreeInfeasible {
                    slot: name_of(t, i),
                    needed: d,
                    available: if available > 0 {
                        (available - 1) as u32
                    } else {
                        0
                    },
                },
            ]
        } else {
            seq![]
        },
        None => seq![],
    }
}

/// Every error slot `i` raises, in the order its checks run.
pub open spec fn slot_errors(t: TemplateShape, reg: Seq<ObjectId>, available: u32, i: int) -> Seq<
    ErrorView,
> {
    must_errors(t, reg, i, t.contents@[i].must_contain@.len() as int) + empty_errors(t, i)
        + adjacency_errors(t, i, t.shapes@[i].adjacent_to@.len() as int) + requires_errors(t, i)
        + degree_errors(t, i) + infeasible_errors(t, available, i)
}

/// Every warning slot `i` raises.
pub open spec fn slot_warnings(t: TemplateShape, reg: Seq<ObjectId>, i: int) -> Seq<
    (Seq<char>, Seq<char>),
> {
    must_warnings(t, reg, i, t.contents@[i].must_contain@.len() as int) + prefer_warnings(
        t,
        reg,
        i,
        t.contents@[i].prefer_contain@.len() as int,
    )
}

/// The errors of the first `k` slots.
pub open spec fn slots_errors(t: TemplateShape, reg: Seq<ObjectId>, available: u32, k: int) -> Seq<
    ErrorView,
>
    decreases k,
{
    if k <= 0 {
        seq![]
    } else {
        slots_errors(t, reg, available, k - 1) + slot_errors(t, reg, available, k - 1)
    }
}

/// The warnings of the first `k` slots.
pub open spec fn slots_warnings(t: TemplateShape, reg: Seq<ObjectId>, k: int) -> Seq<
    (Seq<char>, Seq<char>),
>
    decreases k,
{
    if k <= 0 {
        seq![]
    } else {
        slots_warnings(t, reg, k - 1) + slot_warnings(t, reg, k - 1)
    }
}

/// How segment `k` is named in a diagnostic.
pub open spec fn segment_label(t: TemplateShape, k: int) -> Seq<char> {
    "segment "@ + t.segments@[k].from@ + "→"@ + t.segments@[k].to@
}

/// Segment `k` must join slots that exist, and a slot it is gated by must not come after the
/// slot it reaches.
pub open spec fn segment_errors(t: TemplateShape, k: int) -> Seq<ErrorView> {
    let s = t.segments@[k];
    (if index_of(t, s.from@) is None {
        seq![ErrorView::UnknownSlot { referenced_by: segment_label(t, k), name: s.from@ }]
    } else {
        seq![]
    }) + (if index_of(t, s.to@) is None {
        seq![ErrorView::UnknownSlot { referenced_by: segment_label(t, k), name: s.to@ }]
    } else {
        seq![]
    }) + match t.gates@[k] {
        Some(UnlockRef::GrantedBy(source)) => match index_of(t, source@) {
            None => seq![
                ErrorView::UnknownSlot { referenced_by: segment_label(t, k), name: source@ },
            ],
            Some(g) => match index_of(t, s.to@) {
                Some(to) => if g > to {
                    seq![
                        ErrorView::GrantOrderViolation {
                            slot: segment_label(t, k),
                            granted_by: source@,
                        },
                    ]
                } else {
                    seq![]
                },
                None => seq![],
            },
        },
        _ => seq![],
    }
}

/// The errors of the first `k` segments.
pub open spec fn segments_errors(t: TemplateShape, k: int) -> Seq<ErrorView>
    decreases k,
{
    if k <= 0 {
        seq![]
    } else {
        segments_errors(t, k - 1) + segment_errors(t, k - 1)
    }
}

/// Everything that makes a template unusable, in the order validation finds it. A template with
/// no slots constrains nothing, and that is all there is to say of it.
pub open spec fn errors_of(t: TemplateShape, reg: Seq<ObjectId>, available: u32) -> Seq<ErrorView> {
    if t.slots@.len() == 0 {
        seq![ErrorView::Empty]
    } else {
        duplicate_errors(t, t.slots@.len() as int) + budget_errors(t, available) + slots_errors(
            t,
            reg,
            available,
            t.slots@.len() as int,
        ) + segments_errors(t, t.segments@.len() as int)
    }
}

/// Everything unlikely to hold, in the order validation finds it.
pub open spec fn warnings_of(t: TemplateShape, reg: Seq<ObjectId>, available: u32) -> Seq<
    (Seq<char>, Seq<char>),
> {
    if t.slots@.len() == 0 {
        seq![]
    } else {
        budget_warnings(t, available) + slots_warnings(t, reg, t.slots@.len() as int)
    }
}

// ---------------------------------------------------------------------------------------------
// Running the checks
// ---------------------------------------------------------------------------------------------

/// Append an error.
fn push_error(errs: &mut Vec<SpineError>, e: SpineError)
    ensures
        error_views(final(errs)@) == error_views(old(errs)@).push(e@),
{
    errs.push(e);
    proof {
        assert(error_views(errs@) =~= error_views(old(errs)@).push(e@));
    }
}

/// Append a warning.
fn push_warning(warns: &mut Vec<SpineWarning>, subject: String, detail: String)
    ensures
        warning_views(final(warns)@) == warning_views(old(warns)@).push((subject@, detail@)),
{
    warns.push(SpineWarning { subject, detail });
    proof {
        assert(warning_views(warns@) =~= warning_views(old(warns)@).push((subject@, detail@)));
    }
}

/// Is this content registered?
fn is_registered(reg: &[ObjectId], c: ObjectId) -> (b: bool)
    ensures
        b == reg@.contains(c),
{
    let mut i: usize = 0;
    while i < reg.len()
        invariant
            i <= reg@.len(),
            forall|j: int| 0 <= j < i ==> reg@[j] != c,
        decreases reg@.len() - i,
    {
        if reg[i] == c {
            proof {
                assert(reg@[i as int] == c);
            }
            return true;
        }
        i += 1;
    }
    false
}

/// Where the slot with this name stands.
fn find_slot(t: &TemplateShape, name: &str) -> (r: Option<usize>)
    ensures
        match r {
            Some(i) => index_of(*t, name@) == Some(i as int) && i < t.slots@.len(),
            None => index_of(*t, name@) is None,
        },
{
    let r = slot_index(t.slots.as_slice(), name);
    proof {
        lemma_slot_from(t.slots@, name@, 0);
    }
    r
}

/// Report each slot whose name an earlier slot already has.
fn check_duplicates(t: &TemplateShape, errs: &mut Vec<SpineError>)
    ensures
        error_views(final(errs)@) == error_views(old(errs)@) + duplicate_errors(
            *t,
            t.slots@.len() as int,
        ),
{
    let mut k: usize = 0;
    while k < t.slots.len()
        invariant
            k <= t.slots@.len(),
            error_views(errs@) == error_views(old(errs)@) + duplicate_errors(*t, k as int),
        decreases t.slots@.len() - k,
    {
        let here = find_slot(t, t.slots[k].name.as_str());
        let first = match here {
            Some(j) => j == k,
            None => false,
        };
        if !first {
            push_error(errs, SpineError::DuplicateSlot { name: t.slots[k].name.clone() });
        }
        proof {
            assert(error_views(errs@) =~= error_views(old(errs)@) + duplicate_errors(
                *t,
                k + 1,
            ));
        }
        k += 1;
    }
}

/// Report the must-contain content of slot `i` that is not registered.
fn check_must(
    t: &TemplateShape,
    reg: &[ObjectId],
    i: usize,
    errs: &mut Vec<SpineError>,
    warns: &mut Vec<SpineWarning>,
)
    requires
        t.wf(),
        i < t.slots@.len(),
    ensures
        error_views(final(errs)@) == error_views(old(errs)@) + must_errors(
            *t,
            reg@,
            i as int,
            t.contents@[i as int].must_contain@.len() as int,
        ),
        warning_views(final(warns)@) == warning_views(old(warns)@) + must_warnings(
            *t,
            reg@,
            i as int,
            t.contents@[i as int].must_contain@.len() as int,
        ),
{
    let required = effective_strictness(t.slots[i].strictness, t.strictness)
        == Strictness::Required;
    let must = &t.contents[i].must_contain;
    let mut k: usize = 0;
    while k < must.len()
        invariant
            t.wf(),
            i < t.slots@.len(),
            must@ == t.contents@[i as int].must_contain@,
            required == required_at(*t, i as int),
            k <= must@.len(),
            error_views(errs@) == error_views(old(errs)@) + must_errors(*t, reg@, i as int, k as int),
            warning_views(warns@) == warning_views(old(warns)@) + must_warnings(
                *t,
                reg@,
                i as int,
                k as int,
            ),
        decreases must@.len() - k,
    {
        let c = must[k];
        if !is_registered(reg, c) {
            if required {
                push_error(
                    errs,
                    SpineError::ContentUnavailable { slot: t.slots[i].name.clone(), content: c },
                );
            } else {
                let mut detail = c.to_string();
                detail.append(" is not registered; this slot will be dropped");
                push_warning(warns, t.slots[i].name.clone(), detail);
            }
        }
        proof {
            assert(error_views(errs@) =~= error_views(old(errs)@) + must_errors(
                *t,
                reg@,
                i as int,
                k + 1,
            ));
            assert(warning_views(warns@) =~= warning_views(old(warns)@) + must_warnings(
                *t,
                reg@,
                i as int,
                k + 1,
            ));
        }
        k += 1;
    }
}

/// Warn of the preferred content of slot `i` that is not registered.
fn check_prefer(t: &TemplateShape, reg: &[ObjectId], i: usize, warns: &mut Vec<SpineWarning>)
    requires
        t.wf(),
        i < t.slots@.len(),
    ensures
        warning_views(final(warns)@) == warning_views(old(warns)@) + prefer_warnings(
            *t,
            reg@,
            i as int,
            t.contents@[i as int].prefer_contain@.len() as int,
        ),
{
    let prefer = &t.contents[i].prefer_contain;
    let mut k: usize = 0;
    while k < prefer.len()
        invariant
            t.wf(),
            i < t.slots@.len(),
            prefer@ == t.contents@[i as int].prefer_contain@,
            k <= prefer@.len(),
            warning_views(warns@) == warning_views(old(warns)@) + prefer_warnings(
                *t,
                reg@,
                i as int,
                k as int,
            ),
        decreases prefer@.len() - k,
    {
        let c = prefer[k];
        if !is_registered(reg, c) {
            let mut detail = String::from_str("preferred content ");
            let id = c.to_string();
            detail.append(id.as_str());
            detail.append(" is not registered");
            push_warning(warns, t.slots[i].name.clone(), detail);
        }
        proof {
            assert(warning_views(warns@) =~= warning_views(old(warns)@) + prefer_warnings(
                *t,
                reg@,
                i as int,
                k + 1,
            ));
        }
        k += 1;
    }
}

/// Report what slot `i` is told to hold although declared empty.
fn check_empty(t: &TemplateShape, i: usize, errs: &mut Vec<SpineError>)
    requires
        t.wf(),
        i < t.slots@.len(),
    ensures
        error_views(final(errs)@) == error_views(old(errs)@) + empty_errors(*t, i as int),
{
    let c = &t.contents[i];
    if c.empty {
        if c.must_contain.len() > 0 {
            push_error(
                errs,
                SpineError::EmptyContradiction {
                    slot: t.slots[i].name.clone(),
                    because: String::from_str("must_contain"),
                },
            );
        }
        let ghost after_must = errs@;
        if c.prefer_contain.len() > 0 {
            push_error(
                errs,
                SpineError::EmptyContradiction {
                    slot: t.slots[i].name.clone(),
                    because: String::from_str("prefer_contain"),
                },
            );
        }
        let ghost after_prefer = errs@;
        if c.grants.is_some() {
            push_error(
                errs,
                SpineError::EmptyContradiction {
                    slot: t.slots[i].name.clone(),
                    because: String::from_str("grants"),
                },
            );
        }
        proof {
            assert(error_views(errs@) =~= error_views(old(errs)@) + empty_errors(*t, i as int));
        }
    } else {
        proof {
            assert(error_views(errs@) =~= error_views(old(errs)@) + empty_errors(*t, i as int));
        }
    }
}

/// Report the adjacencies of slot `i` that name no slot.
fn check_adjacency(t: &TemplateShape, i: usize, errs: &mut Vec<SpineError>)
    requires
        t.wf(),
        i < t.slots@.len(),
    ensures
        error_views(final(errs)@) == error_views(old(errs)@) + adjacency_errors(
            *t,
            i as int,
            t.shapes@[i as int].adjacent_to@.len() as int,
        ),
{
    let adj = &t.shapes[i].adjacent_to;
    let mut k: usize = 0;
    while k < adj.len()
        invariant
            t.wf(),
            i < t.slots@.len(),
            adj@ == t.shapes@[i as int].adjacent_to@,
            k <= adj@.len(),
            error_views(errs@) == error_views(old(errs)@) + adjacency_errors(
                *t,
                i as int,
                k as int,
            ),
        decreases adj@.len() - k,
    {
        if find_slot(t, adj[k].as_str()).is_none() {
            push_error(
                errs,
                SpineError::UnknownSlot { referenced_by: t.slots[i].name.clone(), name: adj[k].clone() },
            );
        }
        proof {
            assert(error_views(errs@) =~= error_views(old(errs)@) + adjacency_errors(
                *t,
                i as int,
                k + 1,
            ));
        }
        k += 1;
    }
}

/// Report a grant slot `i` requires that no earlier slot gives.
fn check_requires(t: &TemplateShape, i: usize, errs: &mut Vec<SpineError>)
    requires
        t.wf(),
        i < t.slots@.len(),
    ensures
        error_views(final(errs)@) == error_views(old(errs)@) + requires_errors(*t, i as int),
{
    match &t.contents[i].requires {
        Some(UnlockRef::GrantedBy(source)) => {
            match find_slot(t, source.as_str()) {
                None => {
                    push_error(
                        errs,
                        SpineError::UnknownSlot {
                            referenced_by: t.slots[i].name.clone(),
                            name: source.clone(),
                        },
                    );
                },
                Some(j) => {
                    if j >= i {
                        push_error(
                            errs,
                            SpineError::GrantOrderViolation {
                                slot: t.slots[i].name.clone(),
                                granted_by: source.clone(),
                            },
                        );
                    }
                },
            }
        },
        _ => {},
    }
    proof {
        assert(error_views(errs@) =~= error_views(old(errs)@) + requires_errors(*t, i as int));
    }
}

/// How many of slot `i`'s adjacencies cost a connection of their own.
fn count_extra(t: &TemplateShape, i: usize) -> (n: u32)
    requires
        t.wf(),
        i < t.slots@.len(),
    ensures
        n == extra_adjacencies(*t, i as int, t.shapes@[i as int].adjacent_to@.len() as int),
        n < u32::MAX,
{
    let adj = &t.shapes[i].adjacent_to;
    let slot_count = t.slots.len();
    let mut n: u32 = 0;
    let mut k: usize = 0;
    while k < adj.len()
        invariant
            t.wf(),
            i < t.slots@.len(),
            slot_count == t.slots@.len(),
            adj@ == t.shapes@[i as int].adjacent_to@,
            adj@.len() < u32::MAX,
            k <= adj@.len(),
            n == extra_adjacencies(*t, i as int, k as int),
            n <= k,
        decreases adj@.len() - k,
    {
        let extra = match find_slot(t, adj[k].as_str()) {
            Some(j) => j + 1 != i && i + 1 != j,
            None => false,
        };
        assert(extra == extra_adjacency(*t, i as int, k as int));
        if extra {
            n += 1;
        }
        k += 1;
    }
    n
}

/// Report a ceiling on slot `i`'s connections that cannot hold.
fn check_degree(t: &TemplateShape, i: usize, errs: &mut Vec<SpineError>)
    requires
        t.wf(),
        i < t.slots@.len(),
    ensures
        error_views(final(errs)@) == error_views(old(errs)@) + degree_errors(*t, i as int),
{
    let shape = &t.shapes[i];
    match shape.max_degree {
        Some(max) => {
            let inbound: u32 = if i > 0 {
                1
            } else {
                0
            };
            let extra = count_extra(t, i);
            let needed = inbound + extra;
            if needed > max {
                let mut because = decimal_text(inbound as u64);
                because.append(" route in + ");
                let e = decimal_text(extra as u64);
                because.append(e.as_str());
                because.append(" declared adjacenc");
                if extra == 1 {
                    because.append("y");
                } else {
                    because.append("ies");
                }
                push_error(
                    errs,
                    SpineError::DegreeContradiction {
                        slot: t.slots[i].name.clone(),
                        max,
                        required: needed,
                        because,
                    },
                );
            }
            match shape.min_degree {
                Some(min) => {
                    if min > max {
                        push_error(
                            errs,
                            SpineError::DegreeContradiction {
                                slot: t.slots[i].name.clone(),
                                max,
                                required: min,
                                because: String::from_str("min_degree"),
                            },
                        );
                    }
                },
                None => {},
            }
        },
        None => {},
    }
    proof {
        assert(error_views(errs@) =~= error_views(old(errs)@) + degree_errors(*t, i as int));
    }
}

/// Report a binding slot needing more neighbours than the instance has.
fn check_infeasible(t: &TemplateShape, available: u32, i: usize, errs: &mut Vec<SpineError>)
    requires
        t.wf(),
        i < t.slots@.len(),
    ensures
        error_views(final(errs)@) == error_views(old(errs)@) + infeasible_errors(
            *t,
            available,
            i as int,
        ),
{
    let required = effective_strictness(t.slots[i].strictness, t.strictness)
        == Strictness::Required;
    match t.shapes[i].min_degree {
        Some(d) => {
            if required && d >= available {
                let others = if available > 0 {
                    available - 1
                } else {
                    0
                };
                push_error(
                    errs,
                    SpineError::DegreeInfeasible {
                        slot: t.slots[i].name.clone(),
                        needed: d,
                        available: others,
                    },
                );
            }
        },
        None => {},
    }
    proof {
        assert(error_views(errs@) =~= error_views(old(errs)@) + infeasible_errors(
            *t,
            available,
            i as int,
        ));
    }
}

/// Every check of slot `i`.
#[verifier::spinoff_prover]
#[verifier::rlimit(40)]
fn check_slot(
    t: &TemplateShape,
    reg: &[ObjectId],
    available: u32,
    i: usize,
    errs: &mut Vec<SpineError>,
    warns: &mut Vec<SpineWarning>,
)
    requires
        t.wf(),
        i < t.slots@.len(),
    ensures
        error_views(final(errs)@) == error_views(old(errs)@) + slot_errors(
            *t,
            reg@,
            available,
            i as int,
        ),
        warning_views(final(warns)@) == warning_views(old(warns)@) + slot_warnings(
            *t,
            reg@,
            i as int,
        ),
{
    let ghost e0 = error_views(errs@);
    let ghost w0 = warning_views(warns@);
    check_must(t, reg, i, errs, warns);
    check_prefer(t, reg, i, warns);
    check_empty(t, i, errs);
    check_adjacency(t, i, errs);
    check_requires(t, i, errs);
    check_degree(t, i, errs);
    check_infeasible(t, available, i, errs);
    proof {
        assert(error_views(errs@) =~= e0 + slot_errors(*t, reg@, available, i as int));
        assert(warning_views(warns@) =~= w0 + slot_warnings(*t, reg@, i as int));
    }
}

/// How segment `k` is named in a diagnostic.
fn label_of(t: &TemplateShape, k: usize) -> (s: String)
    requires
        k < t.segments@.len(),
    ensures
        s@ == segment_label(*t, k as int),
{
    let mut s = String::from_str("segment ");
    s.append(t.segments[k].from.as_str());
    s.append("→");
    s.append(t.segments[k].to.as_str());
    s
}

/// Report what is wrong with segment `k`'s ends and gate.
fn check_segment(t: &TemplateShape, k: usize, errs: &mut Vec<SpineError>)
    requires
        t.wf(),
        k < t.segments@.len(),
    ensures
        error_views(final(errs)@) == error_views(old(errs)@) + segment_errors(*t, k as int),
{
    let seg = &t.segments[k];
    if find_slot(t, seg.from.as_str()).is_none() {
        push_error(
            errs,
            SpineError::UnknownSlot { referenced_by: label_of(t, k), name: seg.from.clone() },
        );
    }
    let to = find_slot(t, seg.to.as_str());
    if to.is_none() {
        push_error(
            errs,
            SpineError::UnknownSlot { referenced_by: label_of(t, k), name: seg.to.clone() },
        );
    }
    match &t.gates[k] {
        Some(UnlockRef::GrantedBy(source)) => {
            match find_slot(t, source.as_str()) {
                None => {
                    push_error(
                        errs,
                        SpineError::UnknownSlot { referenced_by: label_of(t, k), name: source.clone() },
                    );
                },
                Some(g) => {
                    match to {
                        Some(target) => {
                            if g > target {
                                push_error(
                                    errs,
                                    SpineError::GrantOrderViolation {
                                        slot: label_of(t, k),
                                        granted_by: source.clone(),
                                    },
                                );
                            }
                        },
                        None => {},
                    }
                },
            }
        },
        _ => {},
    }
    proof {
        assert(error_views(errs@) =~= error_views(old(errs)@) + segment_errors(*t, k as int));
    }
}

/// Run every check, in order.
#[verifier::spinoff_prover]
#[verifier::rlimit(40)]
fn validate_shape(t: &TemplateShape, registered: &[ObjectId], available_scopes: u32) -> (v:
    SpineValidation)
    requires
        t.wf(),
        needed_of(*t) <= u32::MAX,
    ensures
        error_views(v.errors@) == errors_of(*t, registered@, available_scopes),
        warning_views(v.warnings@) == warnings_of(*t, registered@, available_scopes),
{
    let mut errors: Vec<SpineError> = Vec::new();
    let mut warnings: Vec<SpineWarning> = Vec::new();
    proof {
        assert(error_views(errors@) =~= Seq::<ErrorView>::empty());
        assert(warning_views(warnings@) =~= Seq::<(Seq<char>, Seq<char>)>::empty());
    }
    if t.slots.len() == 0 {
        push_error(&mut errors, SpineError::Empty);
        proof {
            assert(error_views(errors@) =~= errors_of(*t, registered@, available_scopes));
        }
        return SpineValidation { errors, warnings };
    }
    check_duplicates(t, &mut errors);
    let needed = required_minimum(t.slots.as_slice(), t.strictness, t.segments.as_slice());
    if needed > available_scopes {
        push_error(&mut errors, SpineError::BudgetTooSmall { needed, available: available_scopes });
    }
    let declared = t.slots.len() as u64;
    if declared > available_scopes as u64 && needed <= available_scopes {
        let subject = t.id.to_string();
        let mut detail = decimal_text(declared);
        detail.append(" slots declared but only ");
        let a = decimal_text(available_scopes as u64);
        detail.append(a.as_str());
        detail.append(" scopes available; softer slots will be dropped and reported");
        push_warning(&mut warnings, subject, detail);
    }
    proof {
        assert(error_views(errors@) =~= duplicate_errors(*t, t.slots@.len() as int) + budget_errors(
            *t,
            available_scopes,
        ));
        assert(warning_views(warnings@) =~= budget_warnings(*t, available_scopes));
    }
    let ghost e0 = error_views(errors@);
    let ghost w0 = warning_views(warnings@);
    let mut i: usize = 0;
    while i < t.slots.len()
        invariant
            t.wf(),
            i <= t.slots@.len(),
            error_views(errors@) == e0 + slots_errors(*t, registered@, available_scopes, i as int),
            warning_views(warnings@) == w0 + slots_warnings(*t, registered@, i as int),
        decreases t.slots@.len() - i,
    {
        check_slot(t, registered, available_scopes, i, &mut errors, &mut warnings);
        proof {
            assert(error_views(errors@) =~= e0 + slots_errors(
                *t,
                registered@,
                available_scopes,
                i + 1,
            ));
            assert(warning_views(warnings@) =~= w0 + slots_warnings(*t, registered@, i + 1));
        }
        i += 1;
    }
    let ghost e1 = error_views(errors@);
    let mut k: usize = 0;
    while k < t.segments.len()
        invariant
            t.wf(),
            k <= t.segments@.len(),
            error_views(errors@) == e1 + segments_errors(*t, k as int),
        decreases t.segments@.len() - k,
    {
        check_segment(t, k, &mut errors);
        proof {
            assert(error_views(errors@) =~= e1 + segments_errors(*t, k + 1));
        }
        k += 1;
    }
    proof {
        assert(error_views(errors@) =~= errors_of(*t, registered@, available_scopes));
        assert(warning_views(warnings@) =~= warnings_of(*t, registered@, available_scopes));
    }
    SpineValidation { errors, warnings }
}

impl TemplateShape {
    /// Check this spine against the content that is registered and the scopes an instance will
    /// have. Only required conditions fail; a soft slot that will not fit, or content it may go
    /// without, is a warning. Validation is the feature, not a safety net: a guarantee is only
    /// useful if its failure is found while authoring, with the arithmetic shown.
    pub fn validate(&self, registered: &[ObjectId], available_scopes: u32) -> (v: SpineValidation)
        requires
            self.wf(),
            needed_of(*self) <= u32::MAX,
        ensures
            error_views(v.errors@) == errors_of(*self, registered@, available_scopes),
            warning_views(v.warnings@) == warnings_of(*self, registered@, available_scopes),
    {
        validate_shape(self, registered, available_scopes)
    }
}

// ---------------------------------------------------------------------------------------------
// Wiring an instance
// ---------------------------------------------------------------------------------------------

/// The scope slot `i` was placed on, if it was.
pub open spec fn placed_at<B>(plans: Seq<SlotPlan>, available: Seq<Handle<Node<B>>>, i: int) -> Option<
    Handle<Node<B>>,
> {
    match plans[i] {
        SlotPlan::Placed { scope, .. } => Some(available[scope as int]),
        _ => None,
    }
}

/// The scope of the last of the first `k` slots that has this name and was placed: what a table
/// from placed slot names to scopes, filled in slot order, holds for the name.
pub open spec fn named_scope<B>(
    t: TemplateShape,
    placed: Seq<Option<Handle<Node<B>>>>,
    name: Seq<char>,
    k: int,
) -> Option<Handle<Node<B>>>
    decreases k,
{
    if k <= 0 {
        None
    } else if name_of(t, k - 1) == name && placed[k - 1] is Some {
        placed[k - 1]
    } else {
        named_scope(t, placed, name, k - 1)
    }
}

/// The graph after slot `i`'s first `k` declared adjacencies are joined, where both ends were
/// placed.
pub open spec fn adjacency_wired<B>(
    m: MissionView<B>,
    t: TemplateShape,
    placed: Seq<Option<Handle<Node<B>>>>,
    i: int,
    k: int,
) -> MissionView<B>
    decreases k,
{
    if k <= 0 {
        m
    } else {
        let m1 = adjacency_wired(m, t, placed, i, k - 1);
        match (placed[i], named_scope(t, placed, t.shapes@[i].adjacent_to@[k - 1]@, t.slots@.len() as int)) {
            (Some(from), Some(to)) => link(m1, from, to),
            _ => m1,
        }
    }
}

/// The graph after the adjacencies of the first `n` slots are joined.
pub open spec fn adjacencies_wired<B>(
    m: MissionView<B>,
    t: TemplateShape,
    placed: Seq<Option<Handle<Node<B>>>>,
    n: int,
) -> MissionView<B>
    decreases n,
{
    if n <= 0 {
        m
    } else {
        let m1 = adjacencies_wired(m, t, placed, n - 1);
        adjacency_wired(m1, t, placed, n - 1, t.shapes@[n - 1].adjacent_to@.len() as int)
    }
}

/// Each slot's scope, if it was placed.
pub fn placed_scopes<B>(plans: &[SlotPlan], available: &[Handle<Node<B>>]) -> (v: Vec<
    Option<Handle<Node<B>>>,
>)
    requires
        plans_fit(plans@, available@.len() as int),
    ensures
        v@.len() == plans@.len(),
        forall|i: int| 0 <= i < plans@.len() ==> #[trigger] v@[i] == placed_at(plans@, available@, i),
{
    let mut v: Vec<Option<Handle<Node<B>>>> = Vec::new();
    let mut i: usize = 0;
    while i < plans.len()
        invariant
            i <= plans@.len(),
            plans_fit(plans@, available@.len() as int),
            v@.len() == i,
            forall|j: int| 0 <= j < i ==> #[trigger] v@[j] == placed_at(plans@, available@, j),
        decreases plans@.len() - i,
    {
        match plans[i] {
            SlotPlan::Placed { scope, .. } => {
                assert(scope < available@.len());
                v.push(Some(available[scope]));
            },
            _ => {
                v.push(None);
            },
        }
        i += 1;
    }
    v
}

/// The scope the last placed slot with this name landed on.
fn find_named<B>(t: &TemplateShape, placed: &[Option<Handle<Node<B>>>], name: &str) -> (r: Option<
    Handle<Node<B>>,
>)
    requires
        t.wf(),
        placed@.len() == t.slots@.len(),
    ensures
        r == named_scope(*t, placed@, name@, t.slots@.len() as int),
{
    let mut k: usize = t.slots.len();
    while k > 0
        invariant
            t.wf(),
            k <= t.slots@.len(),
            placed@.len() == t.slots@.len(),
            named_scope(*t, placed@, name@, t.slots@.len() as int) == named_scope(
                *t,
                placed@,
                name@,
                k as int,
            ),
        decreases k,
    {
        if placed[k - 1].is_some() && same_text(t.slots[k - 1].name.as_str(), name) {
            return placed[k - 1];
        }
        k -= 1;
    }
    None
}

/// Join each placed slot directly to every placed slot its shape declares it adjacent to.
pub fn wire_adjacency<B>(t: &TemplateShape, placed: &[Option<Handle<Node<B>>>], mission: &mut MissionGraph<B>)
    requires
        t.wf(),
        placed@.len() == t.slots@.len(),
        old(mission).wf(),
    ensures
        final(mission).wf(),
        final(mission)@ == (MissionView::<B> { edges: final(mission)@.edges, ..old(mission)@ }),
        final(mission)@ == adjacencies_wired(old(mission)@, *t, placed@, t.slots@.len() as int),
{
    let mut i: usize = 0;
    while i < t.slots.len()
        invariant
            t.wf(),
            i <= t.slots@.len(),
            placed@.len() == t.slots@.len(),
            mission.wf(),
                mission@ == (MissionView::<B> { edges: mission@.edges, ..old(mission)@ }),
            mission@ == adjacencies_wired(old(mission)@, *t, placed@, i as int),
        decreases t.slots@.len() - i,
    {
        let ghost m0 = mission@;
        let adj = &t.shapes[i].adjacent_to;
        let mut k: usize = 0;
        while k < adj.len()
            invariant
                t.wf(),
                i < t.slots@.len(),
                placed@.len() == t.slots@.len(),
                adj@ == t.shapes@[i as int].adjacent_to@,
                k <= adj@.len(),
                mission.wf(),
                mission@ == (MissionView::<B> { edges: mission@.edges, ..old(mission)@ }),
                mission@ == adjacency_wired(m0, *t, placed@, i as int, k as int),
            decreases adj@.len() - k,
        {
            match (placed[i], find_named(t, placed, adj[k].as_str())) {
                (Some(from), Some(to)) => {
                    if !mission.connects(from, to) {
                        mission.add_edge(MissionEdge::open(from, to));
                    }
                },
                _ => {},
            }
            k += 1;
        }
        i += 1;
    }
}

/// Where the first placed slot sharing slot `i`'s name landed.
fn scope_of_slot<B>(t: &TemplateShape, placed: &[Option<Handle<Node<B>>>], i: usize) -> (r: Option<
    Handle<Node<B>>,
>)
    requires
        t.wf(),
        placed@.len() == t.slots@.len(),
        i < t.slots@.len(),
    ensures
        r == first_scope(*t, placed@, i as int),
{
    match find_first_placed(t, placed, t.slots[i].name.as_str()) {
        Some(j) => placed[j],
        None => None,
    }
}

/// The graph and the running degree after slot scope `scope`, wanting `want` connections,
/// has tried the first `k` candidates: each candidate that is not the scope itself and not
/// already joined to it is joined while the degree is short, and counts when no cap refuses it.
pub open spec fn degree_filled<B>(
    m: MissionView<B>,
    scope: Handle<Node<B>>,
    want: u32,
    current: int,
    candidates: Seq<Handle<Node<B>>>,
    k: int,
) -> (MissionView<B>, int)
    decreases k,
{
    if k <= 0 {
        (m, current)
    } else {
        let (m1, d) = degree_filled(m, scope, want, current, candidates, k - 1);
        let c = candidates[k - 1];
        if d >= want || c == scope || connected(m1, scope, c) {
            (m1, d)
        } else {
            let e = MissionEdge::<B> {
                from: scope,
                to: c,
                rule: Rule::Always,
                reversible: true,
                is_shortcut: false,
            };
            (edge_requested(m1, e), if at_cap(m1, scope) || at_cap(m1, c) {
                d
            } else {
                d + 1
            })
        }
    }
}

/// The graph after the first `n` slots with a minimum degree have been given connections to
/// other available scopes, in order, until they reach it.
pub open spec fn degrees_filled<B>(
    m: MissionView<B>,
    t: TemplateShape,
    placed: Seq<Option<Handle<Node<B>>>>,
    available: Seq<Handle<Node<B>>>,
    n: int,
) -> MissionView<B>
    decreases n,
{
    if n <= 0 {
        m
    } else {
        let m1 = degrees_filled(m, t, placed, available, n - 1);
        match (t.shapes@[n - 1].min_degree, first_scope(t, placed, n - 1)) {
            (Some(want), Some(scope)) => degree_filled(
                m1,
                scope,
                want,
                degree_of(m1.edges, scope) as u32 as int,
                available,
                available.len() as int,
            ).0,
            _ => m1,
        }
    }
}

/// Give one placed slot connections until it reaches its minimum degree.
fn fill_degree<B>(
    mission: &mut MissionGraph<B>,
    scope: Handle<Node<B>>,
    want: u32,
    available: &[Handle<Node<B>>],
)
    requires
        old(mission).wf(),
    ensures
        final(mission).wf(),
        final(mission)@ == (MissionView::<B> { edges: final(mission)@.edges, ..old(mission)@ }),
        final(mission)@ == degree_filled(
            old(mission)@,
            scope,
            want,
            degree_of(old(mission)@.edges, scope) as u32 as int,
            available@,
            available@.len() as int,
        ).0,
{
    let ghost start = degree_of(old(mission)@.edges, scope) as u32 as int;
    let mut current = mission.degree(scope);
    let mut k: usize = 0;
    while k < available.len()
        invariant
            mission.wf(),
                mission@ == (MissionView::<B> { edges: mission@.edges, ..old(mission)@ }),
            k <= available@.len(),
            (mission@, current as int) == degree_filled(old(mission)@, scope, want, start, available@, k as int),
        decreases available@.len() - k,
    {
        let c = available[k];
        let ghost m1 = mission@;
        let ghost d = current as int;
        proof {
            assert(degree_filled(old(mission)@, scope, want, start, available@, k as int) == (m1, d));
        }
        if current >= want || c == scope || mission.connects(scope, c) {
            proof {
                assert(degree_filled(old(mission)@, scope, want, start, available@, k + 1) == (m1, d));
            }
        } else {
            let e = MissionEdge::open(scope, c);
            let r = mission.add_edge(e);
            if r.is_some() {
                current += 1;
            }
            proof {
                assert(degree_filled(old(mission)@, scope, want, start, available@, k + 1) == (
                    edge_requested(m1, e),
                    if at_cap(m1, scope) || at_cap(m1, c) {
                        d
                    } else {
                        d + 1
                    },
                ));
            }
        }
        k += 1;
    }
}

/// Add connections until each placed slot meets its minimum degree: requirements first, so a
/// slot gets its entrances before any later pass adds loops.
pub fn satisfy_degrees<B>(
    t: &TemplateShape,
    placed: &[Option<Handle<Node<B>>>],
    available: &[Handle<Node<B>>],
    mission: &mut MissionGraph<B>,
)
    requires
        t.wf(),
        placed@.len() == t.slots@.len(),
        old(mission).wf(),
    ensures
        final(mission).wf(),
        final(mission)@ == (MissionView::<B> { edges: final(mission)@.edges, ..old(mission)@ }),
        final(mission)@ == degrees_filled(old(mission)@, *t, placed@, available@, t.slots@.len() as int),
{
    let mut i: usize = 0;
    while i < t.slots.len()
        invariant
            t.wf(),
            i <= t.slots@.len(),
            placed@.len() == t.slots@.len(),
            mission.wf(),
                mission@ == (MissionView::<B> { edges: mission@.edges, ..old(mission)@ }),
            mission@ == degrees_filled(old(mission)@, *t, placed@, available@, i as int),
        decreases t.slots@.len() - i,
    {
        match (t.shapes[i].min_degree, scope_of_slot(t, placed, i)) {
            (Some(want), Some(scope)) => {
                fill_degree(mission, scope, want, available);
            },
            _ => {},
        }
        i += 1;
    }
}

/// Why a cap could not take hold: the scope already had more connections than it allows.
pub open spec fn cap_reason(cap: u32, actual: u32) -> Seq<char> {
    "max_degree "@ + decimal(cap as nat) + " could not be applied: the scope already had "@
        + decimal(actual as nat)
        + " connections when the spine ran — seed the spine into an empty MissionGraph and call connect_scopes afterwards"@
}

/// The relaxations the first `n` capped, placed slots report: one for each whose scope already
/// has more connections than its cap, as the slot's name and the reason.
pub open spec fn cap_relaxations<B>(
    m: MissionView<B>,
    t: TemplateShape,
    placed: Seq<Option<Handle<Node<B>>>>,
    n: int,
) -> Seq<(Seq<char>, Seq<char>)>
    decreases n,
{
    if n <= 0 {
        seq![]
    } else {
        cap_relaxations(m, t, placed, n - 1) + match (t.shapes@[n - 1].max_degree, first_scope(t, placed, n - 1)) {
            (Some(cap), Some(scope)) => if degree_of(m.edges, scope) as u32 > cap {
                seq![(name_of(t, n - 1), cap_reason(cap, degree_of(m.edges, scope) as u32))]
            } else {
                seq![]
            },
            _ => seq![],
        }
    }
}

/// The cap the first `n` slots set on `x`: that of the last capped slot placed on it.
pub open spec fn cap_set<B>(
    t: TemplateShape,
    placed: Seq<Option<Handle<Node<B>>>>,
    x: Handle<Node<B>>,
    n: int,
) -> Option<u32>
    decreases n,
{
    if n <= 0 {
        None
    } else {
        match (t.shapes@[n - 1].max_degree, first_scope(t, placed, n - 1)) {
            (Some(cap), Some(scope)) => if scope == x {
                Some(cap)
            } else {
                cap_set(t, placed, x, n - 1)
            },
            _ => cap_set(t, placed, x, n - 1),
        }
    }
}

/// A relaxation list as the slot names and reasons it holds.
pub open spec fn relaxation_views(v: Seq<Relaxation>) -> Seq<(Seq<char>, Seq<char>)> {
    v.map_values(|r: Relaxation| (r.slot@, r.reason@))
}

/// Freeze each capped slot's connectivity on the mission graph, after the spine has wired its own
/// edges, so that a cap never blocks the structure the spine promised; a slot already over its
/// cap is reported, not silently accepted.
pub fn apply_degree_caps<B>(
    t: &TemplateShape,
    placed: &[Option<Handle<Node<B>>>],
    mission: &mut MissionGraph<B>,
    relaxations: &mut Vec<Relaxation>,
)
    requires
        t.wf(),
        placed@.len() == t.slots@.len(),
        old(mission).wf(),
    ensures
        final(mission).wf(),
        final(mission)@ == (MissionView::<B> { caps: final(mission)@.caps, ..old(mission)@ }),
        forall|x: Handle<Node<B>>| #[trigger] lookup(final(mission)@.caps, x) == match cap_set(
            *t,
            placed@,
            x,
            t.slots@.len() as int,
        ) {
            Some(c) => Some(c),
            None => lookup(old(mission)@.caps, x),
        },
        relaxation_views(final(relaxations)@) == relaxation_views(old(relaxations)@)
            + cap_relaxations(old(mission)@, *t, placed@, t.slots@.len() as int),
{
    let mut i: usize = 0;
    while i < t.slots.len()
        invariant
            t.wf(),
            i <= t.slots@.len(),
            placed@.len() == t.slots@.len(),
            mission.wf(),
            mission@ == (MissionView::<B> { caps: mission@.caps, ..old(mission)@ }),
            forall|x: Handle<Node<B>>| #[trigger] lookup(mission@.caps, x) == match cap_set(
                *t,
                placed@,
                x,
                i as int,
            ) {
                Some(c) => Some(c),
                None => lookup(old(mission)@.caps, x),
            },
            relaxation_views(relaxations@) == relaxation_views(old(relaxations)@)
                + cap_relaxations(old(mission)@, *t, placed@, i as int),
        decreases t.slots@.len() - i,
    {
        let ghost before = relaxations@;
        match (t.shapes[i].max_degree, scope_of_slot(t, placed, i)) {
            (Some(cap), Some(scope)) => {
                assert(mission@.edges == old(mission)@.edges);
                let actual = mission.degree(scope);
                if actual > cap {
                    let mut reason = String::from_str("max_degree ");
                    let a = decimal_text(cap as u64);
                    reason.append(a.as_str());
                    reason.append(" could not be applied: the scope already had ");
                    let b = decimal_text(actual as u64);
                    reason.append(b.as_str());
                    reason.append(
                        " connections when the spine ran — seed the spine into an empty MissionGraph and call connect_scopes afterwards",
                    );
                    proof {
                        assert(reason@ == cap_reason(cap, degree_of(old(mission)@.edges, scope) as u32));
                    }
                    relaxations.push(Relaxation { slot: t.slots[i].name.clone(), reason });
                    proof {
                        assert(relaxation_views(relaxations@) =~= relaxation_views(before).push(
                            (name_of(*t, i as int), cap_reason(cap, degree_of(old(mission)@.edges, scope) as u32)),
                        ));
                    }
                }
                mission.set_degree_cap(scope, cap);
            },
            _ => {},
        }
        proof {
            assert(relaxation_views(relaxations@) =~= relaxation_views(old(relaxations)@)
                + cap_relaxations(old(mission)@, *t, placed@, i + 1));
        }
        i += 1;
    }
}

/// The first of the first `k` slots that has this name and was placed.
pub open spec fn first_placed_named<B>(
    t: TemplateShape,
    placed: Seq<Option<Handle<Node<B>>>>,
    name: Seq<char>,
    k: int,
) -> Option<int>
    decreases k,
{
    if k <= 0 {
        None
    } else {
        match first_placed_named(t, placed, name, k - 1) {
            Some(j) => Some(j),
            None => if name_of(t, k - 1) == name && placed[k - 1] is Some {
                Some(k - 1)
            } else {
                None
            },
        }
    }
}

/// The scope of the first placed slot that shares slot `i`'s name: where a lookup of the slot by
/// name among the assignments lands.
pub open spec fn first_scope<B>(t: TemplateShape, placed: Seq<Option<Handle<Node<B>>>>, i: int) -> Option<
    Handle<Node<B>>,
> {
    match first_placed_named(t, placed, name_of(t, i), t.slots@.len() as int) {
        Some(j) => placed[j],
        None => None,
    }
}

/// The unlock a gate names: itself, or what the first placed slot of that name granted.
pub open spec fn resolved<B>(
    t: TemplateShape,
    placed: Seq<Option<Handle<Node<B>>>>,
    granted: Seq<Option<ObjectId>>,
    gate: UnlockRef,
) -> Option<ObjectId> {
    match gate {
        UnlockRef::Explicit(c) => Some(c),
        UnlockRef::GrantedBy(slot) => match first_placed_named(
            t,
            placed,
            slot@,
            t.slots@.len() as int,
        ) {
            Some(j) => granted[j],
            None => None,
        },
    }
}

/// The first ungated edge touching `scope`.
pub open spec fn first_open_edge<B>(edges: Seq<MissionEdge<B>>, scope: Handle<Node<B>>, k: int) -> Option<int>
    decreases edges.len() - k,
{
    if k < 0 || k >= edges.len() {
        None
    } else if (edges[k].from == scope || edges[k].to == scope) && edges[k].rule is Always {
        Some(k)
    } else {
        first_open_edge(edges, scope, k + 1)
    }
}

/// The graph after the first `n` segments' gates are applied: for a gated segment whose unlock
/// resolves and whose ends were both placed, the first open edge leaving its origin is gated by
/// holding that unlock.
pub open spec fn gates_applied<B>(
    m: MissionView<B>,
    t: TemplateShape,
    placed: Seq<Option<Handle<Node<B>>>>,
    granted: Seq<Option<ObjectId>>,
    n: int,
) -> MissionView<B>
    decreases n,
{
    if n <= 0 {
        m
    } else {
        let m1 = gates_applied(m, t, placed, granted, n - 1);
        let seg = t.segments@[n - 1];
        let gate = match t.gates@[n - 1] {
            Some(g) => resolved(t, placed, granted, g),
            None => None,
        };
        let all = t.slots@.len() as int;
        match (gate, named_scope(t, placed, seg.from@, all), named_scope(t, placed, seg.to@, all)) {
            (Some(unlock), Some(from), Some(_)) => match first_open_edge(m1.edges, from, 0) {
                Some(i) => MissionView::<B> {
                    edges: m1.edges.update(
                        i,
                        MissionEdge::<B> { rule: Rule::Has(unlock), ..m1.edges[i] },
                    ),
                    ..m1
                },
                None => m1,
            },
            _ => m1,
        }
    }
}

/// The first placed slot with this name.
fn find_first_placed<B>(t: &TemplateShape, placed: &[Option<Handle<Node<B>>>], name: &str) -> (r:
    Option<usize>)
    requires
        t.wf(),
        placed@.len() == t.slots@.len(),
    ensures
        match r {
            Some(j) => first_placed_named(*t, placed@, name@, t.slots@.len() as int) == Some(
                j as int,
            ) && j < t.slots@.len(),
            None => first_placed_named(*t, placed@, name@, t.slots@.len() as int) is None,
        },
{
    let mut k: usize = 0;
    while k < t.slots.len()
        invariant
            t.wf(),
            k <= t.slots@.len(),
            placed@.len() == t.slots@.len(),
            first_placed_named(*t, placed@, name@, k as int) is None,
        decreases t.slots@.len() - k,
    {
        if placed[k].is_some() && same_text(t.slots[k].name.as_str(), name) {
            proof {
                lemma_first_placed_stays(*t, placed@, name@, k + 1, t.slots@.len() as int);
            }
            return Some(k);
        }
        k += 1;
    }
    None
}

proof fn lemma_first_placed_stays<B>(
    t: TemplateShape,
    placed: Seq<Option<Handle<Node<B>>>>,
    name: Seq<char>,
    j: int,
    k: int,
)
    requires
        0 <= j <= k,
        first_placed_named(t, placed, name, j) is Some,
    ensures
        first_placed_named(t, placed, name, k) == first_placed_named(t, placed, name, j),
    decreases k - j,
{
    if j < k {
        lemma_first_placed_stays(t, placed, name, j, k - 1);
    }
}

/// The unlock a gate names.
fn resolve_gate<B>(
    t: &TemplateShape,
    placed: &[Option<Handle<Node<B>>>],
    granted: &[Option<ObjectId>],
    gate: &UnlockRef,
) -> (r: Option<ObjectId>)
    requires
        t.wf(),
        placed@.len() == t.slots@.len(),
        granted@.len() == t.slots@.len(),
    ensures
        r == resolved(*t, placed@, granted@, *gate),
{
    match gate {
        UnlockRef::Explicit(c) => Some(*c),
        UnlockRef::GrantedBy(slot) => match find_first_placed(t, placed, slot.as_str()) {
            Some(j) => granted[j],
            None => None,
        },
    }
}

/// The first ungated edge touching `scope`.
fn find_open_edge<B>(mission: &MissionGraph<B>, scope: Handle<Node<B>>) -> (r: Option<usize>)
    ensures
        match r {
            Some(i) => first_open_edge(mission@.edges, scope, 0) == Some(i as int) && i
                < mission@.edges.len(),
            None => first_open_edge(mission@.edges, scope, 0) is None,
        },
{
    let edges = mission.edges();
    let mut k: usize = 0;
    while k < edges.len()
        invariant
            edges@ == mission@.edges,
            k <= edges@.len(),
            first_open_edge(edges@, scope, 0) == first_open_edge(edges@, scope, k as int),
        decreases edges@.len() - k,
    {
        if (edges[k].from == scope || edges[k].to == scope) && !edges[k].is_gated() {
            return Some(k);
        }
        k += 1;
    }
    None
}

/// Gate each segment whose unlock resolves: a named unlock stands for itself, a reference to a
/// slot for whatever that slot granted. The first open edge leaving the segment's origin is gated
/// by holding it.
pub fn apply_gating<B>(
    t: &TemplateShape,
    placed: &[Option<Handle<Node<B>>>],
    granted: &[Option<ObjectId>],
    mission: &mut MissionGraph<B>,
)
    requires
        t.wf(),
        placed@.len() == t.slots@.len(),
        granted@.len() == t.slots@.len(),
        old(mission).wf(),
    ensures
        final(mission).wf(),
        final(mission)@ == (MissionView::<B> { edges: final(mission)@.edges, ..old(mission)@ }),
        final(mission)@ == gates_applied(old(mission)@, *t, placed@, granted@, t.segments@.len() as int),
{
    let mut k: usize = 0;
    while k < t.segments.len()
        invariant
            t.wf(),
            k <= t.segments@.len(),
            placed@.len() == t.slots@.len(),
            granted@.len() == t.slots@.len(),
            mission.wf(),
                mission@ == (MissionView::<B> { edges: mission@.edges, ..old(mission)@ }),
            mission@ == gates_applied(old(mission)@, *t, placed@, granted@, k as int),
        decreases t.segments@.len() - k,
    {
        let gate = match &t.gates[k] {
            Some(g) => resolve_gate(t, placed, granted, g),
            None => None,
        };
        let from = find_named(t, placed, t.segments[k].from.as_str());
        let to = find_named(t, placed, t.segments[k].to.as_str());
        match (gate, from, to) {
            (Some(unlock), Some(f), Some(_)) => match find_open_edge(mission, f) {
                Some(i) => {
                    mission.gate_edge(i, Rule::has(unlock));
                },
                None => {},
            },
            _ => {},
        }
        k += 1;
    }
}

// ---------------------------------------------------------------------------------------------
// Instantiating one template over one scope
// ---------------------------------------------------------------------------------------------

/// Which scope a slot was allocated to, and what it granted.
#[derive(Clone, Debug, PartialEq)]
pub struct SlotAssignment<B> {
    /// The slot's declared name.
    pub slot: String,
    /// The scope it was allocated.
    pub scope: Handle<Node<B>>,
    /// The unlock resolved from its grant, if it had one.
    pub granted: Option<ObjectId>,
}

/// One instantiated spine over one scope.
#[derive(Clone, Debug, PartialEq)]
pub struct SpineInstance<B> {
    /// The template.
    pub template: ObjectId,
    /// The scope this instance covers.
    pub scope: Handle<Node<B>>,
    /// Slots that were placed, in slot order.
    pub assignments: Vec<SlotAssignment<B>>,
    /// Soft slots that were dropped, and caps that could not take hold.
    pub relaxations: Vec<Relaxation>,
    /// Scopes whose slot declared itself empty: the generator must place nothing there.
    pub empty: Vec<Handle<Node<B>>>,
    /// The scope the start slot landed on, if the template declares one and it was placed.
    pub start: Option<Handle<Node<B>>>,
    /// The scope the goal slot landed on, if the template declares one and it was placed.
    pub goal: Option<Handle<Node<B>>>,
}

/// The names of the slots kept, in order.
pub open spec fn kept_names(t: TemplateShape, kept: Seq<bool>, k: int) -> Seq<Seq<char>>
    decreases k,
{
    if k <= 0 {
        seq![]
    } else if kept[k - 1] {
        kept_names(t, kept, k - 1).push(name_of(t, k - 1))
    } else {
        kept_names(t, kept, k - 1)
    }
}

/// How many connective scopes each gap between consecutive kept slots gets.
pub open spec fn lengths_of(t: TemplateShape, kept: Seq<bool>, capacity: usize) -> Seq<u32> {
    let names = kept_names(t, kept, t.slots@.len() as int);
    if names.len() < 2 {
        seq![]
    } else {
        Seq::new((names.len() - 1) as nat, |i: int| length_at(t.segments@, names, capacity, i) as u32)
    }
}

/// Where each slot goes.
pub open spec fn plans_of<B>(t: TemplateShape, kept: Seq<bool>, available: Seq<Handle<Node<B>>>) -> Seq<
    SlotPlan,
> {
    plan_upto(kept, lengths_of(t, kept, available.len() as usize), available.len() as int, kept.len() as int).plans
}

/// The assignments of the first `k` slots: each placed slot's name, scope and grant.
pub open spec fn assignments_of<B>(
    t: TemplateShape,
    plans: Seq<SlotPlan>,
    available: Seq<Handle<Node<B>>>,
    granted: Seq<Option<ObjectId>>,
    k: int,
) -> Seq<(Seq<char>, Handle<Node<B>>, Option<ObjectId>)>
    decreases k,
{
    if k <= 0 {
        seq![]
    } else {
        assignments_of(t, plans, available, granted, k - 1) + match plans[k - 1] {
            SlotPlan::Placed { scope, .. } => seq![
                (name_of(t, k - 1), available[scope as int], granted[k - 1]),
            ],
            _ => seq![],
        }
    }
}

/// The relaxations the allocation reports for the first `k` slots: a dropped slot with the reason
/// it was dropped, and a kept slot no scope was left for.
pub open spec fn plan_relaxations(
    t: TemplateShape,
    plans: Seq<SlotPlan>,
    dropped: Seq<String>,
    k: int,
) -> Seq<(Seq<char>, Seq<char>)>
    decreases k,
{
    if k <= 0 {
        seq![]
    } else {
        plan_relaxations(t, plans, dropped, k - 1) + match plans[k - 1] {
            SlotPlan::Dropped => seq![(name_of(t, k - 1), dropped[k - 1]@)],
            SlotPlan::NoRoom => seq![(name_of(t, k - 1), "no scope left in this instance"@)],
            _ => seq![],
        }
    }
}

/// The scopes of the first `k` slots that declare themselves empty, each looked up by name among
/// the placed slots.
pub open spec fn empty_of<B>(t: TemplateShape, placed: Seq<Option<Handle<Node<B>>>>, k: int) -> Seq<
    Handle<Node<B>>,
>
    decreases k,
{
    if k <= 0 {
        seq![]
    } else {
        empty_of(t, placed, k - 1) + match first_scope(t, placed, k - 1) {
            Some(s) => if t.contents@[k - 1].empty {
                seq![s]
            } else {
                seq![]
            },
            None => seq![],
        }
    }
}

/// The first slot, from index `k` on, that plays `role`.
pub open spec fn role_from(t: TemplateShape, role: SlotRole, k: int) -> Option<int>
    decreases t.slots@.len() - k,
{
    if k < 0 || k >= t.slots@.len() {
        None
    } else if t.roles@[k] == role {
        Some(k)
    } else {
        role_from(t, role, k + 1)
    }
}

/// Where the first slot playing `role` landed, looked up by name among the placed slots.
pub open spec fn role_scope<B>(t: TemplateShape, placed: Seq<Option<Handle<Node<B>>>>, role: SlotRole) -> Option<
    Handle<Node<B>>,
> {
    match role_from(t, role, 0) {
        Some(i) => first_scope(t, placed, i),
        None => None,
    }
}

/// The mission graph's edges after an instance is wired: the chain through the placed slots,
/// then the declared adjacencies, the gates, and the minimum degrees.
pub open spec fn instance_edges<B>(
    m: MissionView<B>,
    t: TemplateShape,
    kept: Seq<bool>,
    available: Seq<Handle<Node<B>>>,
    granted: Seq<Option<ObjectId>>,
) -> MissionView<B> {
    let plans = plans_of(t, kept, available);
    let placed = Seq::new(plans.len(), |i: int| placed_at(plans, available, i));
    let m1 = wired(m, plans, available, plans.len() as int).0;
    let m2 = adjacencies_wired(m1, t, placed, t.slots@.len() as int);
    let m3 = gates_applied(m2, t, placed, granted, t.segments@.len() as int);
    degrees_filled(m3, t, placed, available, t.slots@.len() as int)
}

/// The names of the kept slots, in order.
fn kept_name_list(t: &TemplateShape, kept: &[bool]) -> (v: Vec<String>)
    requires
        t.wf(),
        kept@.len() == t.slots@.len(),
    ensures
        strs(v@) == kept_names(*t, kept@, t.slots@.len() as int),
{
    let mut v: Vec<String> = Vec::new();
    let mut i: usize = 0;
    while i < t.slots.len()
        invariant
            t.wf(),
            kept@.len() == t.slots@.len(),
            i <= t.slots@.len(),
            strs(v@) == kept_names(*t, kept@, i as int),
        decreases t.slots@.len() - i,
    {
        if kept[i] {
            let ghost before = v@;
            v.push(t.slots[i].name.clone());
            proof {
                assert(strs(v@) =~= strs(before).push(name_of(*t, i as int)));
            }
        }
        i += 1;
    }
    v
}

/// The unlock a slot's content grants, given the draw the generator made among the declared
/// candidates: nothing when the slot grants nothing or declares no candidate.
pub fn grant_pick(grants: &Option<GrantSpec>, pick: u64) -> (g: Option<ObjectId>)
    requires
        match grants {
            Some(spec) => spec.any_of@.len() > 0 ==> pick < spec.any_of@.len(),
            None => true,
        },
    ensures
        g == match grants {
            Some(spec) => if spec.any_of@.len() > 0 {
                Some(spec.any_of@[pick as int])
            } else {
                None
            },
            None => None,
        },
{
    match grants {
        Some(spec) => {
            if spec.any_of.len() > 0 {
                Some(spec.any_of[pick as usize])
            } else {
                None
            }
        },
        None => None,
    }
}

/// The assignments as names, scopes and grants.
pub open spec fn assignment_views<B>(v: Seq<SlotAssignment<B>>) -> Seq<
    (Seq<char>, Handle<Node<B>>, Option<ObjectId>),
> {
    v.map_values(|a: SlotAssignment<B>| (a.slot@, a.scope, a.granted))
}

/// The slot placements of an instance as what each slot got.
pub open spec fn placed_of<B>(plans: Seq<SlotPlan>, available: Seq<Handle<Node<B>>>) -> Seq<
    Option<Handle<Node<B>>>,
> {
    Seq::new(plans.len(), |i: int| placed_at(plans, available, i))
}

/// Instantiate one template over one scope instance whose `available` scopes are listed in walk
/// order. `kept` says which slots survive the adherence dial, and `dropped` why each dropped one
/// was; `granted` is the unlock each slot's content was drawn to grant.
///
/// Slots are allocated in order and chained through their segments' connective scopes, then the
/// declared adjacencies are joined, gates applied, minimum degrees satisfied, and last the caps
/// frozen, so that a cap never blocks structure the spine itself promised. Scopes of slots
/// declared empty are barred from content.
pub fn instantiate_one<B>(
    t: &TemplateShape,
    scope: Handle<Node<B>>,
    kept: &[bool],
    dropped: &[String],
    granted: &[Option<ObjectId>],
    available: &[Handle<Node<B>>],
    mission: &mut MissionGraph<B>,
) -> (inst: SpineInstance<B>)
    requires
        t.wf(),
        kept@.len() == t.slots@.len(),
        dropped@.len() == t.slots@.len(),
        granted@.len() == t.slots@.len(),
        old(mission).wf(),
        kept_names(*t, kept@, t.slots@.len() as int).len() >= 2 ==> floors(
            t.segments@,
            kept_names(*t, kept@, t.slots@.len() as int),
            kept_names(*t, kept@, t.slots@.len() as int).len() - 1,
        ) + kept_names(*t, kept@, t.slots@.len() as int).len() <= u32::MAX,
    ensures
        final(mission).wf(),
        inst.template == t.id,
        inst.scope == scope,
        assignment_views(inst.assignments@) == assignments_of(
            *t,
            plans_of(*t, kept@, available@),
            available@,
            granted@,
            t.slots@.len() as int,
        ),
        ({
            let plans = plans_of(*t, kept@, available@);
            let placed = placed_of(plans, available@);
            let wired_up = instance_edges(old(mission)@, *t, kept@, available@, granted@);
            &&& relaxation_views(inst.relaxations@) == plan_relaxations(
                *t,
                plans,
                dropped@,
                t.slots@.len() as int,
            ) + cap_relaxations(wired_up, *t, placed, t.slots@.len() as int)
            &&& final(mission)@ == (MissionView::<B> {
                caps: final(mission)@.caps,
                excluded: final(mission)@.excluded,
                ..wired_up
            })
            &&& forall|x: Handle<Node<B>>| #[trigger] lookup(final(mission)@.caps, x) == match cap_set(
                *t,
                placed,
                x,
                t.slots@.len() as int,
            ) {
                Some(c) => Some(c),
                None => lookup(old(mission)@.caps, x),
            }
            &&& inst.empty@ == empty_of(*t, placed, t.slots@.len() as int)
            &&& forall|x: Handle<Node<B>>| #[trigger] final(mission)@.excluded.contains(x) <==> (old(
                mission,
            )@.excluded.contains(x) || inst.empty@.contains(x))
            &&& inst.start == role_scope(*t, placed, SlotRole::Start)
            &&& inst.goal == role_scope(*t, placed, SlotRole::Goal)
        }),
{
    let names = kept_name_list(t, kept);
    let lengths = segment_lengths(t.segments.as_slice(), names.as_slice(), available.len());
    proof {
        assert(lengths@ =~= lengths_of(*t, kept@, available@.len() as usize));
    }
    let plans = lay_out(mission, kept, lengths.as_slice(), available);
    let placed = placed_scopes(plans.as_slice(), available);
    proof {
        assert(placed@ =~= placed_of(plans@, available@));
    }
    wire_adjacency(t, placed.as_slice(), mission);
    apply_gating(t, placed.as_slice(), granted, mission);
    satisfy_degrees(t, placed.as_slice(), available, mission);
    let ghost wired_up = mission@;
    let mut relaxations: Vec<Relaxation> = Vec::new();
    let mut assignments: Vec<SlotAssignment<B>> = Vec::new();
    let mut i: usize = 0;
    while i < plans.len()
        invariant
            t.wf(),
            i <= plans@.len(),
            plans@.len() == t.slots@.len(),
            dropped@.len() == t.slots@.len(),
            granted@.len() == t.slots@.len(),
            plans_fit(plans@, available@.len() as int),
            relaxation_views(relaxations@) == plan_relaxations(*t, plans@, dropped@, i as int),
            assignment_views(assignments@) == assignments_of(*t, plans@, available@, granted@, i as int),
        decreases plans@.len() - i,
    {
        let ghost r0 = relaxations@;
        let ghost a0 = assignments@;
        match plans[i] {
            SlotPlan::Dropped => {
                relaxations.push(Relaxation { slot: t.slots[i].name.clone(), reason: dropped[i].clone() });
            },
            SlotPlan::NoRoom => {
                relaxations.push(
                    Relaxation {
                        slot: t.slots[i].name.clone(),
                        reason: String::from_str("no scope left in this instance"),
                    },
                );
            },
            SlotPlan::Placed { scope: at, .. } => {
                assignments.push(
                    SlotAssignment { slot: t.slots[i].name.clone(), scope: available[at], granted: granted[i] },
                );
            },
        }
        proof {
            assert(relaxation_views(relaxations@) =~= plan_relaxations(*t, plans@, dropped@, i + 1));
            assert(assignment_views(assignments@) =~= assignments_of(*t, plans@, available@, granted@, i + 1));
        }
        i += 1;
    }
    let ghost before_caps = relaxation_views(relaxations@);
    apply_degree_caps(t, placed.as_slice(), mission, &mut relaxations);
    let ghost capped = mission@;
    let mut empty: Vec<Handle<Node<B>>> = Vec::new();
    let mut k: usize = 0;
    while k < t.slots.len()
        invariant
            t.wf(),
            k <= t.slots@.len(),
            placed@.len() == t.slots@.len(),
            mission.wf(),
            mission@ == (MissionView::<B> { excluded: mission@.excluded, ..capped }),
            empty@ == empty_of(*t, placed@, k as int),
            forall|x: Handle<Node<B>>| #[trigger] mission@.excluded.contains(x) <==> (capped.excluded.contains(x)
                || empty@.contains(x)),
        decreases t.slots@.len() - k,
    {
        if t.contents[k].empty {
            match scope_of_slot(t, placed.as_slice(), k) {
                Some(s) => {
                    mission.exclude_content(s);
                    let ghost e0 = empty@;
                    empty.push(s);
                    proof {
                        assert forall|x: Handle<Node<B>>| #[trigger] empty@.contains(x) <==> (e0.contains(x) || x == s) by {
                            if empty@.contains(x) {
                                let q = choose|q: int| 0 <= q < empty@.len() && empty@[q] == x;
                                if q < e0.len() {
                                    assert(e0[q] == x);
                                }
                            }
                            if e0.contains(x) {
                                let q = choose|q: int| 0 <= q < e0.len() && e0[q] == x;
                                assert(empty@[q] == x);
                            }
                            if x == s {
                                assert(empty@[e0.len() as int] == x);
                            }
                        }
                    }
                },
                None => {},
            }
        }
        proof {
            assert(empty@ =~= empty_of(*t, placed@, k + 1));
        }
        k += 1;
    }
    let start = match find_role(t, SlotRole::Start) {
        Some(i) => scope_of_slot(t, placed.as_slice(), i),
        None => None,
    };
    let goal = match find_role(t, SlotRole::Goal) {
        Some(i) => scope_of_slot(t, placed.as_slice(), i),
        None => None,
    };
    SpineInstance { template: t.id, scope, assignments, relaxations, empty, start, goal }
}

/// The first slot playing `role`.
fn find_role(t: &TemplateShape, role: SlotRole) -> (r: Option<usize>)
    requires
        t.wf(),
    ensures
        match r {
            Some(i) => role_from(*t, role, 0) == Some(i as int) && i < t.slots@.len(),
            None => role_from(*t, role, 0) is None,
        },
{
    let mut i: usize = 0;
    while i < t.roles.len()
        invariant
            t.wf(),
            i <= t.roles@.len(),
            role_from(*t, role, 0) == role_from(*t, role, i as int),
        decreases t.roles@.len() - i,
    {
        if t.roles[i] == role {
            return Some(i);
        }
        i += 1;
    }
    None
}

// ---------------------------------------------------------------------------------------------
// Across templates
// ---------------------------------------------------------------------------------------------

/// A registered template as the rules across templates read it.
#[derive(Clone, Copy, Debug, PartialEq, Eq, Structural)]
pub struct TemplateHeader {
    /// The template's registered content id.
    pub id: ObjectId,
    /// Which scope kind an instance covers.
    pub applies_to: NodeKind,
    /// The template-wide strictness.
    pub strictness: Strictness,
}

/// The first of the first `k` templates that is required over `kind`.
pub open spec fn first_required(ts: Seq<TemplateHeader>, kind: NodeKind, k: int) -> Option<int>
    decreases k,
{
    if k <= 0 {
        None
    } else {
        match first_required(ts, kind, k - 1) {
            Some(j) => Some(j),
            None => if ts[k - 1].strictness == Strictness::Required && ts[k - 1].applies_to == kind {
                Some(k - 1)
            } else {
                None
            },
        }
    }
}

/// For the first `k` templates: an error for each required one over a scope kind an earlier
/// required template already claims, naming that first claim. Two contracts over one scope cannot
/// both be honoured, and merging them would give a third nobody wrote.
pub open spec fn conflicts_of(ts: Seq<TemplateHeader>, k: int) -> Seq<ErrorView>
    decreases k,
{
    if k <= 0 {
        seq![]
    } else {
        conflicts_of(ts, k - 1) + if ts[k - 1].strictness == Strictness::Required {
            match first_required(ts, ts[k - 1].applies_to, k - 1) {
                Some(j) => seq![
                    ErrorView::ConflictingRequiredSpines {
                        kind: ts[k - 1].applies_to,
                        first: ts[j].id,
                        second: ts[k - 1].id,
                    },
                ],
                None => seq![],
            }
        } else {
            seq![]
        }
    }
}

/// The first of the first `k` templates required over `kind`.
fn find_required(ts: &[TemplateHeader], kind: NodeKind, k: usize) -> (r: Option<usize>)
    requires
        k <= ts@.len(),
    ensures
        match r {
            Some(j) => first_required(ts@, kind, k as int) == Some(j as int) && j < k,
            None => first_required(ts@, kind, k as int) is None,
        },
{
    let mut i: usize = 0;
    while i < k
        invariant
            k <= ts@.len(),
            i <= k,
            first_required(ts@, kind, i as int) is None,
        decreases k - i,
    {
        if ts[i].strictness == Strictness::Required && ts[i].applies_to == kind {
            proof {
                lemma_first_required_stays(ts@, kind, i + 1, k as int);
            }
            return Some(i);
        }
        i += 1;
    }
    None
}

proof fn lemma_first_required_stays(ts: Seq<TemplateHeader>, kind: NodeKind, j: int, k: int)
    requires
        0 <= j <= k,
        first_required(ts, kind, j) is Some,
    ensures
        first_required(ts, kind, k) == first_required(ts, kind, j),
    decreases k - j,
{
    if j < k {
        lemma_first_required_stays(ts, kind, j, k - 1);
    }
}

/// The rule only a set of templates can break: two required spines over one scope kind are
/// refused rather than reconciled. Spines at different levels compose.
pub fn conflicting_required(templates: &[TemplateHeader]) -> (errors: Vec<SpineError>)
    ensures
        error_views(errors@) == conflicts_of(templates@, templates@.len() as int),
{
    let mut errors: Vec<SpineError> = Vec::new();
    proof {
        assert(error_views(errors@) =~= Seq::<ErrorView>::empty());
    }
    let mut k: usize = 0;
    while k < templates.len()
        invariant
            k <= templates@.len(),
            error_views(errors@) == conflicts_of(templates@, k as int),
        decreases templates@.len() - k,
    {
        let t = templates[k];
        if t.strictness == Strictness::Required {
            match find_required(templates, t.applies_to, k) {
                Some(j) => {
                    push_error(
                        &mut errors,
                        SpineError::ConflictingRequiredSpines {
                            kind: t.applies_to,
                            first: templates[j].id,
                            second: t.id,
                        },
                    );
                },
                None => {},
            }
        }
        proof {
            assert(error_views(errors@) =~= conflicts_of(templates@, k + 1));
        }
        k += 1;
    }
    errors
}

/// The first start any of the first `k` instances declares.
pub open spec fn first_start<B>(instances: Seq<SpineInstance<B>>, k: int) -> Option<Handle<Node<B>>>
    decreases k,
{
    if k <= 0 {
        None
    } else {
        match first_start(instances, k - 1) {
            Some(s) => Some(s),
            None => instances[k - 1].start,
        }
    }
}

/// The last goal any of the first `k` instances declares.
pub open spec fn last_goal<B>(instances: Seq<SpineInstance<B>>, k: int) -> Option<Handle<Node<B>>>
    decreases k,
{
    if k <= 0 {
        None
    } else {
        match instances[k - 1].goal {
            Some(g) => Some(g),
            None => last_goal(instances, k - 1),
        }
    }
}

/// Wire the roles once every instance exists: the world begins at the first instance's start and
/// is complete at the last instance's goal, so that a spine repeated per scope begins the world in
/// its first copy and ends it in its last, however many copies there are.
pub fn wire_roles<B>(mission: &mut MissionGraph<B>, instances: &[SpineInstance<B>])
    requires
        old(mission).wf(),
    ensures
        final(mission).wf(),
        final(mission)@ == (MissionView::<B> {
            start: match first_start(instances@, instances@.len() as int) {
                Some(s) => s,
                None => old(mission)@.start,
            },
            goal: match last_goal(instances@, instances@.len() as int) {
                Some(g) => Some(g),
                None => old(mission)@.goal,
            },
            ..old(mission)@
        }),
{
    let mut start: Option<Handle<Node<B>>> = None;
    let mut i: usize = 0;
    while i < instances.len()
        invariant
            i <= instances@.len(),
            start == first_start(instances@, i as int),
        decreases instances@.len() - i,
    {
        if start.is_none() {
            start = instances[i].start;
        }
        i += 1;
    }
    let mut goal: Option<Handle<Node<B>>> = None;
    let mut k: usize = instances.len();
    while k > 0
        invariant
            k <= instances@.len(),
            last_goal(instances@, instances@.len() as int) == match goal {
                Some(g) => Some(g),
                None => last_goal(instances@, k as int),
            },
        decreases k,
    {
        if goal.is_none() {
            goal = instances[k - 1].goal;
        }
        k -= 1;
    }
    match start {
        Some(s) => mission.set_start(s),
        None => {},
    }
    match goal {
        Some(g) => mission.set_goal(g),
        None => {},
    }
}

/// **Graceful degradation is never invisible**: every slot of an instance is either assigned a
/// scope or reported as relaxed, never both and never neither.
pub proof fn law_every_slot_is_placed_or_reported<B>(
    t: TemplateShape,
    plans: Seq<SlotPlan>,
    available: Seq<Handle<Node<B>>>,
    granted: Seq<Option<ObjectId>>,
    dropped: Seq<String>,
    k: int,
)
    requires
        0 <= k <= plans.len(),
    ensures
        assignments_of(t, plans, available, granted, k).len() + plan_relaxations(t, plans, dropped, k).len()
            == k,
    decreases k,
{
    if k > 0 {
        law_every_slot_is_placed_or_reported(t, plans, available, granted, dropped, k - 1);
    }
}

// ---------------------------------------------------------------------------------------------
// Budgets from the scope graph
// ---------------------------------------------------------------------------------------------

/// Is `h` a live node of this kind?
pub open spec fn is_kind<B>(g: GraphView<B>, h: Handle<Node<B>>, kind: NodeKind) -> bool {
    live(g, h) && node_of(g, h).kind == kind
}

/// How many of the first `k` of `hs` are live nodes of this kind.
pub open spec fn count_kind<B>(g: GraphView<B>, hs: Seq<Handle<Node<B>>>, kind: NodeKind, k: int) -> nat
    decreases k,
{
    if k <= 0 {
        0
    } else {
        count_kind(g, hs, kind, k - 1) + if is_kind(g, hs[k - 1], kind) {
            1nat
        } else {
            0nat
        }
    }
}

/// How many Spaces sit inside a scope: the budget a spine over it has to fit in.
pub open spec fn capacity_spec<B>(g: GraphView<B>, scope: Handle<Node<B>>) -> u32 {
    let d = descendants(g, scope);
    count_kind(g, d, NodeKind::Space, d.len() as int) as u32
}

/// The smallest capacity among the first `k` of `hs` that are of this kind.
pub open spec fn min_capacity<B>(g: GraphView<B>, hs: Seq<Handle<Node<B>>>, kind: NodeKind, k: int) -> Option<u32>
    decreases k,
{
    if k <= 0 {
        None
    } else {
        let earlier = min_capacity(g, hs, kind, k - 1);
        if is_kind(g, hs[k - 1], kind) {
            let c = capacity_spec(g, hs[k - 1]);
            match earlier {
                Some(m) => Some(if c < m {
                    c
                } else {
                    m
                }),
                None => Some(c),
            }
        } else {
            earlier
        }
    }
}

/// The budget a template over `kind` must fit: the capacity of its tightest instance, or nothing
/// when the graph has no instance. A spine that fits three Reaches and not the fourth does not fit.
pub open spec fn tightest<B>(g: GraphView<B>, kind: NodeKind) -> u32 {
    let all = seq![g.root] + descendants(g, g.root);
    match min_capacity(g, all, kind, all.len() as int) {
        Some(c) => c,
        None => 0,
    }
}

/// Is `h` a live node of this kind?
fn of_kind<B>(graph: &NodeGraph<B>, h: Handle<Node<B>>, kind: NodeKind) -> (b: bool)
    ensures
        b == is_kind(graph@, h, kind),
{
    match graph.get(h) {
        Some(n) => n.kind() == kind,
        None => false,
    }
}

/// How many Spaces sit inside a scope.
pub fn capacity_of<B>(graph: &NodeGraph<B>, scope: Handle<Node<B>>) -> (c: u32)
    ensures
        c == capacity_spec(graph@, scope),
{
    let d = graph.descendants_of(scope);
    let mut n: usize = 0;
    let mut i: usize = 0;
    while i < d.len()
        invariant
            d@ == descendants(graph@, scope),
            i <= d@.len(),
            n == count_kind(graph@, d@, NodeKind::Space, i as int),
            n <= i,
        decreases d@.len() - i,
    {
        if of_kind(graph, d[i], NodeKind::Space) {
            n += 1;
        }
        i += 1;
    }
    n as u32
}

/// The capacity of the tightest instance of `kind` in the graph, or 0 when there is none.
pub fn tightest_capacity<B>(graph: &NodeGraph<B>, kind: NodeKind) -> (c: u32)
    ensures
        c == tightest(graph@, kind),
{
    let all = graph.walk();
    let mut best: Option<u32> = None;
    let mut i: usize = 0;
    while i < all.len()
        invariant
            all@ == seq![graph@.root] + descendants(graph@, graph@.root),
            i <= all@.len(),
            best == min_capacity(graph@, all@, kind, i as int),
        decreases all@.len() - i,
    {
        if of_kind(graph, all[i], kind) {
            let c = capacity_of(graph, all[i]);
            best = match best {
                Some(m) => Some(if c < m {
                    c
                } else {
                    m
                }),
                None => Some(c),
            };
        }
        i += 1;
    }
    match best {
        Some(c) => c,
        None => 0,
    }
}

// ---------------------------------------------------------------------------------------------
// Validating every template
// ---------------------------------------------------------------------------------------------

/// What the rules across templates read of each.
pub open spec fn headers(ts: Seq<TemplateShape>) -> Seq<TemplateHeader> {
    ts.map_values(|t: TemplateShape| TemplateHeader { id: t.id, applies_to: t.applies_to, strictness: t.strictness })
}

/// The errors of the first `k` templates, each against its tightest instance.
pub open spec fn all_errors<B>(g: GraphView<B>, ts: Seq<TemplateShape>, reg: Seq<ObjectId>, k: int) -> Seq<ErrorView>
    decreases k,
{
    if k <= 0 {
        seq![]
    } else {
        all_errors(g, ts, reg, k - 1) + errors_of(ts[k - 1], reg, tightest(g, ts[k - 1].applies_to))
    }
}

/// The warnings of the first `k` templates, each against its tightest instance.
pub open spec fn all_warnings<B>(g: GraphView<B>, ts: Seq<TemplateShape>, reg: Seq<ObjectId>, k: int) -> Seq<
    (Seq<char>, Seq<char>),
>
    decreases k,
{
    if k <= 0 {
        seq![]
    } else {
        all_warnings(g, ts, reg, k - 1) + warnings_of(ts[k - 1], reg, tightest(g, ts[k - 1].applies_to))
    }
}

/// Validate every template against the capacity of its tightest instance in the graph, then the
/// rules that only make sense across templates. Call this before instantiating: guarantees are
/// only palatable if failure lands at authoring time, with the arithmetic on screen.
pub fn validate_all<B>(graph: &NodeGraph<B>, templates: &[TemplateShape], registered: &[ObjectId]) -> (v:
    SpineValidation)
    requires
        forall|i: int| 0 <= i < templates@.len() ==> #[trigger] templates@[i].wf() && needed_of(templates@[i]) <= u32::MAX,
    ensures
        error_views(v.errors@) == all_errors(graph@, templates@, registered@, templates@.len() as int)
            + conflicts_of(headers(templates@), templates@.len() as int),
        warning_views(v.warnings@) == all_warnings(graph@, templates@, registered@, templates@.len() as int),
{
    let mut errors: Vec<SpineError> = Vec::new();
    let mut warnings: Vec<SpineWarning> = Vec::new();
    let mut heads: Vec<TemplateHeader> = Vec::new();
    proof {
        assert(error_views(errors@) =~= Seq::<ErrorView>::empty());
        assert(warning_views(warnings@) =~= Seq::<(Seq<char>, Seq<char>)>::empty());
    }
    let mut k: usize = 0;
    while k < templates.len()
        invariant
            forall|i: int| 0 <= i < templates@.len() ==> #[trigger] templates@[i].wf() && needed_of(templates@[i]) <= u32::MAX,
            k <= templates@.len(),
            error_views(errors@) == all_errors(graph@, templates@, registered@, k as int),
            warning_views(warnings@) == all_warnings(graph@, templates@, registered@, k as int),
            heads@ == headers(templates@).take(k as int),
        decreases templates@.len() - k,
    {
        let t = &templates[k];
        assert(t.wf() && needed_of(*t) <= u32::MAX);
        let capacity = tightest_capacity(graph, t.applies_to);
        let mut one = t.validate(registered, capacity);
        let ghost e0 = errors@;
        let ghost w0 = warnings@;
        let ghost oe = one.errors@;
        let ghost ow = one.warnings@;
        errors.append(&mut one.errors);
        warnings.append(&mut one.warnings);
        heads.push(TemplateHeader { id: t.id, applies_to: t.applies_to, strictness: t.strictness });
        proof {
            assert(error_views(errors@) =~= error_views(e0) + error_views(oe));
            assert(warning_views(warnings@) =~= warning_views(w0) + warning_views(ow));
            assert(heads@ =~= headers(templates@).take(k + 1));
        }
        k += 1;
    }
    proof {
        assert(heads@ =~= headers(templates@));
    }
    let mut conflicts = conflicting_required(heads.as_slice());
    let ghost e1 = errors@;
    let ghost c = conflicts@;
    errors.append(&mut conflicts);
    proof {
        assert(error_views(errors@) =~= error_views(e1) + error_views(c));
    }
    SpineValidation { errors, warnings }
}

} // verus!
