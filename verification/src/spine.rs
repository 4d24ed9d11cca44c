//! Spine vocabulary: how binding a guarantee is, what a slot means to the mission graph, what a
//! slot may grant and demand, and what validating a spine reports.

use crate::mission::id_text;
use crate::node::{kind_name, NodeKind};
use crate::object::ObjectId;
use crate::serialize::{
    dec_str, dec_u64, dec_u8, enc_str, lemma_take_prefix, Codec, Deserialize, Reader, SerError,
    SerResult, Serialize, Writer,
};
use crate::text::{debug_quoted, decimal, decimal_text, str_debug};
use vstd::prelude::*;
use vstd::utf8::encode_utf8;

verus! {

/// How binding a spine, slot, or requirement is.
#[derive(Clone, Copy, Debug, PartialEq, Eq, PartialOrd, Ord, Structural)]
pub enum Strictness {
    /// Must hold; if it cannot, generation fails with a diagnostic.
    Required,
    /// Strongly biased; may be relaxed when infeasible, and is reported when it is.
    Preferred,
    /// The generator decides freely; absence is expected.
    Optional,
}

impl Strictness {
    /// May the solver drop a preference of this strictness to make a world?
    pub fn is_relaxable(self) -> (b: bool)
        ensures
            b == (self != Strictness::Required),
    {
        self != Strictness::Required
    }

    /// Must dropping a preference of this strictness be reported? `Preferred` yes, `Optional` no.
    pub fn relaxation_is_reportable(self) -> (b: bool)
        ensures
            b == (self == Strictness::Preferred),
    {
        self == Strictness::Preferred
    }

    /// Is this binding?
    pub fn is_required(self) -> (b: bool)
        ensures
            b == (self == Strictness::Required),
    {
        self == Strictness::Required
    }

    /// The serialized tag.
    pub fn tag(self) -> (t: u8)
        ensures
            t == match self {
                Strictness::Required => 0u8,
                Strictness::Preferred => 1u8,
                Strictness::Optional => 2u8,
            },
    {
        match self {
            Strictness::Required => 0,
            Strictness::Preferred => 1,
            Strictness::Optional => 2,
        }
    }

    /// The name shown in reports.
    pub fn to_string(&self) -> (s: String)
        ensures
            s@ == match *self {
                Strictness::Required => "required"@,
                Strictness::Preferred => "preferred"@,
                Strictness::Optional => "optional"@,
            },
    {
        String::from_str(match self {
            Strictness::Required => "required",
            Strictness::Preferred => "preferred",
            Strictness::Optional => "optional",
        })
    }
}

impl Default for Strictness {
    fn default() -> (s: Strictness)
        ensures
            s == Strictness::Required,
    {
        Strictness::Required
    }
}

/// What a slot means to the mission graph.
#[derive(Clone, Copy, Debug, PartialEq, Eq, Structural)]
pub enum SlotRole {
    /// The run begins here.
    Start,
    /// Neither endpoint.
    Interior,
    /// The run is complete here.
    Goal,
}

impl Default for SlotRole {
    fn default() -> (r: SlotRole)
        ensures
            r == SlotRole::Interior,
    {
        SlotRole::Interior
    }
}

/// An unlock named either directly or by whichever slot granted it.
#[derive(Clone, Debug, PartialEq, Eq)]
pub enum UnlockRef {
    /// This exact unlock.
    Explicit(ObjectId),
    /// Whatever the named slot ended up granting.
    GrantedBy(String),
}

/// What a slot's content may grant. The generator picks; the developer constrains.
#[derive(Clone, Debug, Default, PartialEq, Eq)]
pub struct GrantSpec {
    /// Candidate unlocks.
    pub any_of: Vec<ObjectId>,
}

impl GrantSpec {
    /// Any one of these unlocks.
    pub fn any_of(caps: &[ObjectId]) -> (g: GrantSpec)
        ensures
            g.any_of@ == caps@,
    {
        GrantSpec { any_of: vstd::slice::slice_to_vec(caps) }
    }
}

/// What a slot demands of its topology.
#[derive(Clone, Debug, Default, PartialEq, Eq)]
pub struct SlotShape {
    /// Minimum connections this scope must have.
    pub min_degree: Option<u32>,
    /// Maximum connections this scope may have. `Some(1)` is a dead end.
    pub max_degree: Option<u32>,
    /// Slots this must be directly connected to.
    pub adjacent_to: Vec<String>,
}

/// What a slot demands of its contents.
#[derive(Clone, Debug, Default, PartialEq)]
pub struct SlotContents {
    /// Content that must be placed here.
    pub must_contain: Vec<ObjectId>,
    /// Content preferred here.
    pub prefer_contain: Vec<ObjectId>,
    /// State the player must hold to reach this slot.
    pub requires: Option<UnlockRef>,
    /// What the content placed here grants.
    pub grants: Option<GrantSpec>,
    /// The generator places nothing here; the interior belongs to the host.
    pub empty: bool,
}

/// A required condition that cannot hold: generation must not proceed.
#[derive(Clone, Debug, PartialEq, Eq)]
pub enum SpineError {
    /// Not enough scopes for the guaranteed slots and segments.
    BudgetTooSmall { needed: u32, available: u32 },
    /// A slot requires content nothing registered can satisfy.
    ContentUnavailable { slot: String, content: ObjectId },
    /// A reference names a slot that does not exist.
    UnknownSlot { referenced_by: String, name: String },
    /// Two slots share a name.
    DuplicateSlot { name: String },
    /// A slot requires an unlock granted only by a later slot.
    GrantOrderViolation { slot: String, granted_by: String },
    /// A slot needs more connections than the instance can supply.
    DegreeInfeasible { slot: String, needed: u32, available: u32 },
    /// A slot's maximum degree cannot accommodate what the same slot also demands.
    DegreeContradiction { slot: String, max: u32, required: u32, because: String },
    /// A slot declared empty is also told to hold something.
    EmptyContradiction { slot: String, because: String },
    /// The template declares no slots at all.
    Empty,
    /// Two required spines target the same scope kind.
    ConflictingRequiredSpines { kind: NodeKind, first: ObjectId, second: ObjectId },
}

/// A soft condition unlikely to hold: surfaced while authoring, never blocking.
#[derive(Clone, Debug, PartialEq, Eq)]
pub struct SpineWarning {
    /// The slot or segment concerned.
    pub subject: String,
    /// What is unlikely, and why.
    pub detail: String,
}

/// The result of validating a spine.
#[derive(Clone, Debug, Default, PartialEq)]
pub struct SpineValidation {
    /// Required conditions that cannot hold.
    pub errors: Vec<SpineError>,
    /// Soft conditions unlikely to hold.
    pub warnings: Vec<SpineWarning>,
}

impl SpineValidation {
    /// May generation proceed? Exactly when there is no error; warnings never block.
    pub fn is_ok(&self) -> (b: bool)
        ensures
            b == (self.errors@.len() == 0),
    {
        self.errors.len() == 0
    }
}

/// A soft slot that was dropped, and why.
#[derive(Clone, Debug, PartialEq)]
pub struct Relaxation {
    /// The slot that was dropped.
    pub slot: String,
    /// Why.
    pub reason: String,
}

/// The message for a spine error, with the arithmetic or the names involved.
pub open spec fn spine_error_text(e: SpineError) -> Seq<char> {
    match e {
        SpineError::BudgetTooSmall { needed, available } => "spine needs "@ + decimal(needed as nat)
            + " scopes (required slots + segment minimums); "@ + decimal(available as nat)
            + " are available"@,
        SpineError::ContentUnavailable { slot, content } => "slot "@ + str_debug(slot@)
            + " requires "@ + id_text(content) + ", which is not registered"@,
        SpineError::UnknownSlot { referenced_by, name } => str_debug(referenced_by@)
            + " references slot "@ + str_debug(name@) + ", which does not exist"@,
        SpineError::DuplicateSlot { name } => "two slots are named "@ + str_debug(name@)
            + "; references would be ambiguous"@,
        SpineError::GrantOrderViolation { slot, granted_by } => "slot "@ + str_debug(slot@)
            + " requires what "@ + str_debug(granted_by@) + " grants, but "@ + str_debug(
            granted_by@,
        ) + " comes later — no route could satisfy it"@,
        SpineError::DegreeInfeasible { slot, needed, available } => "slot "@ + str_debug(slot@)
            + " needs "@ + decimal(needed as nat) + " connections; only "@ + decimal(
            available as nat,
        ) + " scopes are available to connect to"@,
        SpineError::DegreeContradiction { slot, max, required, because } => "slot "@ + str_debug(
            slot@,
        ) + " caps connections at "@ + decimal(max as nat) + " but needs "@ + decimal(
            required as nat,
        ) + " ("@ + because@ + "); raise max_degree or drop a requirement"@,
        SpineError::EmptyContradiction { slot, because } => "slot "@ + str_debug(slot@)
            + " is declared empty but also declares "@ + because@
            + "; the generator cannot both place that and place nothing"@,
        SpineError::Empty => "a spine with no slots constrains nothing"@,
        SpineError::ConflictingRequiredSpines { kind, first, second } => "spines "@ + id_text(first)
            + " and "@ + id_text(second) + " are both Required on "@ + kind_name(kind)
            + "; two contracts for one scope cannot both be honoured — soften one, or move it to a different scope level"@,
    }
}

impl SpineError {
    /// The message for this error.
    pub fn to_string(&self) -> (s: String)
        ensures
            s@ == spine_error_text(*self),
    {
        match self {
            SpineError::BudgetTooSmall { needed, available } => {
                let mut s = String::from_str("spine needs ");
                let a = decimal_text(*needed as u64);
                s.append(a.as_str());
                s.append(" scopes (required slots + segment minimums); ");
                let b = decimal_text(*available as u64);
                s.append(b.as_str());
                s.append(" are available");
                s
            },
            SpineError::ContentUnavailable { slot, content } => {
                let mut s = String::from_str("slot ");
                let a = debug_quoted(slot.as_str());
                s.append(a.as_str());
                s.append(" requires ");
                let b = content.to_string();
                s.append(b.as_str());
                s.append(", which is not registered");
                s
            },
            SpineError::UnknownSlot { referenced_by, name } => {
                let mut s = debug_quoted(referenced_by.as_str());
                s.append(" references slot ");
                let b = debug_quoted(name.as_str());
                s.append(b.as_str());
                s.append(", which does not exist");
                s
            },
            SpineError::DuplicateSlot { name } => {
                let mut s = String::from_str("two slots are named ");
                let a = debug_quoted(name.as_str());
                s.append(a.as_str());
                s.append("; references would be ambiguous");
                s
            },
            SpineError::GrantOrderViolation { slot, granted_by } => {
                let mut s = String::from_str("slot ");
                let a = debug_quoted(slot.as_str());
                s.append(a.as_str());
                s.append(" requires what ");
                let b = debug_quoted(granted_by.as_str());
                s.append(b.as_str());
                s.append(" grants, but ");
                s.append(b.as_str());
                s.append(" comes later — no route could satisfy it");
                s
            },
            SpineError::DegreeInfeasible { slot, needed, available } => {
                let mut s = String::from_str("slot ");
                let a = debug_quoted(slot.as_str());
                s.append(a.as_str());
                s.append(" needs ");
                let b = decimal_text(*needed as u64);
                s.append(b.as_str());
                s.append(" connections; only ");
                let c = decimal_text(*available as u64);
                s.append(c.as_str());
                s.append(" scopes are available to connect to");
                s
            },
            SpineError::DegreeContradiction { slot, max, required, because } => {
                let mut s = String::from_str("slot ");
                let a = debug_quoted(slot.as_str());
                s.append(a.as_str());
                s.append(" caps connections at ");
                let b = decimal_text(*max as u64);
                s.append(b.as_str());
                s.append(" but needs ");
                let c = decimal_text(*required as u64);
                s.append(c.as_str());
                s.append(" (");
                s.append(because.as_str());
                s.append("); raise max_degree or drop a requirement");
                s
            },
            SpineError::EmptyContradiction { slot, because } => {
                let mut s = String::from_str("slot ");
                let a = debug_quoted(slot.as_str());
                s.append(a.as_str());
                s.append(" is declared empty but also declares ");
                s.append(because.as_str());
                s.append("; the generator cannot both place that and place nothing");
                s
            },
            SpineError::Empty => String::from_str("a spine with no slots constrains nothing"),
            SpineError::ConflictingRequiredSpines { kind, first, second } => {
                let mut s = String::from_str("spines ");
                let a = first.to_string();
                s.append(a.as_str());
                s.append(" and ");
                let b = second.to_string();
                s.append(b.as_str());
                s.append(" are both Required on ");
                s.append(kind.as_str());
                s.append(
                    "; two contracts for one scope cannot both be honoured — soften one, or move it to a different scope level",
                );
                s
            },
        }
    }
}

impl SpineWarning {
    /// How the warning reads: the subject, then what is unlikely.
    pub fn to_string(&self) -> (s: String)
        ensures
            s@ == self.subject@ + ": "@ + self.detail@,
    {
        let mut s = self.subject.clone();
        s.append(": ");
        s.append(self.detail.as_str());
        s
    }
}

impl Relaxation {
    /// How the relaxation reads in the report.
    pub fn to_string(&self) -> (s: String)
        ensures
            s@ == "spine slot "@ + str_debug(self.slot@) + " skipped: "@ + self.reason@,
    {
        let mut s = String::from_str("spine slot ");
        let a = debug_quoted(self.slot.as_str());
        s.append(a.as_str());
        s.append(" skipped: ");
        s.append(self.reason.as_str());
        s
    }
}

// ---------------------------------------------------------------------------------------------
// On the wire
// ---------------------------------------------------------------------------------------------

/// The tag a strictness is written as.
pub open spec fn strictness_tag(s: Strictness) -> u8 {
    match s {
        Strictness::Required => 0u8,
        Strictness::Preferred => 1u8,
        Strictness::Optional => 2u8,
    }
}

/// The strictness a known tag stands for.
pub open spec fn strictness_at(t: u8) -> Strictness {
    if t == 0 {
        Strictness::Required
    } else if t == 1 {
        Strictness::Preferred
    } else {
        Strictness::Optional
    }
}

impl DeepView for Strictness {
    type V = Strictness;

    open spec fn deep_view(&self) -> Strictness {
        *self
    }
}

impl Serialize for Strictness {
    open spec fn encodable(v: Strictness) -> bool {
        true
    }

    /// One byte: the tag.
    open spec fn encoding(v: Strictness) -> Seq<u8> {
        seq![strictness_tag(v)]
    }

    fn serialize(&self, w: &mut Writer) {
        w.u8(self.tag());
        assert(final(w)@ =~= old(w)@ + seq![strictness_tag(*self)]);
    }
}

impl Deserialize for Strictness {
    open spec fn decoding(rest: Seq<u8>) -> Result<(Strictness, nat), SerError> {
        match dec_u8(rest) {
            Err(e) => Err(e),
            Ok((t, k)) => if t < 3 {
                Ok((strictness_at(t), k))
            } else {
                Err(SerError::InvalidValue("unknown Strictness tag"))
            },
        }
    }

    fn deserialize(r: &mut Reader<'_>) -> (res: SerResult<Strictness>) {
        let t = r.u8()?;
        if t == 0 {
            Ok(Strictness::Required)
        } else if t == 1 {
            Ok(Strictness::Preferred)
        } else if t == 2 {
            Ok(Strictness::Optional)
        } else {
            Err(SerError::InvalidValue("unknown Strictness tag"))
        }
    }
}

impl Codec for Strictness {
    proof fn lemma_round_trip(v: Strictness, rest: Seq<u8>) {
        lemma_take_prefix(seq![strictness_tag(v)], rest);
    }
}

/// What an [`UnlockRef`] names, as plain values.
pub enum UnlockRefView {
    /// The raw id of an exact unlock.
    Explicit(u64),
    /// The name of the granting slot.
    GrantedBy(Seq<char>),
}

impl DeepView for UnlockRef {
    type V = UnlockRefView;

    open spec fn deep_view(&self) -> UnlockRefView {
        match self {
            UnlockRef::Explicit(c) => UnlockRefView::Explicit(c.deep_view()),
            UnlockRef::GrantedBy(s) => UnlockRefView::GrantedBy(s@),
        }
    }
}

impl Serialize for UnlockRef {
    open spec fn encodable(v: UnlockRefView) -> bool {
        match v {
            UnlockRefView::Explicit(_) => true,
            UnlockRefView::GrantedBy(s) => encode_utf8(s).len() <= u32::MAX,
        }
    }

    /// A tag byte, then the unlock's id or the slot's name.
    open spec fn encoding(v: UnlockRefView) -> Seq<u8> {
        match v {
            UnlockRefView::Explicit(c) => seq![0u8] + vstd::bytes::spec_u64_to_le_bytes(c),
            UnlockRefView::GrantedBy(s) => seq![1u8] + enc_str(s),
        }
    }

    fn serialize(&self, w: &mut Writer) {
        match self {
            UnlockRef::Explicit(c) => {
                w.u8(0);
                w.write(c);
            },
            UnlockRef::GrantedBy(slot) => {
                w.u8(1);
                w.str(slot.as_str());
            },
        }
        assert(final(w)@ =~= old(w)@ + Self::encoding(self.deep_view()));
    }
}

impl Deserialize for UnlockRef {
    open spec fn decoding(rest: Seq<u8>) -> Result<(UnlockRefView, nat), SerError> {
        match dec_u8(rest) {
            Err(e) => Err(e),
            Ok((t, k)) => if t == 0 {
                match dec_u64(rest.skip(1)) {
                    Err(e) => Err(e),
                    Ok((c, m)) => Ok((UnlockRefView::Explicit(c), 1 + m)),
                }
            } else if t == 1 {
                match dec_str(rest.skip(1)) {
                    Err(e) => Err(e),
                    Ok((s, m)) => Ok((UnlockRefView::GrantedBy(s), 1 + m)),
                }
            } else {
                Err(SerError::InvalidValue("unknown UnlockRef tag"))
            },
        }
    }

    fn deserialize(r: &mut Reader<'_>) -> (res: SerResult<UnlockRef>) {
        proof {
            use_type_invariant(&*r);
        }
        let t = r.u8()?;
        proof {
            use_type_invariant(&*r);
            assert(r.rest() =~= old(r).rest().skip(1));
        }
        if t == 0 {
            let c = r.read::<ObjectId>()?;
            Ok(UnlockRef::Explicit(c))
        } else if t == 1 {
            let slot = r.str()?;
            Ok(UnlockRef::GrantedBy(slot))
        } else {
            Err(SerError::InvalidValue("unknown UnlockRef tag"))
        }
    }
}

impl Codec for UnlockRef {
    proof fn lemma_round_trip(v: UnlockRefView, rest: Seq<u8>) {
        match v {
            UnlockRefView::Explicit(c) => {
                let body = vstd::bytes::spec_u64_to_le_bytes(c);
                assert(seq![0u8] + body + rest =~= seq![0u8] + (body + rest));
                lemma_take_prefix(seq![0u8], body + rest);
                <u64 as Codec>::lemma_round_trip(c, rest);
            },
            UnlockRefView::GrantedBy(s) => {
                let body = enc_str(s);
                assert(seq![1u8] + body + rest =~= seq![1u8] + (body + rest));
                lemma_take_prefix(seq![1u8], body + rest);
                <String as Codec>::lemma_round_trip(s, rest);
            },
        }
    }
}

} // verus!
