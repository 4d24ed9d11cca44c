//! Schedule vocabulary: which regime a count landed in, which scope kinds content may fill, and
//! how many of something the whole world may hold.

use crate::node::{kind_at, kind_depth, lemma_kind_at_depth, NodeKind};
use vstd::prelude::*;

verus! {

/// Which regime the target landed in.
#[derive(Clone, Copy, Debug, PartialEq, Eq, Structural)]
pub enum TargetOutcome {
    /// Variety exceeded the ceiling; the target sits at the hard maximum.
    Abundant,
    /// Between the soft minimum and the hard maximum.
    Moderate,
    /// Below the soft minimum: sparse rather than repetitive, deliberately.
    Scarce,
    /// A constant the developer set.
    Fixed,
    /// Sampled uniformly from a fixed range.
    Sampled,
    /// Read from a curve over progression.
    Curved,
}

impl TargetOutcome {
    /// Did variety influence this number? `false` means the developer took control.
    pub fn is_adaptive(self) -> (b: bool)
        ensures
            b == (self is Abundant || self is Moderate || self is Scarce),
    {
        match self {
            TargetOutcome::Abundant | TargetOutcome::Moderate | TargetOutcome::Scarce => true,
            _ => false,
        }
    }

    /// The name shown in reports.
    pub fn to_string(&self) -> (s: String)
        ensures
            s@ == match *self {
                TargetOutcome::Abundant => "abundant"@,
                TargetOutcome::Moderate => "moderate"@,
                TargetOutcome::Scarce => "scarce"@,
                TargetOutcome::Fixed => "fixed"@,
                TargetOutcome::Sampled => "sampled"@,
                TargetOutcome::Curved => "curved"@,
            },
    {
        String::from_str(match self {
            TargetOutcome::Abundant => "abundant",
            TargetOutcome::Moderate => "moderate",
            TargetOutcome::Scarce => "scarce",
            TargetOutcome::Fixed => "fixed",
            TargetOutcome::Sampled => "sampled",
            TargetOutcome::Curved => "curved",
        })
    }
}

/// Is bit `d` of `bits` set?
pub open spec fn bit_set(bits: u8, d: u8) -> bool {
    bits & (1u8 << d) != 0
}

/// Which scope kinds a piece of content may fill, as a bit per kind depth.
#[derive(Clone, Copy, Debug, PartialEq, Eq, Default, Structural)]
pub struct ScopeFilter(u8);

proof fn lemma_bits(a: u8, d: u8, e: u8)
    requires
        d < 8,
        e < 8,
    ensures
        bit_set(a | (1u8 << d), e) == (bit_set(a, e) || d == e),
        !bit_set(0u8, e),
        bit_set(0x1fu8, e) == (e < 5),
{
    assert((a | (1u8 << d)) & (1u8 << e) != 0 <==> (a & (1u8 << e) != 0 || d == e)) by (bit_vector)
        requires
            d < 8,
            e < 8,
    ;
    assert(0u8 & (1u8 << e) == 0) by (bit_vector);
    assert(0x1fu8 & (1u8 << e) != 0 <==> e < 5) by (bit_vector)
        requires
            e < 8,
    ;
}

impl ScopeFilter {
    /// Only the five kind bits are ever set.
    #[verifier::type_invariant]
    spec fn kind_bits_only(self) -> bool {
        self.0 < 32
    }

    /// May content fill a scope of kind `k`?
    pub closed spec fn permits_kind(self, k: NodeKind) -> bool {
        bit_set(self.0, kind_depth(k))
    }

    /// Does this permit nothing at all?
    pub closed spec fn empty_spec(self) -> bool {
        self.0 == 0
    }

    /// Any scope kind.
    pub fn any() -> (f: ScopeFilter)
        ensures
            forall|k: NodeKind| #[trigger] f.permits_kind(k),
            f.deep_view() < 32,
    {
        let f = ScopeFilter(0x1f);
        proof {
            assert forall|k: NodeKind| #[trigger] f.permits_kind(k) by {
                lemma_bits(0, 0, kind_depth(k));
            }
        }
        f
    }

    /// Only the given kinds.
    pub fn only(kinds: &[NodeKind]) -> (f: ScopeFilter)
        ensures
            forall|k: NodeKind| #[trigger] f.permits_kind(k) <==> kinds@.contains(k),
            f.deep_view() < 32,
    {
        let mut bits: u8 = 0;
        let mut i: usize = 0;
        proof {
            assert forall|k: NodeKind| #[trigger] bit_set(bits, kind_depth(k)) <==> kinds@.take(
                0,
            ).contains(k) by {
                lemma_bits(0, 0, kind_depth(k));
            }
        }
        while i < kinds.len()
            invariant
                i <= kinds@.len(),
                bits < 32,
                forall|k: NodeKind| #[trigger] bit_set(bits, kind_depth(k)) <==> kinds@.take(
                    i as int,
                ).contains(k),
            decreases kinds@.len() - i,
        {
            let k = kinds[i];
            let d = k.depth();
            let ghost before = bits;
            bits = bits | (1u8 << d);
            assert(bits < 32) by (bit_vector)
                requires
                    bits == before | (1u8 << d),
                    before < 32,
                    d < 5,
            ;
            proof {
                let t = kinds@.take(i as int);
                let t1 = kinds@.take(i + 1);
                assert(t1 =~= t.push(k));
                assert forall|x: NodeKind| #[trigger] bit_set(bits, kind_depth(x)) <==> t1.contains(
                    x,
                ) by {
                    lemma_bits(before, d, kind_depth(x));
                    assert(bit_set(before, kind_depth(x)) <==> t.contains(x));
                    if t.contains(x) {
                        let j = choose|j: int| 0 <= j < t.len() && t[j] == x;
                        assert(t1[j] == x);
                    }
                    if x == k {
                        assert(t1[i as int] == x);
                    }
                    if t1.contains(x) {
                        let j = choose|j: int| 0 <= j < t1.len() && t1[j] == x;
                        if j < i {
                            assert(t[j] == x);
                        }
                    }
                    if kind_depth(x) == d {
                        assert(x == k);
                    }
                }
            }
            i += 1;
        }
        assert(kinds@.take(kinds@.len() as int) =~= kinds@);
        ScopeFilter(bits)
    }

    /// May this content fill that kind of scope?
    pub fn allows(self, kind: NodeKind) -> (b: bool)
        ensures
            b == self.permits_kind(kind),
    {
        self.0 & (1u8 << kind.depth()) != 0
    }

    /// Does this permit nothing?
    pub fn is_empty(self) -> (b: bool)
        ensures
            b == self.empty_spec(),
            b <==> forall|k: NodeKind| !#[trigger] self.permits_kind(k),
    {
        proof {
            use_type_invariant(self);
            assert forall|k: NodeKind| self.empty_spec() implies !#[trigger] self.permits_kind(k) by {
                lemma_bits(0, 0, kind_depth(k));
            }
            let x = self.0;
            if x != 0 {
                assert(x < 32 && x != 0 ==> (x & (1u8 << 0u8) != 0 || x & (1u8 << 1u8) != 0 || x & (1u8 << 2u8) != 0
                    || x & (1u8 << 3u8) != 0 || x & (1u8 << 4u8) != 0)) by (bit_vector);
                if bit_set(x, 0) {
                    assert(self.permits_kind(NodeKind::World));
                } else if bit_set(x, 1) {
                    assert(self.permits_kind(NodeKind::Reach));
                } else if bit_set(x, 2) {
                    assert(self.permits_kind(NodeKind::Area));
                } else if bit_set(x, 3) {
                    assert(self.permits_kind(NodeKind::Space));
                } else {
                    assert(self.permits_kind(NodeKind::Spatial));
                }
            }
        }
        self.0 == 0
    }

    /// The permitted kinds, outermost first.
    pub fn kinds(self) -> (v: Vec<NodeKind>)
        ensures
            forall|k: NodeKind| #[trigger] v@.contains(k) <==> self.permits_kind(k),
            forall|i: int, j: int|
                0 <= i < j < v@.len() ==> kind_depth(#[trigger] v@[i]) < kind_depth(#[trigger] v@[j]),
    {
        let all = NodeKind::all();
        let mut v: Vec<NodeKind> = Vec::new();
        let mut i: usize = 0;
        while i < 5
            invariant
                i <= 5,
                forall|j: int| 0 <= j < 5 ==> all@[j] == kind_at(j),
                forall|k: NodeKind| #[trigger] v@.contains(k) <==> (self.permits_kind(k)
                    && kind_depth(k) < i),
                forall|a: int, b: int|
                    0 <= a < b < v@.len() ==> kind_depth(#[trigger] v@[a]) < kind_depth(
                        #[trigger] v@[b],
                    ),
                forall|a: int| 0 <= a < v@.len() ==> kind_depth(#[trigger] v@[a]) < i,
            decreases 5 - i,
        {
            let k = all[i];
            let ghost before = v@;
            proof {
                lemma_kind_at_depth(i as int);
            }
            assert(kind_depth(k) == i);
            if self.allows(k) {
                v.push(k);
            }
            proof {
                assert forall|x: NodeKind| #[trigger] v@.contains(x) <==> (self.permits_kind(x)
                    && kind_depth(x) < i + 1) by {
                    assert(before.contains(x) <==> (self.permits_kind(x) && kind_depth(x) < i));
                    if before.contains(x) {
                        let j = choose|j: int| 0 <= j < before.len() && before[j] == x;
                        assert(v@[j] == x);
                    }
                    if v@.contains(x) {
                        let j = choose|j: int| 0 <= j < v@.len() && v@[j] == x;
                        if j < before.len() {
                            assert(before[j] == x);
                        }
                    }
                    if kind_depth(x) == i && self.permits_kind(x) {
                        assert(x == k);
                        assert(v@[before.len() as int] == x);
                    }
                }
            }
            i += 1;
        }
        v
    }
}

/// A filter built from a list allows exactly the kinds on the list.
pub proof fn law_only_allows_what_it_lists(kinds: Seq<NodeKind>, f: ScopeFilter, k: NodeKind)
    requires
        forall|x: NodeKind| #[trigger] f.permits_kind(x) <==> kinds.contains(x),
    ensures
        f.permits_kind(k) <==> kinds.contains(k),
{
}

/// How many of something may exist across the whole world.
#[derive(Clone, Copy, Debug, PartialEq, Eq, Structural)]
pub struct WorldLimit {
    /// The world must contain at least this many. `0` means optional.
    pub min: u32,
    /// The world may contain at most this many. `None` means unbounded.
    pub max: Option<u32>,
}

/// Does a limit accept a count?
pub open spec fn limit_permits(l: WorldLimit, count: u32) -> bool {
    count >= l.min && match l.max {
        Some(m) => count <= m,
        None => true,
    }
}

impl WorldLimit {
    /// No world-wide restriction.
    pub fn unlimited() -> (l: WorldLimit)
        ensures
            l == (WorldLimit { min: 0, max: None }),
    {
        WorldLimit { min: 0, max: None }
    }

    /// Exactly `n`: the unique-artifact case.
    pub fn exactly(n: u32) -> (l: WorldLimit)
        ensures
            l == (WorldLimit { min: n, max: Some(n) }),
    {
        WorldLimit { min: n, max: Some(n) }
    }

    /// At most `n`.
    pub fn at_most(n: u32) -> (l: WorldLimit)
        ensures
            l == (WorldLimit { min: 0, max: Some(n) }),
    {
        WorldLimit { min: 0, max: Some(n) }
    }

    /// At least `n`.
    pub fn at_least(n: u32) -> (l: WorldLimit)
        ensures
            l == (WorldLimit { min: n, max: None }),
    {
        WorldLimit { min: n, max: None }
    }

    /// Must the world contain this?
    pub fn is_required(self) -> (b: bool)
        ensures
            b == (self.min > 0),
    {
        self.min > 0
    }

    /// Is `count` acceptable?
    pub fn permits(self, count: u32) -> (b: bool)
        ensures
            b == limit_permits(self, count),
    {
        count >= self.min && match self.max {
            Some(m) => count <= m,
            None => true,
        }
    }
}

impl Default for WorldLimit {
    fn default() -> (l: WorldLimit)
        ensures
            l == (WorldLimit { min: 0, max: None }),
    {
        WorldLimit::unlimited()
    }
}

/// What each constructor promises: `exactly(n)` accepts only `n`, `at_most(n)` everything up to
/// `n`, `at_least(n)` everything from `n`, and the unlimited limit everything.
pub proof fn law_world_limits_mean_what_they_say(n: u32, c: u32)
    ensures
        limit_permits(WorldLimit { min: n, max: Some(n) }, c) <==> c == n,
        limit_permits(WorldLimit { min: 0, max: Some(n) }, c) <==> c <= n,
        limit_permits(WorldLimit { min: n, max: None }, c) <==> c >= n,
        limit_permits(WorldLimit { min: 0, max: None }, c),
{
}

// ---------------------------------------------------------------------------------------------
// On the wire
// ---------------------------------------------------------------------------------------------

impl DeepView for ScopeFilter {
    type V = u8;

    /// The bit per kind depth.
    closed spec fn deep_view(&self) -> u8 {
        self.0
    }
}

impl crate::serialize::Serialize for ScopeFilter {
    /// Only the bits of the five kinds may be set.
    open spec fn encodable(v: u8) -> bool {
        v < 32
    }

    /// One byte: the bits.
    open spec fn encoding(v: u8) -> Seq<u8> {
        seq![v]
    }

    fn serialize(&self, w: &mut crate::serialize::Writer) {
        w.u8(self.0);
        assert(final(w)@ =~= old(w)@ + seq![self.0]);
    }
}

impl crate::serialize::Deserialize for ScopeFilter {
    open spec fn decoding(rest: Seq<u8>) -> Result<(u8, nat), crate::serialize::SerError> {
        match crate::serialize::dec_u8(rest) {
            Err(e) => Err(e),
            Ok((b, k)) => if b < 32 {
                Ok((b, k))
            } else {
                Err(crate::serialize::SerError::InvalidValue("ScopeFilter has bits for no NodeKind"))
            },
        }
    }

    fn deserialize(r: &mut crate::serialize::Reader<'_>) -> (res: crate::serialize::SerResult<
        ScopeFilter,
    >) {
        let bits = r.u8()?;
        if bits & !0x1fu8 != 0 {
            assert(bits >= 32) by (bit_vector)
                requires
                    bits & !0x1fu8 != 0,
            ;
            return Err(crate::serialize::SerError::InvalidValue("ScopeFilter has bits for no NodeKind"));
        }
        assert(bits < 32) by (bit_vector)
            requires
                bits & !0x1fu8 == 0,
        ;
        Ok(ScopeFilter(bits))
    }
}

impl crate::serialize::Codec for ScopeFilter {
    proof fn lemma_round_trip(v: u8, rest: Seq<u8>) {
        crate::serialize::lemma_take_prefix(seq![v], rest);
    }
}

impl DeepView for WorldLimit {
    type V = WorldLimit;

    open spec fn deep_view(&self) -> WorldLimit {
        *self
    }
}

/// A limit the reader accepts: no maximum below the minimum.
pub open spec fn limit_consistent(l: WorldLimit) -> bool {
    match l.max {
        Some(m) => m >= l.min,
        None => true,
    }
}

/// The bytes of an optional `u32`: a presence flag, then the value.
pub open spec fn enc_opt_u32(v: Option<u32>) -> Seq<u8> {
    match v {
        Some(m) => crate::serialize::enc_bool(true) + vstd::bytes::spec_u32_to_le_bytes(m),
        None => crate::serialize::enc_bool(false),
    }
}

impl crate::serialize::Serialize for WorldLimit {
    open spec fn encodable(v: WorldLimit) -> bool {
        true
    }

    /// The minimum, then the optional maximum.
    open spec fn encoding(v: WorldLimit) -> Seq<u8> {
        vstd::bytes::spec_u32_to_le_bytes(v.min) + enc_opt_u32(v.max)
    }

    fn serialize(&self, w: &mut crate::serialize::Writer) {
        w.u32(self.min);
        w.write(&self.max);
        assert(final(w)@ =~= old(w)@ + Self::encoding(*self));
    }
}

impl crate::serialize::Deserialize for WorldLimit {
    open spec fn decoding(rest: Seq<u8>) -> Result<(WorldLimit, nat), crate::serialize::SerError> {
        match crate::serialize::dec_u32(rest) {
            Err(e) => Err(e),
            Ok((min, k)) => match <Option<u32> as crate::serialize::Deserialize>::decoding(
                rest.skip(k as int),
            ) {
                Err(e) => Err(e),
                Ok((max, m)) => if limit_consistent(WorldLimit { min, max }) {
                    Ok((WorldLimit { min, max }, k + m))
                } else {
                    Err(crate::serialize::SerError::InvalidValue("WorldLimit max is below min"))
                },
            },
        }
    }

    fn deserialize(r: &mut crate::serialize::Reader<'_>) -> (res: crate::serialize::SerResult<
        WorldLimit,
    >) {
        proof {
            use_type_invariant(&*r);
        }
        let min = r.u32()?;
        proof {
            use_type_invariant(&*r);
            assert(r.rest() =~= old(r).rest().skip(4));
        }
        let max = r.read::<Option<u32>>()?;
        let below = match max {
            Some(m) => m < min,
            None => false,
        };
        if below {
            return Err(crate::serialize::SerError::InvalidValue("WorldLimit max is below min"));
        }
        Ok(WorldLimit { min, max })
    }
}

/// Reading a written limit gives it back, whatever follows, when its maximum is not below its
/// minimum; a limit whose maximum is below its minimum is written but refused on reading.
pub proof fn law_world_limit_round_trip(v: WorldLimit, rest: Seq<u8>)
    ensures
        limit_consistent(v) ==> <WorldLimit as crate::serialize::Deserialize>::decoding(
            <WorldLimit as crate::serialize::Serialize>::encoding(v) + rest,
        ) == Ok::<(WorldLimit, nat), crate::serialize::SerError>(
            (v, <WorldLimit as crate::serialize::Serialize>::encoding(v).len()),
        ),
        !limit_consistent(v) ==> <WorldLimit as crate::serialize::Deserialize>::decoding(
            <WorldLimit as crate::serialize::Serialize>::encoding(v) + rest,
        ) == Err::<(WorldLimit, nat), crate::serialize::SerError>(
            crate::serialize::SerError::InvalidValue("WorldLimit max is below min"),
        ),
{
    let a = vstd::bytes::spec_u32_to_le_bytes(v.min);
    let b = enc_opt_u32(v.max);
    assert(a + b + rest =~= a + (b + rest));
    <u32 as crate::serialize::Codec>::lemma_round_trip(v.min, b + rest);
    vstd::bytes::lemma_auto_spec_u32_to_from_le_bytes();
    assert((a + (b + rest)).skip(4) =~= b + rest);
    <Option<u32> as crate::serialize::Codec>::lemma_round_trip(v.max, rest);
}

} // verus!
