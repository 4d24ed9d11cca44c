//! Object identity: stable ids, sequential allocation, and content-addressed derivation.
//!
//! A handle says where a value sits in an arena right now; an [`ObjectId`] says which object it
//! is. Ids come either from an [`IdAllocator`] (sequential, never reissued) or from
//! [`ObjectId::derived`] (a hash of a namespace and a path, identical in every run and build).

use crate::text::{debug_quoted, str_debug, string_from_chars};
use vstd::prelude::*;
use vstd::utf8::encode_utf8;

verus! {

/// The FNV-1a 64-bit offset basis.
pub const FNV_OFFSET: u64 = 0xcbf2_9ce4_8422_2325;

/// The FNV-1a 64-bit prime.
pub const FNV_PRIME: u64 = 0x0000_0100_0000_01b3;

/// One FNV-1a step: fold a byte into the running hash.
pub open spec fn fnv_step(h: u64, b: u8) -> u64 {
    (((h ^ (b as u64)) as nat * FNV_PRIME as nat) % 0x1_0000_0000_0000_0000nat) as u64
}

/// FNV-1a over `bytes`, starting from the running hash `h`.
pub open spec fn fnv_fold(h: u64, bytes: Seq<u8>) -> u64
    decreases bytes.len(),
{
    if bytes.len() == 0 {
        h
    } else {
        fnv_step(fnv_fold(h, bytes.drop_last()), bytes.last())
    }
}

/// The FNV-1a hash of a byte string.
pub open spec fn fnv1a(bytes: Seq<u8>) -> u64 {
    fnv_fold(FNV_OFFSET, bytes)
}

/// Combining two hashes: FNV-1a continued from `a` over the little-endian bytes of `b`.
pub open spec fn combine(a: u64, b: u64) -> u64 {
    fnv_fold(a, vstd::bytes::spec_u64_to_le_bytes(b))
}

/// A hash that is never the reserved zero.
pub open spec fn nonzero(h: u64) -> u64 {
    if h == 0 {
        1
    } else {
        h
    }
}

/// The id derived from a namespace and a path, given as UTF-8 bytes.
pub open spec fn derived_raw(namespace: Seq<u8>, path: Seq<u8>) -> u64 {
    nonzero(combine(fnv1a(namespace), fnv1a(path)))
}

/// The lowercase hexadecimal digits.
pub const HEX_DIGITS: [char; 16] = [
    '0', '1', '2', '3', '4', '5', '6', '7', '8', '9', 'a', 'b', 'c', 'd', 'e', 'f',
];

/// The `i`-th hex digit of `x`, most significant first.
pub open spec fn nibble(x: u64, i: int) -> u64 {
    (x >> ((60 - 4 * i) as u64)) & 0xf
}

/// `x` as sixteen lowercase hex digits.
pub open spec fn hex16(x: u64) -> Seq<char> {
    Seq::new(16, |i: int| HEX_DIGITS@[nibble(x, i) as int])
}

/// FNV-1a continued from `h` over `bytes`.
fn fnv_over(h: u64, bytes: &[u8]) -> (r: u64)
    ensures
        r == fnv_fold(h, bytes@),
{
    let mut acc = h;
    let mut i: usize = 0;
    while i < bytes.len()
        invariant
            i <= bytes@.len(),
            acc == fnv_fold(h, bytes@.take(i as int)),
        decreases bytes@.len() - i,
    {
        proof {
            assert(bytes@.take(i + 1).drop_last() =~= bytes@.take(i as int));
        }
        acc = (acc ^ (bytes[i] as u64)).wrapping_mul(FNV_PRIME);
        i += 1;
    }
    assert(bytes@.take(bytes@.len() as int) =~= bytes@);
    acc
}

/// Combine two hashes.
fn combine_hashes(a: u64, b: u64) -> (r: u64)
    ensures
        r == combine(a, b),
{
    let le = vstd::bytes::u64_to_le_bytes(b);
    fnv_over(a, le.as_slice())
}

/// A stable, serializable object identity.
///
/// Shown as `#` followed by sixteen lowercase hex digits, e.g. `#0a1b2c3d4e5f6071`.
#[derive(Clone, Copy, PartialEq, Eq, PartialOrd, Ord, Hash, Debug, Structural)]
pub struct ObjectId(u64);

impl ObjectId {
    /// The reserved "no object" id. Never allocated and never derived.
    pub fn none() -> (id: ObjectId)
        ensures
            id.raw() == 0,
    {
        ObjectId(0)
    }

    /// The raw value of this id.
    pub closed spec fn raw(self) -> u64 {
        self.0
    }

    /// The id with this raw value.
    pub closed spec fn of_raw(raw: u64) -> ObjectId {
        ObjectId(raw)
    }

    /// An id built from a raw value has that raw value.
    pub broadcast proof fn lemma_of_raw(raw: u64)
        ensures
            #[trigger] ObjectId::of_raw(raw).raw() == raw,
    {
    }

    /// Two ids are the same exactly when their raw values are.
    pub broadcast proof fn lemma_raw_determines(a: ObjectId, b: ObjectId)
        ensures
            #[trigger] a.raw() == #[trigger] b.raw() <==> a == b,
    {
    }

    /// Wrap a raw value.
    pub fn from_raw(raw: u64) -> (id: ObjectId)
        ensures
            id.raw() == raw,
    {
        ObjectId(raw)
    }

    /// The underlying value.
    pub fn to_raw(self) -> (raw: u64)
        ensures
            raw == self.raw(),
    {
        self.0
    }

    /// Is this the reserved [`ObjectId::none`]?
    pub fn is_none(self) -> (b: bool)
        ensures
            b == (self.raw() == 0),
    {
        self.0 == 0
    }

    /// Are these the same id?
    pub fn same(self, other: ObjectId) -> (b: bool)
        ensures
            b == (self == other),
    {
        self.0 == other.0
    }

    /// A content-addressed id derived from a namespace and a path: the same pair always yields
    /// the same id, in every run, build and target, and never the reserved zero.
    pub fn derived(namespace: &str, path: &str) -> (id: ObjectId)
        ensures
            id.raw() == derived_raw(encode_utf8(namespace@), encode_utf8(path@)),
            id.raw() != 0,
    {
        let a = fnv_over(FNV_OFFSET, namespace.as_bytes());
        let b = fnv_over(FNV_OFFSET, path.as_bytes());
        let id = combine_hashes(a, b);
        ObjectId(if id == 0 { 1 } else { id })
    }

    /// An id derived beneath an existing one, for sub-objects whose identity follows their
    /// parent's.
    pub fn child(self, label: &str) -> (id: ObjectId)
        ensures
            id.raw() == nonzero(combine(self.raw(), fnv1a(encode_utf8(label@)))),
    {
        let b = fnv_over(FNV_OFFSET, label.as_bytes());
        let id = combine_hashes(self.0, b);
        ObjectId(if id == 0 { 1 } else { id })
    }

    /// The display form: `#` and sixteen lowercase hex digits.
    pub fn to_string(&self) -> (s: String)
        ensures
            s@ == seq!['#'] + hex16(self.raw()),
    {
        let x = self.0;
        let mut out: Vec<char> = Vec::new();
        out.push('#');
        let mut i: u64 = 0;
        while i < 16
            invariant
                i <= 16,
                x == self.raw(),
                out@ == seq!['#'] + hex16(x).take(i as int),
            decreases 16 - i,
        {
            let shift: u64 = 60 - 4 * i;
            let d = (x >> shift) & 0xf;
            assert(d < 16) by (bit_vector)
                requires
                    d == (x >> shift) & 0xf,
            ;
            proof {
                assert(d == nibble(x, i as int));
                assert(hex16(x).take(i + 1) =~= hex16(x).take(i as int).push(
                    HEX_DIGITS@[d as int],
                ));
            }
            out.push(HEX_DIGITS[d as usize]);
            i += 1;
        }
        assert(hex16(x).take(16) =~= hex16(x));
        string_from_chars(out.as_slice())
    }

    /// The debug form: `ObjectId(NONE)` for the reserved id, `ObjectId(#...)` otherwise.
    pub fn debug_text(&self) -> (s: String)
        ensures
            self.raw() == 0 ==> s@ == "ObjectId(NONE)"@,
            self.raw() != 0 ==> s@ == "ObjectId("@ + seq!['#'] + hex16(self.raw()) + ")"@,
    {
        if self.is_none() {
            String::from_str("ObjectId(NONE)")
        } else {
            let mut s = String::from_str("ObjectId(");
            let t = self.to_string();
            s.append(t.as_str());
            s.append(")");
            proof {
                assert(s@ =~= "ObjectId("@ + seq!['#'] + hex16(self.raw()) + ")"@);
            }
            s
        }
    }
}

impl DeepView for ObjectId {
    type V = u64;

    closed spec fn deep_view(&self) -> u64 {
        self.0
    }
}

impl ObjectId {
    /// An id's deep view is its raw value.
    pub broadcast proof fn lemma_deep_view_is_raw(id: ObjectId)
        ensures
            #[trigger] id.deep_view() == id.raw(),
    {
    }
}

/// Hands out sequential [`ObjectId`]s, starting from one, never reissuing one.
#[derive(Debug, PartialEq, Eq)]
pub struct IdAllocator {
    next: u64,
}

impl Clone for IdAllocator {
    fn clone(&self) -> (a: IdAllocator)
        ensures
            a.next_raw() == self.next_raw(),
    {
        proof {
            use_type_invariant(self);
        }
        IdAllocator { next: self.next }
    }
}

impl IdAllocator {
    /// The value the next allocation will use.
    pub closed spec fn next_raw(self) -> u64 {
        self.next
    }

    #[verifier::type_invariant]
    spec fn never_zero(self) -> bool {
        self.next >= 1
    }

    /// A fresh allocator. The first id issued is `1`.
    pub fn new() -> (a: IdAllocator)
        ensures
            a.next_raw() == 1,
    {
        IdAllocator { next: 1 }
    }

    /// Resume from a previously serialized counter.
    pub fn resuming_from(next: u64) -> (a: IdAllocator)
        ensures
            a.next_raw() == if next >= 1 {
                next
            } else {
                1
            },
    {
        IdAllocator { next: if next >= 1 { next } else { 1 } }
    }

    /// The value the next [`IdAllocator::allocate`] will use.
    pub fn peek(&self) -> (n: u64)
        ensures
            n == self.next_raw(),
            n >= 1,
    {
        proof {
            use_type_invariant(self);
        }
        self.next
    }

    /// Issue the next id. The 64-bit id space must not be exhausted.
    pub fn allocate(&mut self) -> (id: ObjectId)
        requires
            old(self).next_raw() < u64::MAX,
        ensures
            id.raw() == old(self).next_raw(),
            id == ObjectId::of_raw(old(self).next_raw()),
            final(self).next_raw() == old(self).next_raw() + 1,
            id.raw() != 0,
    {
        proof {
            use_type_invariant(&*self);
        }
        let id = ObjectId(self.next);
        self.next = self.next + 1;
        id
    }
}

impl Default for IdAllocator {
    fn default() -> (a: IdAllocator)
        ensures
            a.next_raw() == 1,
    {
        IdAllocator::new()
    }
}

/// The fields every object carries: a stable identity and a human-facing name.
#[derive(Clone, Debug, PartialEq, Eq)]
pub struct ObjectHeader {
    /// Stable identity.
    pub id: ObjectId,
    /// Human-facing name; not an identity.
    pub name: String,
}

impl ObjectHeader {
    /// A header with an explicit id and name.
    pub fn new(id: ObjectId, name: &str) -> (h: ObjectHeader)
        ensures
            h.id == id,
            h.name@ == name@,
    {
        ObjectHeader { id, name: String::from_str(name) }
    }

    /// A header with a content-addressed id derived from `namespace` and `name`.
    pub fn derived(namespace: &str, name: &str) -> (h: ObjectHeader)
        ensures
            h.id.raw() == derived_raw(encode_utf8(namespace@), encode_utf8(name@)),
            h.name@ == name@,
    {
        ObjectHeader { id: ObjectId::derived(namespace, name), name: String::from_str(name) }
    }
}

impl DeepView for ObjectHeader {
    type V = (u64, Seq<char>);

    open spec fn deep_view(&self) -> (u64, Seq<char>) {
        (self.id.deep_view(), self.name@)
    }
}

} // verus!

verus! {

/// A one-line description for traces and errors: the type name, the quoted name, the id, as in
/// `Door "heavy_gate" #00000000000004d2`.
pub fn description(type_label: &str, name: &str, id: ObjectId) -> (s: String)
    ensures
        s@ == type_label@ + " "@ + str_debug(name@) + " "@ + seq!['#'] + hex16(id.raw()),
{
    let mut s = String::from_str(type_label);
    s.append(" ");
    let q = debug_quoted(name);
    s.append(q.as_str());
    s.append(" ");
    let t = id.to_string();
    s.append(t.as_str());
    s
}

/// Implemented by everything that lives in the object graph: the common denominator the trace,
/// the editor inspector and serialization rely on. Types outside this crate implement it.
pub trait Object {
    /// This object's header.
    fn header(&self) -> &ObjectHeader;

    /// This object's header, mutably.
    fn header_mut(&mut self) -> &mut ObjectHeader;

    /// The type's name, as shown in the editor and diagnostics.
    fn type_label(&self) -> &'static str;

    /// Stable identity: the id of the header [`Object::header`] gives.
    fn id(&self) -> (i: ObjectId)
        ensures
            exists|h: &ObjectHeader| call_ensures(Self::header, (self,), h) && i == h.id,
    {
        self.header().id
    }

    /// Human-facing name: the name in the header [`Object::header`] gives.
    fn name(&self) -> (n: &str)
        ensures
            exists|h: &ObjectHeader| call_ensures(Self::header, (self,), h) && n@ == h.name@,
    {
        self.header().name.as_str()
    }

    /// A one-line description for traces and errors: the type's name, the quoted name and the id,
    /// as [`description`] writes them.
    fn describe(&self) -> (s: String)
        ensures
            exists|t: &'static str, a: &ObjectHeader, b: &ObjectHeader|
                call_ensures(Self::type_label, (self,), t) && call_ensures(Self::header, (self,), a)
                    && call_ensures(Self::header, (self,), b) && s@ == t@ + " "@ + str_debug(a.name@) + " "@
                    + seq!['#'] + hex16(b.id.raw()),
    {
        description(self.type_label(), self.name(), self.id())
    }
}

impl crate::serialize::Serialize for ObjectId {
    open spec fn encodable(v: u64) -> bool {
        true
    }

    open spec fn encoding(v: u64) -> Seq<u8> {
        vstd::bytes::spec_u64_to_le_bytes(v)
    }

    fn serialize(&self, w: &mut crate::serialize::Writer) {
        w.u64(self.0);
    }
}

impl crate::serialize::Deserialize for ObjectId {
    open spec fn decoding(rest: Seq<u8>) -> Result<(u64, nat), crate::serialize::SerError> {
        crate::serialize::dec_u64(rest)
    }

    fn deserialize(r: &mut crate::serialize::Reader<'_>) -> (res: crate::serialize::SerResult<
        ObjectId,
    >) {
        let v = r.u64()?;
        Ok(ObjectId::from_raw(v))
    }
}

impl crate::serialize::Codec for ObjectId {
    proof fn lemma_round_trip(v: u64, rest: Seq<u8>) {
        <u64 as crate::serialize::Codec>::lemma_round_trip(v, rest);
    }
}

impl crate::serialize::Serialize for ObjectHeader {
    open spec fn encodable(v: (u64, Seq<char>)) -> bool {
        encode_utf8(v.1).len() <= u32::MAX
    }

    open spec fn encoding(v: (u64, Seq<char>)) -> Seq<u8> {
        vstd::bytes::spec_u64_to_le_bytes(v.0) + crate::serialize::enc_str(v.1)
    }

    fn serialize(&self, w: &mut crate::serialize::Writer) {
        w.write(&self.id);
        w.str(self.name.as_str());
        assert(final(w)@ =~= old(w)@ + Self::encoding(self.deep_view()));
    }
}

impl crate::serialize::Deserialize for ObjectHeader {
    open spec fn decoding(rest: Seq<u8>) -> Result<((u64, Seq<char>), nat), crate::serialize::SerError> {
        match crate::serialize::dec_u64(rest) {
            Err(e) => Err(e),
            Ok((id, k)) => match crate::serialize::dec_str(rest.skip(k as int)) {
                Err(e) => Err(e),
                Ok((name, m)) => Ok(((id, name), k + m)),
            },
        }
    }

    fn deserialize(r: &mut crate::serialize::Reader<'_>) -> (res: crate::serialize::SerResult<
        ObjectHeader,
    >) {
        proof {
            use_type_invariant(&*r);
        }
        let id = r.read::<ObjectId>()?;
        proof {
            use_type_invariant(&*r);
            assert(crate::serialize::dec_u64(old(r).rest()) is Ok);
            assert(r.at() == old(r).at() + 8);
            assert(r.rest() =~= old(r).rest().skip(8));
        }
        let name = r.str()?;
        Ok(ObjectHeader { id, name })
    }
}

impl crate::serialize::Codec for ObjectHeader {
    proof fn lemma_round_trip(v: (u64, Seq<char>), rest: Seq<u8>) {
        let a = vstd::bytes::spec_u64_to_le_bytes(v.0);
        let b = crate::serialize::enc_str(v.1);
        assert(a + b + rest =~= a + (b + rest));
        <u64 as crate::serialize::Codec>::lemma_round_trip(v.0, b + rest);
        vstd::bytes::lemma_auto_spec_u64_to_from_le_bytes();
        assert((a + (b + rest)).skip(8) =~= b + rest);
        <String as crate::serialize::Codec>::lemma_round_trip(v.1, rest);
    }
}

impl DeepView for IdAllocator {
    type V = u64;

    closed spec fn deep_view(&self) -> u64 {
        self.next
    }
}

impl IdAllocator {
    /// An allocator's deep view is its counter.
    pub broadcast proof fn lemma_deep_view_is_next(a: IdAllocator)
        ensures
            #[trigger] a.deep_view() == a.next_raw(),
    {
    }
}

impl crate::serialize::Serialize for IdAllocator {
    open spec fn encodable(v: u64) -> bool {
        v >= 1
    }

    open spec fn encoding(v: u64) -> Seq<u8> {
        vstd::bytes::spec_u64_to_le_bytes(v)
    }

    fn serialize(&self, w: &mut crate::serialize::Writer) {
        w.u64(self.peek());
    }
}

impl crate::serialize::Deserialize for IdAllocator {
    open spec fn decoding(rest: Seq<u8>) -> Result<(u64, nat), crate::serialize::SerError> {
        match crate::serialize::dec_u64(rest) {
            Err(e) => Err(e),
            Ok((v, k)) => Ok((if v >= 1 { v } else { 1 }, k)),
        }
    }

    fn deserialize(r: &mut crate::serialize::Reader<'_>) -> (res: crate::serialize::SerResult<
        IdAllocator,
    >) {
        let v = r.u64()?;
        Ok(IdAllocator::resuming_from(v))
    }
}

impl crate::serialize::Codec for IdAllocator {
    proof fn lemma_round_trip(v: u64, rest: Seq<u8>) {
        <u64 as crate::serialize::Codec>::lemma_round_trip(v, rest);
    }
}

} // verus!
