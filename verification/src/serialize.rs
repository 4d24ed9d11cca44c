//! The deterministic binary format: little-endian fixed-width integers, `u32` length prefixes,
//! and an envelope of magic bytes and a format version at the head of every artifact.
//!
//! Every write appends exactly the bytes its encoding function names, and every read either yields
//! the value the decoding function names for the bytes that remain or fails with the error it names.
//! The laws at the end of this file tie the two together: what a writer wrote, a reader reads back.

use vstd::bytes::*;
use crate::text::{decimal, decimal_text};
use vstd::prelude::*;
use vstd::utf8::*;

verus! {

broadcast use vstd::seq_lib::group_seq_properties;

/// Magic bytes beginning every serialized artifact: "CVDS".
pub const MAGIC: [u8; 4] = [67u8, 86u8, 68u8, 83u8];

/// The format version. Bumped on any incompatible change to the encoding.
pub const FORMAT_VERSION: u32 = 1;

/// Everything that can go wrong while reading.
#[derive(Clone, Debug, PartialEq, Eq)]
pub enum SerError {
    /// Ran out of bytes mid-value.
    UnexpectedEof { needed: usize, remaining: usize },
    /// The stream did not begin with [`MAGIC`].
    BadMagic { found: [u8; 4] },
    /// The stream's version is not one this build understands.
    UnsupportedVersion { found: u32, supported: u32 },
    /// A string was not valid UTF-8.
    InvalidUtf8,
    /// A value was structurally impossible (a zero generation, an out-of-range tag, ...).
    InvalidValue(&'static str),
    /// Bytes remained after the value was fully read.
    TrailingBytes(usize),
}

/// Result alias for reads.
pub type SerResult<T> = Result<T, SerError>;

/// Four bytes as `{:?}` prints an array of them: `[a, b, c, d]`, each in decimal.
pub open spec fn four_bytes_text(b: [u8; 4]) -> Seq<char> {
    "["@ + decimal(b@[0] as nat) + ", "@ + decimal(b@[1] as nat) + ", "@ + decimal(b@[2] as nat)
        + ", "@ + decimal(b@[3] as nat) + "]"@
}

fn four_bytes(b: [u8; 4]) -> (s: String)
    ensures
        s@ == four_bytes_text(b),
{
    let mut s = String::from_str("[");
    let mut i: usize = 0;
    while i < 4
        invariant
            i <= 4,
            s@ == "["@ + bytes_listed(b@, i as int),
        decreases 4 - i,
    {
        if i > 0 {
            s.append(", ");
        }
        let d = decimal_text(b[i] as u64);
        s.append(d.as_str());
        proof {
            if i == 0 {
                assert(s@ =~= "["@ + bytes_listed(b@, 1));
            } else {
                assert(s@ =~= "["@ + bytes_listed(b@, i + 1));
            }
        }
        i += 1;
    }
    s.append("]");
    proof {
        reveal_with_fuel(bytes_listed, 5);
        assert(s@ =~= four_bytes_text(b));
    }
    s
}

/// The first `n` bytes of `b` in decimal, separated by `, `.
pub open spec fn bytes_listed(b: Seq<u8>, n: int) -> Seq<char>
    decreases n,
{
    if n <= 0 {
        Seq::empty()
    } else if n == 1 {
        decimal(b[0] as nat)
    } else {
        bytes_listed(b, n - 1) + ", "@ + decimal(b[n - 1] as nat)
    }
}

/// The message for a read failure.
pub open spec fn ser_error_text(e: SerError) -> Seq<char> {
    match e {
        SerError::UnexpectedEof { needed, remaining } => "unexpected end of stream: needed "@
            + decimal(needed as nat) + " bytes, "@ + decimal(remaining as nat) + " remain"@,
        SerError::BadMagic { found } => "bad magic "@ + four_bytes_text(found) + "; expected "@
            + four_bytes_text(MAGIC) + " — not a CycleVania stream"@,
        SerError::UnsupportedVersion { found, supported } => "format version "@ + decimal(
            found as nat,
        ) + " is not supported (this build reads "@ + decimal(supported as nat) + ")"@,
        SerError::InvalidUtf8 => "string was not valid UTF-8"@,
        SerError::InvalidValue(what) => "invalid value: "@ + what@,
        SerError::TrailingBytes(n) => decimal(n as nat) + " trailing bytes after the value"@,
    }
}

impl SerError {
    /// The message for this failure.
    pub fn to_string(&self) -> (s: String)
        ensures
            s@ == ser_error_text(*self),
    {
        match self {
            SerError::UnexpectedEof { needed, remaining } => {
                let mut s = String::from_str("unexpected end of stream: needed ");
                let a = decimal_text(*needed as u64);
                s.append(a.as_str());
                s.append(" bytes, ");
                let b = decimal_text(*remaining as u64);
                s.append(b.as_str());
                s.append(" remain");
                s
            },
            SerError::BadMagic { found } => {
                let mut s = String::from_str("bad magic ");
                let a = four_bytes(*found);
                s.append(a.as_str());
                s.append("; expected ");
                let b = four_bytes(MAGIC);
                s.append(b.as_str());
                s.append(" — not a CycleVania stream");
                s
            },
            SerError::UnsupportedVersion { found, supported } => {
                let mut s = String::from_str("format version ");
                let a = decimal_text(*found as u64);
                s.append(a.as_str());
                s.append(" is not supported (this build reads ");
                let b = decimal_text(*supported as u64);
                s.append(b.as_str());
                s.append(")");
                s
            },
            SerError::InvalidUtf8 => String::from_str("string was not valid UTF-8"),
            SerError::InvalidValue(what) => {
                let mut s = String::from_str("invalid value: ");
                s.append(what);
                s
            },
            SerError::TrailingBytes(n) => {
                let mut s = decimal_text(*n as u64);
                s.append(" trailing bytes after the value");
                s
            },
        }
    }
}

// ---------------------------------------------------------------------------------------------
// Encodings and decodings, as functions on byte sequences
// ---------------------------------------------------------------------------------------------

/// The error for a read that needed `needed` bytes where only `rest` remained.
pub open spec fn eof(needed: nat, rest: Seq<u8>) -> SerError {
    SerError::UnexpectedEof { needed: needed as usize, remaining: rest.len() as usize }
}

/// The magic bytes as a sequence.
pub open spec fn magic_bytes() -> Seq<u8> {
    seq![67u8, 86u8, 68u8, 83u8]
}

/// The envelope every artifact begins with: the magic, then the version.
pub open spec fn envelope() -> Seq<u8> {
    magic_bytes() + spec_u32_to_le_bytes(FORMAT_VERSION)
}

/// The encoding of a `bool`: one byte, `0` or `1`.
pub open spec fn enc_bool(v: bool) -> Seq<u8> {
    seq![if v { 1u8 } else { 0u8 }]
}

/// The encoding of an `i32`: the little-endian bytes of its two's-complement bit pattern.
pub open spec fn enc_i32(v: i32) -> Seq<u8> {
    spec_u32_to_le_bytes(v as u32)
}

/// The encoding of an `i64`.
pub open spec fn enc_i64(v: i64) -> Seq<u8> {
    spec_u64_to_le_bytes(v as u64)
}

/// The encoding of a length-prefixed byte string.
pub open spec fn enc_bytes(b: Seq<u8>) -> Seq<u8> {
    spec_u32_to_le_bytes(b.len() as u32) + b
}

/// The encoding of a length-prefixed UTF-8 string.
pub open spec fn enc_str(s: Seq<char>) -> Seq<u8> {
    enc_bytes(encode_utf8(s))
}

/// Reading a `u8` from `rest`: the value and how many bytes it took.
pub open spec fn dec_u8(rest: Seq<u8>) -> Result<(u8, nat), SerError> {
    if rest.len() < 1 {
        Err(eof(1, rest))
    } else {
        Ok((rest[0], 1))
    }
}

/// Reading a `bool` from `rest`.
pub open spec fn dec_bool(rest: Seq<u8>) -> Result<(bool, nat), SerError> {
    if rest.len() < 1 {
        Err(eof(1, rest))
    } else if rest[0] == 0 {
        Ok((false, 1))
    } else if rest[0] == 1 {
        Ok((true, 1))
    } else {
        Err(SerError::InvalidValue("bool must be 0 or 1"))
    }
}

/// Reading a `u16` from `rest`.
pub open spec fn dec_u16(rest: Seq<u8>) -> Result<(u16, nat), SerError> {
    if rest.len() < 2 {
        Err(eof(2, rest))
    } else {
        Ok((spec_u16_from_le_bytes(rest.take(2)), 2))
    }
}

/// Reading a `u32` from `rest`.
pub open spec fn dec_u32(rest: Seq<u8>) -> Result<(u32, nat), SerError> {
    if rest.len() < 4 {
        Err(eof(4, rest))
    } else {
        Ok((spec_u32_from_le_bytes(rest.take(4)), 4))
    }
}

/// Reading a `u64` from `rest`.
pub open spec fn dec_u64(rest: Seq<u8>) -> Result<(u64, nat), SerError> {
    if rest.len() < 8 {
        Err(eof(8, rest))
    } else {
        Ok((spec_u64_from_le_bytes(rest.take(8)), 8))
    }
}

/// Reading an `i32` from `rest`.
pub open spec fn dec_i32(rest: Seq<u8>) -> Result<(i32, nat), SerError> {
    match dec_u32(rest) {
        Ok((v, n)) => Ok((v as i32, n)),
        Err(e) => Err(e),
    }
}

/// Reading an `i64` from `rest`.
pub open spec fn dec_i64(rest: Seq<u8>) -> Result<(i64, nat), SerError> {
    match dec_u64(rest) {
        Ok((v, n)) => Ok((v as i64, n)),
        Err(e) => Err(e),
    }
}

/// Reading a `u32` length prefix that must not exceed the bytes behind it.
pub open spec fn dec_len(rest: Seq<u8>) -> Result<(nat, nat), SerError> {
    match dec_u32(rest) {
        Ok((n, k)) => if n > rest.len() - 4 {
            Err(eof(n as nat, rest.skip(4)))
        } else {
            Ok((n as nat, k))
        },
        Err(e) => Err(e),
    }
}

/// Reading a length-prefixed byte string.
pub open spec fn dec_bytes(rest: Seq<u8>) -> Result<(Seq<u8>, nat), SerError> {
    match dec_len(rest) {
        Ok((n, k)) => Ok((rest.subrange(4, 4 + n as int), 4 + n)),
        Err(e) => Err(e),
    }
}

/// Reading a length-prefixed UTF-8 string.
pub open spec fn dec_str(rest: Seq<u8>) -> Result<(Seq<char>, nat), SerError> {
    match dec_bytes(rest) {
        Ok((b, n)) => if valid_utf8(b) {
            Ok((decode_utf8(b), n))
        } else {
            Err(SerError::InvalidUtf8)
        },
        Err(e) => Err(e),
    }
}

/// What validating the envelope at the head of `buf` yields: how many bytes it took.
pub open spec fn dec_envelope(buf: Seq<u8>) -> Result<nat, SerError> {
    if buf.len() < 4 {
        Err(eof(4, buf))
    } else if buf.take(4) != magic_bytes() {
        Err(SerError::BadMagic { found: [buf[0], buf[1], buf[2], buf[3]] })
    } else {
        match dec_u32(buf.skip(4)) {
            Err(e) => Err(e),
            Ok((v, _)) => if v != FORMAT_VERSION {
                Err(SerError::UnsupportedVersion { found: v, supported: FORMAT_VERSION })
            } else {
                Ok(8)
            },
        }
    }
}

// ---------------------------------------------------------------------------------------------
// Writer
// ---------------------------------------------------------------------------------------------

/// Appends values to a byte buffer. Writing only grows the buffer.
#[derive(Clone, Debug, Default)]
pub struct Writer {
    buf: Vec<u8>,
}

impl View for Writer {
    type V = Seq<u8>;

    closed spec fn view(&self) -> Seq<u8> {
        self.buf@
    }
}

impl Writer {
    /// A new, empty writer.
    pub fn new() -> (w: Writer)
        ensures
            w@ == Seq::<u8>::empty(),
    {
        Writer { buf: Vec::new() }
    }

    /// A writer that begins with the magic + version envelope.
    pub fn with_envelope() -> (w: Writer)
        ensures
            w@ == envelope(),
    {
        let mut w = Writer::new();
        let m = MAGIC;
        w.bytes_raw(&m);
        w.u32(FORMAT_VERSION);
        proof {
            assert(m@ == magic_bytes());
        }
        w
    }

    /// The bytes written so far.
    pub fn finish(self) -> (v: Vec<u8>)
        ensures
            v@ == self@,
    {
        self.buf
    }

    /// How many bytes have been written.
    pub fn position(&self) -> (n: usize)
        ensures
            n == self@.len(),
    {
        self.buf.len()
    }

    /// Raw bytes, with no length prefix.
    pub fn bytes_raw(&mut self, b: &[u8])
        ensures
            final(self)@ == old(self)@ + b@,
    {
        let mut i: usize = 0;
        while i < b.len()
            invariant
                i <= b@.len(),
                self.buf@ == old(self).buf@ + b@.take(i as int),
            decreases b@.len() - i,
        {
            self.buf.push(b[i]);
            assert(b@.take(i + 1) =~= b@.take(i as int).push(b@[i as int]));
            i += 1;
        }
        assert(b@.take(b@.len() as int) =~= b@);
    }

    /// A single byte.
    pub fn u8(&mut self, v: u8)
        ensures
            final(self)@ == old(self)@.push(v),
    {
        self.buf.push(v);
    }

    /// A `bool`, as `0` or `1`.
    pub fn bool(&mut self, v: bool)
        ensures
            final(self)@ == old(self)@ + enc_bool(v),
    {
        self.u8(if v { 1u8 } else { 0u8 });
        assert(old(self)@.push(if v { 1u8 } else { 0u8 }) =~= old(self)@ + enc_bool(v));
    }

    /// A little-endian `u16`.
    pub fn u16(&mut self, v: u16)
        ensures
            final(self)@ == old(self)@ + spec_u16_to_le_bytes(v),
    {
        let b = u16_to_le_bytes(v);
        self.bytes_raw(b.as_slice());
    }

    /// A little-endian `u32`.
    pub fn u32(&mut self, v: u32)
        ensures
            final(self)@ == old(self)@ + spec_u32_to_le_bytes(v),
    {
        let b = u32_to_le_bytes(v);
        self.bytes_raw(b.as_slice());
    }

    /// A little-endian `u64`.
    pub fn u64(&mut self, v: u64)
        ensures
            final(self)@ == old(self)@ + spec_u64_to_le_bytes(v),
    {
        let b = u64_to_le_bytes(v);
        self.bytes_raw(b.as_slice());
    }

    /// A little-endian `i32`.
    pub fn i32(&mut self, v: i32)
        ensures
            final(self)@ == old(self)@ + enc_i32(v),
    {
        self.u32(v as u32);
    }

    /// A little-endian `i64`.
    pub fn i64(&mut self, v: i64)
        ensures
            final(self)@ == old(self)@ + enc_i64(v),
    {
        self.u64(v as u64);
    }

    /// A length, always as `u32`.
    pub fn len(&mut self, n: usize)
        requires
            n <= u32::MAX,
        ensures
            final(self)@ == old(self)@ + spec_u32_to_le_bytes(n as u32),
    {
        self.u32(n as u32);
    }

    /// A UTF-8 string, length-prefixed.
    pub fn str(&mut self, s: &str)
        requires
            encode_utf8(s@).len() <= u32::MAX,
        ensures
            final(self)@ == old(self)@ + enc_str(s@),
    {
        let b = s.as_bytes();
        self.len(b.len());
        self.bytes_raw(b);
        assert(final(self)@ =~= old(self)@ + enc_str(s@));
    }

    /// A length-prefixed byte slice.
    pub fn bytes(&mut self, b: &[u8])
        requires
            b@.len() <= u32::MAX,
        ensures
            final(self)@ == old(self)@ + enc_bytes(b@),
    {
        self.len(b.len());
        self.bytes_raw(b);
        assert(final(self)@ =~= old(self)@ + enc_bytes(b@));
    }
}

// ---------------------------------------------------------------------------------------------
// Reader
// ---------------------------------------------------------------------------------------------

/// Reads values from a byte slice, tracking position and reporting precise errors.
#[derive(Debug)]
pub struct Reader<'a> {
    pub(crate) buf: &'a [u8],
    pub(crate) pos: usize,
}

/// Decodes UTF-8 with `std::str::from_utf8`, which accepts exactly the valid encodings.
#[verifier::external_body]
fn utf8_text(b: &[u8]) -> (s: Option<String>)
    ensures
        match s {
            Some(t) => valid_utf8(b@) && t@ == decode_utf8(b@),
            None => !valid_utf8(b@),
        },
{
    match std::str::from_utf8(b) {
        Ok(t) => Some(t.to_owned()),
        Err(_) => None,
    }
}

impl<'a> Clone for Reader<'a> {
    fn clone(&self) -> (r: Self)
        ensures
            r.data() == self.data(),
            r.at() == self.at(),
    {
        proof {
            use_type_invariant(self);
        }
        Reader { buf: self.buf, pos: self.pos }
    }
}

impl<'a> Reader<'a> {
    #[verifier::type_invariant]
    pub(crate) open spec fn in_bounds(self) -> bool {
        self.at() <= self.data().len()
    }

    /// The whole stream.
    pub closed spec fn data(self) -> Seq<u8> {
        self.buf@
    }

    /// How many bytes have been consumed.
    pub closed spec fn at(self) -> nat {
        self.pos as nat
    }

    /// The bytes not yet consumed.
    pub open spec fn rest(self) -> Seq<u8> {
        self.data().subrange(self.at() as int, self.data().len() as int)
    }

    /// A reader over `buf`, starting at the beginning.
    pub fn new(buf: &'a [u8]) -> (r: Reader<'a>)
        ensures
            r.data() == buf@,
            r.at() == 0,
    {
        Reader { buf, pos: 0 }
    }

    /// How many bytes have been consumed.
    pub fn position(&self) -> (n: usize)
        ensures
            n == self.at(),
    {
        self.pos
    }

    /// How many bytes remain.
    pub fn remaining(&self) -> (n: usize)
        ensures
            n == self.rest().len(),
    {
        proof {
            use_type_invariant(self);
        }
        self.buf.len() - self.pos
    }

    /// Is the stream fully consumed?
    pub fn is_empty(&self) -> (b: bool)
        ensures
            b == (self.rest().len() == 0),
    {
        self.remaining() == 0
    }

    /// Error unless the stream is fully consumed.
    pub fn expect_end(&self) -> (res: SerResult<()>)
        ensures
            self.rest().len() == 0 ==> res == Ok::<(), SerError>(()),
            self.rest().len() != 0 ==> res == Err::<(), SerError>(
                SerError::TrailingBytes(self.rest().len() as usize),
            ),
    {
        if self.is_empty() {
            Ok(())
        } else {
            Err(SerError::TrailingBytes(self.remaining()))
        }
    }

    /// Consume exactly `n` bytes.
    pub fn take(&mut self, n: usize) -> (res: SerResult<&'a [u8]>)
        ensures
            final(self).data() == old(self).data(),
            n <= old(self).rest().len() ==> {
                &&& res matches Ok(out)
                &&& out@ == old(self).rest().take(n as int)
                &&& final(self).at() == old(self).at() + n
            },
            n > old(self).rest().len() ==> {
                &&& res == Err::<&'a [u8], SerError>(eof(n as nat, old(self).rest()))
                &&& final(self).at() == old(self).at()
            },
    {
        proof {
            use_type_invariant(&*self);
        }
        if self.buf.len() - self.pos < n {
            return Err(SerError::UnexpectedEof { needed: n, remaining: self.buf.len() - self.pos });
        }
        let out = vstd::slice::slice_subrange(self.buf, self.pos, self.pos + n);
        self.pos = self.pos + n;
        assert(out@ =~= old(self).rest().take(n as int));
        Ok(out)
    }

    /// Read a `u8`.
    pub fn u8(&mut self) -> (res: SerResult<u8>)
        ensures
            final(self).data() == old(self).data(),
            match dec_u8(old(self).rest()) {
                Ok((v, k)) => res == Ok::<u8, SerError>(v) && final(self).at() == old(self).at() + k,
                Err(e) => res == Err::<u8, SerError>(e) && final(self).at() == old(self).at(),
            },
    {
        let b = self.take(1)?;
        Ok(b[0])
    }

    /// Read a `bool`; any value other than `0`/`1` is an error.
    pub fn bool(&mut self) -> (res: SerResult<bool>)
        ensures
            final(self).data() == old(self).data(),
            match dec_bool(old(self).rest()) {
                Ok((v, k)) => res == Ok::<bool, SerError>(v) && final(self).at() == old(self).at() + k,
                Err(e) => res == Err::<bool, SerError>(e) && final(self).at() == old(self).at() + if old(
                    self,
                ).rest().len() >= 1 {
                    1nat
                } else {
                    0nat
                },
            },
    {
        let v = self.u8()?;
        if v == 0 {
            Ok(false)
        } else if v == 1 {
            Ok(true)
        } else {
            Err(SerError::InvalidValue("bool must be 0 or 1"))
        }
    }

    /// Read a little-endian `u16`.
    pub fn u16(&mut self) -> (res: SerResult<u16>)
        ensures
            final(self).data() == old(self).data(),
            match dec_u16(old(self).rest()) {
                Ok((v, k)) => res == Ok::<u16, SerError>(v) && final(self).at() == old(self).at() + k,
                Err(e) => res == Err::<u16, SerError>(e) && final(self).at() == old(self).at(),
            },
    {
        let b = self.take(2)?;
        Ok(u16_from_le_bytes(b))
    }

    /// Read a little-endian `u32`.
    pub fn u32(&mut self) -> (res: SerResult<u32>)
        ensures
            final(self).data() == old(self).data(),
            match dec_u32(old(self).rest()) {
                Ok((v, k)) => res == Ok::<u32, SerError>(v) && final(self).at() == old(self).at() + k,
                Err(e) => res == Err::<u32, SerError>(e) && final(self).at() == old(self).at(),
            },
    {
        let b = self.take(4)?;
        Ok(u32_from_le_bytes(b))
    }

    /// Read a little-endian `u64`.
    pub fn u64(&mut self) -> (res: SerResult<u64>)
        ensures
            final(self).data() == old(self).data(),
            match dec_u64(old(self).rest()) {
                Ok((v, k)) => res == Ok::<u64, SerError>(v) && final(self).at() == old(self).at() + k,
                Err(e) => res == Err::<u64, SerError>(e) && final(self).at() == old(self).at(),
            },
    {
        let b = self.take(8)?;
        Ok(u64_from_le_bytes(b))
    }

    /// Read a little-endian `i32`.
    pub fn i32(&mut self) -> (res: SerResult<i32>)
        ensures
            final(self).data() == old(self).data(),
            match dec_i32(old(self).rest()) {
                Ok((v, k)) => res == Ok::<i32, SerError>(v) && final(self).at() == old(self).at() + k,
                Err(e) => res == Err::<i32, SerError>(e) && final(self).at() == old(self).at(),
            },
    {
        let v = self.u32()?;
        Ok(v as i32)
    }

    /// Read a little-endian `i64`.
    pub fn i64(&mut self) -> (res: SerResult<i64>)
        ensures
            final(self).data() == old(self).data(),
            match dec_i64(old(self).rest()) {
                Ok((v, k)) => res == Ok::<i64, SerError>(v) && final(self).at() == old(self).at() + k,
                Err(e) => res == Err::<i64, SerError>(e) && final(self).at() == old(self).at(),
            },
    {
        let v = self.u64()?;
        Ok(v as i64)
    }

    /// Read a `u32` length prefix, refusing one longer than the bytes that remain.
    pub fn read_len(&mut self) -> (res: SerResult<usize>)
        ensures
            final(self).data() == old(self).data(),
            match dec_len(old(self).rest()) {
                Ok((v, k)) => res == Ok::<usize, SerError>(v as usize) && final(self).at()
                    == old(self).at() + k,
                Err(e) => res == Err::<usize, SerError>(e) && final(self).at() == old(self).at() + if old(
                    self,
                ).rest().len() >= 4 {
                    4nat
                } else {
                    0nat
                },
            },
    {
        proof {
            use_type_invariant(&*self);
        }
        let n = self.u32()? as usize;
        proof {
            use_type_invariant(&*self);
        }
        if n > self.remaining() {
            proof {
                assert(self.rest() =~= old(self).rest().skip(4));
            }
            return Err(SerError::UnexpectedEof { needed: n, remaining: self.remaining() });
        }
        Ok(n)
    }

    /// Read a length-prefixed UTF-8 string.
    pub fn str(&mut self) -> (res: SerResult<String>)
        ensures
            final(self).data() == old(self).data(),
            match dec_str(old(self).rest()) {
                Ok((v, k)) => res matches Ok(s) && s@ == v && final(self).at() == old(self).at()
                    + k,
                Err(e) => res == Err::<String, SerError>(e),
            },
    {
        proof {
            use_type_invariant(&*self);
        }
        let n = self.read_len()?;
        let b = self.take(n)?;
        proof {
            use_type_invariant(&*self);
            assert(b@ =~= old(self).rest().subrange(4, 4 + n as int));
        }
        match utf8_text(b) {
            Some(s) => Ok(s),
            None => Err(SerError::InvalidUtf8),
        }
    }

    /// Read a length-prefixed byte vector.
    pub fn bytes(&mut self) -> (res: SerResult<Vec<u8>>)
        ensures
            final(self).data() == old(self).data(),
            match dec_bytes(old(self).rest()) {
                Ok((v, k)) => res matches Ok(b) && b@ == v && final(self).at() == old(self).at()
                    + k,
                Err(e) => res == Err::<Vec<u8>, SerError>(e),
            },
    {
        proof {
            use_type_invariant(&*self);
        }
        let n = self.read_len()?;
        let b = self.take(n)?;
        proof {
            use_type_invariant(&*self);
            assert(b@ =~= old(self).rest().subrange(4, 4 + n as int));
        }
        Ok(vstd::slice::slice_to_vec(b))
    }
}

} // verus!

verus! {

impl<'a> Reader<'a> {
    /// A reader positioned past a validated magic + version envelope.
    pub fn with_envelope(buf: &'a [u8]) -> (res: SerResult<Reader<'a>>)
        ensures
            match dec_envelope(buf@) {
                Ok(k) => res matches Ok(r) && r.data() == buf@ && r.at() == k,
                Err(e) => res matches Err(x) && x == e,
            },
    {
        let mut r = Reader::new(buf);
        let magic = r.take(4)?;
        let found = [magic[0], magic[1], magic[2], magic[3]];
        proof {
            assert(magic@ =~= buf@.take(4));
        }
        if found[0] != MAGIC[0] || found[1] != MAGIC[1] || found[2] != MAGIC[2] || found[3]
            != MAGIC[3] {
            proof {
                assert(buf@.take(4) != magic_bytes()) by {
                    if buf@.take(4) == magic_bytes() {
                        assert(buf@.take(4)[0] == magic_bytes()[0]);
                        assert(buf@.take(4)[1] == magic_bytes()[1]);
                        assert(buf@.take(4)[2] == magic_bytes()[2]);
                        assert(buf@.take(4)[3] == magic_bytes()[3]);
                    }
                }
            }
            return Err(SerError::BadMagic { found });
        }
        proof {
            assert(buf@.take(4) =~= magic_bytes());
            assert(r.rest() =~= buf@.skip(4));
        }
        let version = r.u32()?;
        if version != FORMAT_VERSION {
            return Err(SerError::UnsupportedVersion { found: version, supported: FORMAT_VERSION });
        }
        Ok(r)
    }

    /// Read a value implementing [`Deserialize`].
    pub fn read<T: Deserialize>(&mut self) -> (res: SerResult<T>)
        ensures
            final(self).data() == old(self).data(),
            match T::decoding(old(self).rest()) {
                Ok((v, k)) => res matches Ok(x) && x.deep_view() == v && final(self).at() == old(
                    self,
                ).at() + k,
                Err(e) => res matches Err(x) && x == e,
            },
    {
        T::deserialize(self)
    }
}

impl Writer {
    /// A value implementing [`Serialize`].
    pub fn write<T: Serialize>(&mut self, v: &T)
        requires
            T::encodable(v.deep_view()),
        ensures
            final(self)@ == old(self)@ + T::encoding(v.deep_view()),
    {
        v.serialize(self);
    }
}

// ---------------------------------------------------------------------------------------------
// Traits
// ---------------------------------------------------------------------------------------------

/// A value that can be written deterministically.
///
/// The bytes written are a function of the value's deep view alone, which is what makes writing
/// byte-stable: equal values always produce equal bytes.
pub trait Serialize: DeepView + Sized {
    /// Can this value be written at all? (Lengths must fit the `u32` prefix.)
    spec fn encodable(v: <Self as DeepView>::V) -> bool;

    /// The exact bytes that writing this value appends.
    spec fn encoding(v: <Self as DeepView>::V) -> Seq<u8>;

    /// Append `self` to `w`.
    fn serialize(&self, w: &mut Writer)
        requires
            Self::encodable(self.deep_view()),
        ensures
            final(w)@ == old(w)@ + Self::encoding(self.deep_view()),
    ;
}

/// A value that can be read back.
pub trait Deserialize: DeepView + Sized {
    /// What reading one value from the head of `rest` yields, and how many bytes it takes.
    spec fn decoding(rest: Seq<u8>) -> Result<(<Self as DeepView>::V, nat), SerError>;

    /// Read one `Self` from `r`.
    fn deserialize(r: &mut Reader<'_>) -> (res: SerResult<Self>)
        ensures
            final(r).data() == old(r).data(),
            match Self::decoding(old(r).rest()) {
                Ok((v, k)) => res matches Ok(x) && x.deep_view() == v && final(r).at() == old(
                    r,
                ).at() + k,
                Err(e) => res matches Err(x) && x == e,
            },
    ;
}

/// A type whose reading inverts its writing.
pub trait Codec: Serialize + Deserialize {
    /// Reading the encoding of `v`, whatever follows it, yields `v` and consumes exactly the
    /// encoding.
    proof fn lemma_round_trip(v: <Self as DeepView>::V, rest: Seq<u8>)
        requires
            Self::encodable(v),
        ensures
            Self::decoding(Self::encoding(v) + rest) == Ok::<(<Self as DeepView>::V, nat), SerError>(
                (v, Self::encoding(v).len()),
            ),
    ;
}

/// What reading a whole artifact yields: the envelope, one value, and nothing after it.
pub open spec fn artifact_decoding<T: Deserialize>(buf: Seq<u8>) -> Result<
    <T as DeepView>::V,
    SerError,
> {
    match dec_envelope(buf) {
        Err(e) => Err(e),
        Ok(h) => match T::decoding(buf.skip(h as int)) {
            Err(e) => Err(e),
            Ok((v, k)) => if k == buf.len() - h {
                Ok(v)
            } else {
                Err(SerError::TrailingBytes((buf.len() - h - k) as usize))
            },
        },
    }
}

/// Serialize a value into a complete artifact, envelope included.
pub fn to_bytes<T: Serialize>(value: &T) -> (v: Vec<u8>)
    requires
        T::encodable(value.deep_view()),
    ensures
        v@ == envelope() + T::encoding(value.deep_view()),
{
    let mut w = Writer::with_envelope();
    w.write(value);
    w.finish()
}

/// Read a complete artifact written by [`to_bytes`], validating the envelope and requiring that the
/// whole stream is consumed.
pub fn from_bytes<T: Deserialize>(buf: &[u8]) -> (res: SerResult<T>)
    ensures
        match artifact_decoding::<T>(buf@) {
            Ok(v) => res matches Ok(x) && x.deep_view() == v,
            Err(e) => res matches Err(x) && x == e,
        },
{
    let mut r = Reader::with_envelope(buf)?;
    proof {
        use_type_invariant(&r);
        assert(r.rest() =~= buf@.skip(8));
    }
    let value = r.read::<T>()?;
    proof {
        use_type_invariant(&r);
    }
    r.expect_end()?;
    Ok(value)
}

} // verus!

verus! {

// ---------------------------------------------------------------------------------------------
// Primitive impls
// ---------------------------------------------------------------------------------------------

/// Reading a fixed-width encoding followed by anything reads the encoding.
pub proof fn lemma_take_prefix(a: Seq<u8>, rest: Seq<u8>)
    ensures
        (a + rest).take(a.len() as int) == a,
        (a + rest).skip(a.len() as int) == rest,
        (a + rest).len() == a.len() + rest.len(),
{
    assert((a + rest).take(a.len() as int) =~= a);
    assert((a + rest).skip(a.len() as int) =~= rest);
}

impl Serialize for u8 {
    open spec fn encodable(v: u8) -> bool {
        true
    }

    open spec fn encoding(v: u8) -> Seq<u8> {
        seq![v]
    }

    fn serialize(&self, w: &mut Writer) {
        w.u8(*self);
        assert(old(w)@.push(*self) =~= old(w)@ + seq![*self]);
    }
}

impl Deserialize for u8 {
    open spec fn decoding(rest: Seq<u8>) -> Result<(u8, nat), SerError> {
        dec_u8(rest)
    }

    fn deserialize(r: &mut Reader<'_>) -> (res: SerResult<u8>) {
        r.u8()
    }
}

impl Codec for u8 {
    proof fn lemma_round_trip(v: u8, rest: Seq<u8>) {
        lemma_take_prefix(seq![v], rest);
    }
}

impl Serialize for bool {
    open spec fn encodable(v: bool) -> bool {
        true
    }

    open spec fn encoding(v: bool) -> Seq<u8> {
        enc_bool(v)
    }

    fn serialize(&self, w: &mut Writer) {
        w.bool(*self);
    }
}

impl Deserialize for bool {
    open spec fn decoding(rest: Seq<u8>) -> Result<(bool, nat), SerError> {
        dec_bool(rest)
    }

    fn deserialize(r: &mut Reader<'_>) -> (res: SerResult<bool>) {
        r.bool()
    }
}

impl Codec for bool {
    proof fn lemma_round_trip(v: bool, rest: Seq<u8>) {
        lemma_take_prefix(enc_bool(v), rest);
    }
}

impl Serialize for u16 {
    open spec fn encodable(v: u16) -> bool {
        true
    }

    open spec fn encoding(v: u16) -> Seq<u8> {
        spec_u16_to_le_bytes(v)
    }

    fn serialize(&self, w: &mut Writer) {
        w.u16(*self);
    }
}

impl Deserialize for u16 {
    open spec fn decoding(rest: Seq<u8>) -> Result<(u16, nat), SerError> {
        dec_u16(rest)
    }

    fn deserialize(r: &mut Reader<'_>) -> (res: SerResult<u16>) {
        r.u16()
    }
}

impl Codec for u16 {
    proof fn lemma_round_trip(v: u16, rest: Seq<u8>) {
        lemma_auto_spec_u16_to_from_le_bytes();
        lemma_take_prefix(spec_u16_to_le_bytes(v), rest);
    }
}

impl Serialize for u32 {
    open spec fn encodable(v: u32) -> bool {
        true
    }

    open spec fn encoding(v: u32) -> Seq<u8> {
        spec_u32_to_le_bytes(v)
    }

    fn serialize(&self, w: &mut Writer) {
        w.u32(*self);
    }
}

impl Deserialize for u32 {
    open spec fn decoding(rest: Seq<u8>) -> Result<(u32, nat), SerError> {
        dec_u32(rest)
    }

    fn deserialize(r: &mut Reader<'_>) -> (res: SerResult<u32>) {
        r.u32()
    }
}

impl Codec for u32 {
    proof fn lemma_round_trip(v: u32, rest: Seq<u8>) {
        lemma_auto_spec_u32_to_from_le_bytes();
        lemma_take_prefix(spec_u32_to_le_bytes(v), rest);
    }
}

impl Serialize for u64 {
    open spec fn encodable(v: u64) -> bool {
        true
    }

    open spec fn encoding(v: u64) -> Seq<u8> {
        spec_u64_to_le_bytes(v)
    }

    fn serialize(&self, w: &mut Writer) {
        w.u64(*self);
    }
}

impl Deserialize for u64 {
    open spec fn decoding(rest: Seq<u8>) -> Result<(u64, nat), SerError> {
        dec_u64(rest)
    }

    fn deserialize(r: &mut Reader<'_>) -> (res: SerResult<u64>) {
        r.u64()
    }
}

impl Codec for u64 {
    proof fn lemma_round_trip(v: u64, rest: Seq<u8>) {
        lemma_auto_spec_u64_to_from_le_bytes();
        lemma_take_prefix(spec_u64_to_le_bytes(v), rest);
    }
}

impl Serialize for i32 {
    open spec fn encodable(v: i32) -> bool {
        true
    }

    open spec fn encoding(v: i32) -> Seq<u8> {
        enc_i32(v)
    }

    fn serialize(&self, w: &mut Writer) {
        w.i32(*self);
    }
}

impl Deserialize for i32 {
    open spec fn decoding(rest: Seq<u8>) -> Result<(i32, nat), SerError> {
        dec_i32(rest)
    }

    fn deserialize(r: &mut Reader<'_>) -> (res: SerResult<i32>) {
        r.i32()
    }
}

impl Codec for i32 {
    proof fn lemma_round_trip(v: i32, rest: Seq<u8>) {
        lemma_auto_spec_u32_to_from_le_bytes();
        lemma_take_prefix(enc_i32(v), rest);
        let u = v as u32;
        assert(u as i32 == v) by (bit_vector)
            requires
                u == v as u32,
        ;
    }
}

impl Serialize for i64 {
    open spec fn encodable(v: i64) -> bool {
        true
    }

    open spec fn encoding(v: i64) -> Seq<u8> {
        enc_i64(v)
    }

    fn serialize(&self, w: &mut Writer) {
        w.i64(*self);
    }
}

impl Deserialize for i64 {
    open spec fn decoding(rest: Seq<u8>) -> Result<(i64, nat), SerError> {
        dec_i64(rest)
    }

    fn deserialize(r: &mut Reader<'_>) -> (res: SerResult<i64>) {
        r.i64()
    }
}

impl Codec for i64 {
    proof fn lemma_round_trip(v: i64, rest: Seq<u8>) {
        lemma_auto_spec_u64_to_from_le_bytes();
        lemma_take_prefix(enc_i64(v), rest);
        let u = v as u64;
        assert(u as i64 == v) by (bit_vector)
            requires
                u == v as u64,
        ;
    }
}

impl Serialize for String {
    open spec fn encodable(v: Seq<char>) -> bool {
        encode_utf8(v).len() <= u32::MAX
    }

    open spec fn encoding(v: Seq<char>) -> Seq<u8> {
        enc_str(v)
    }

    fn serialize(&self, w: &mut Writer) {
        w.str(self.as_str());
    }
}

impl Deserialize for String {
    open spec fn decoding(rest: Seq<u8>) -> Result<(Seq<char>, nat), SerError> {
        dec_str(rest)
    }

    fn deserialize(r: &mut Reader<'_>) -> (res: SerResult<String>) {
        r.str()
    }
}

impl Codec for String {
    proof fn lemma_round_trip(v: Seq<char>, rest: Seq<u8>) {
        let b = encode_utf8(v);
        let le = spec_u32_to_le_bytes(b.len() as u32);
        lemma_auto_spec_u32_to_from_le_bytes();
        let all = enc_str(v) + rest;
        assert(all =~= le + (b + rest));
        lemma_take_prefix(le, b + rest);
        assert(all.subrange(4, 4 + b.len() as int) =~= b);
        encode_utf8_valid_utf8(v);
        encode_utf8_decode_utf8(v);
    }
}

} // verus!

verus! {

// ---------------------------------------------------------------------------------------------
// Option and Vec
// ---------------------------------------------------------------------------------------------

impl<T: Serialize> Serialize for Option<T> {
    open spec fn encodable(v: Option<<T as DeepView>::V>) -> bool {
        match v {
            Some(x) => T::encodable(x),
            None => true,
        }
    }

    open spec fn encoding(v: Option<<T as DeepView>::V>) -> Seq<u8> {
        match v {
            Some(x) => enc_bool(true) + T::encoding(x),
            None => enc_bool(false),
        }
    }

    fn serialize(&self, w: &mut Writer) {
        match self {
            Some(v) => {
                w.bool(true);
                w.write(v);
                assert(final(w)@ =~= old(w)@ + (enc_bool(true) + T::encoding(v.deep_view())));
            },
            None => w.bool(false),
        }
    }
}

impl<T: Deserialize> Deserialize for Option<T> {
    open spec fn decoding(rest: Seq<u8>) -> Result<(Option<<T as DeepView>::V>, nat), SerError> {
        match dec_bool(rest) {
            Err(e) => Err(e),
            Ok((false, _)) => Ok((None, 1)),
            Ok((true, _)) => match T::decoding(rest.skip(1)) {
                Ok((v, k)) => Ok((Some(v), 1 + k)),
                Err(e) => Err(e),
            },
        }
    }

    fn deserialize(r: &mut Reader<'_>) -> (res: SerResult<Option<T>>) {
        proof {
            use_type_invariant(&*r);
        }
        if r.bool()? {
            proof {
                use_type_invariant(&*r);
                assert(r.rest() =~= old(r).rest().skip(1));
            }
            Ok(Some(r.read()?))
        } else {
            Ok(None)
        }
    }
}

impl<T: Codec> Codec for Option<T> {
    proof fn lemma_round_trip(v: Option<<T as DeepView>::V>, rest: Seq<u8>) {
        match v {
            Some(x) => {
                let all = enc_bool(true) + T::encoding(x) + rest;
                assert(all =~= enc_bool(true) + (T::encoding(x) + rest));
                lemma_take_prefix(enc_bool(true), T::encoding(x) + rest);
                T::lemma_round_trip(x, rest);
            },
            None => {
                lemma_take_prefix(enc_bool(false), rest);
            },
        }
    }
}

/// The encodings of a sequence of values, one after another.
pub open spec fn enc_all<T: Serialize>(vs: Seq<<T as DeepView>::V>) -> Seq<u8>
    decreases vs.len(),
{
    if vs.len() == 0 {
        Seq::empty()
    } else {
        T::encoding(vs[0]) + enc_all::<T>(vs.drop_first())
    }
}

/// Reading `count` values one after another from the head of `rest`.
pub open spec fn dec_all<T: Deserialize>(rest: Seq<u8>, count: nat) -> Result<
    (Seq<<T as DeepView>::V>, nat),
    SerError,
>
    decreases count,
{
    if count == 0 {
        Ok((Seq::empty(), 0))
    } else {
        match T::decoding(rest) {
            Err(e) => Err(e),
            Ok((v, k)) => match dec_all::<T>(rest.skip(k as int), (count - 1) as nat) {
                Err(e) => Err(e),
                Ok((vs, m)) => Ok((seq![v] + vs, k + m)),
            },
        }
    }
}

/// A partial result extended by what has already been read.
pub open spec fn after<V>(prefix: Seq<V>, used: nat, tail: Result<(Seq<V>, nat), SerError>) -> Result<
    (Seq<V>, nat),
    SerError,
> {
    match tail {
        Ok((vs, m)) => Ok((prefix + vs, used + m)),
        Err(e) => Err(e),
    }
}

proof fn lemma_enc_all_push<T: Serialize>(vs: Seq<<T as DeepView>::V>, x: <T as DeepView>::V)
    ensures
        enc_all::<T>(vs.push(x)) == enc_all::<T>(vs) + T::encoding(x),
    decreases vs.len(),
{
    if vs.len() == 0 {
        assert(vs.push(x).drop_first() =~= Seq::<<T as DeepView>::V>::empty());
        assert(enc_all::<T>(vs.push(x)) =~= T::encoding(x));
    } else {
        assert(vs.push(x).drop_first() =~= vs.drop_first().push(x));
        lemma_enc_all_push::<T>(vs.drop_first(), x);
        assert(enc_all::<T>(vs.push(x)) =~= enc_all::<T>(vs) + T::encoding(x));
    }
}

proof fn lemma_dec_all_round_trip<T: Codec>(vs: Seq<<T as DeepView>::V>, rest: Seq<u8>)
    requires
        forall|i: int| 0 <= i < vs.len() ==> T::encodable(#[trigger] vs[i]),
    ensures
        dec_all::<T>(enc_all::<T>(vs) + rest, vs.len()) == Ok::<(Seq<<T as DeepView>::V>, nat), SerError>(
            (vs, enc_all::<T>(vs).len()),
        ),
    decreases vs.len(),
{
    if vs.len() > 0 {
        let head = T::encoding(vs[0]);
        let tail = enc_all::<T>(vs.drop_first()) + rest;
        assert(enc_all::<T>(vs) + rest =~= head + tail);
        T::lemma_round_trip(vs[0], tail);
        lemma_take_prefix(head, tail);
        assert forall|i: int| 0 <= i < vs.drop_first().len() implies T::encodable(
            #[trigger] vs.drop_first()[i],
        ) by {
            assert(vs.drop_first()[i] == vs[i + 1]);
        }
        lemma_dec_all_round_trip::<T>(vs.drop_first(), rest);
        assert(seq![vs[0]] + vs.drop_first() =~= vs);
    }
}

impl<T: Serialize> Serialize for Vec<T> {
    open spec fn encodable(v: Seq<<T as DeepView>::V>) -> bool {
        &&& v.len() <= u32::MAX
        &&& forall|i: int| 0 <= i < v.len() ==> T::encodable(#[trigger] v[i])
    }

    open spec fn encoding(v: Seq<<T as DeepView>::V>) -> Seq<u8> {
        spec_u32_to_le_bytes(v.len() as u32) + enc_all::<T>(v)
    }

    fn serialize(&self, w: &mut Writer) {
        let ghost vs = self.deep_view();
        w.len(self.len());
        let mut i: usize = 0;
        while i < self.len()
            invariant
                vs == self.deep_view(),
                Self::encodable(vs),
                i <= self@.len(),
                w@ == old(w)@ + spec_u32_to_le_bytes(vs.len() as u32) + enc_all::<T>(vs.take(i as int)),
            decreases self@.len() - i,
        {
            assert(vs[i as int] == self[i as int].deep_view());
            assert(T::encodable(vs[i as int]));
            w.write(&self[i]);
            proof {
                assert(vs.take(i + 1) =~= vs.take(i as int).push(vs[i as int]));
                lemma_enc_all_push::<T>(vs.take(i as int), vs[i as int]);
            }
            i += 1;
        }
        assert(vs.take(i as int) =~= vs);
    }
}

impl<T: Deserialize> Deserialize for Vec<T> {
    open spec fn decoding(rest: Seq<u8>) -> Result<(Seq<<T as DeepView>::V>, nat), SerError> {
        match dec_u32(rest) {
            Err(e) => Err(e),
            Ok((n, _)) => match dec_all::<T>(rest.skip(4), n as nat) {
                Ok((vs, m)) => Ok((vs, 4 + m)),
                Err(e) => Err(e),
            },
        }
    }

    fn deserialize(r: &mut Reader<'_>) -> (res: SerResult<Vec<T>>) {
        proof {
            use_type_invariant(&*r);
        }
        let n = r.u32()?;
        proof {
            use_type_invariant(&*r);
        }
        let ghost rest0 = r.rest();
        let ghost at0 = r.at();
        assert(rest0 =~= old(r).rest().skip(4));
        let mut out: Vec<T> = Vec::new();
        let ghost mut used: nat = 0;
        let mut i: u32 = 0;
        while i < n
            invariant
                i <= n,
                r.data() == old(r).data(),
                r.at() == at0 + used,
                at0 == old(r).at() + 4,
                r.at() <= r.data().len(),
                rest0 == r.data().subrange(at0 as int, r.data().len() as int),
                rest0 == old(r).rest().skip(4),
                dec_u32(old(r).rest()) == Ok::<(u32, nat), SerError>((n, 4)),
                r.rest() == rest0.skip(used as int),
                out@.len() == i,
                dec_all::<T>(rest0, n as nat) == after(
                    out.deep_view(),
                    used,
                    dec_all::<T>(r.rest(), (n - i) as nat),
                ),
            decreases n - i,
        {
            let ghost before = r.rest();
            let ghost prefix = out.deep_view();
            let x = match T::deserialize(r) {
                Ok(x) => x,
                Err(e) => {
                    proof {
                        assert(T::decoding(before) == Err::<(<T as DeepView>::V, nat), SerError>(e));
                        assert(dec_all::<T>(before, (n - i) as nat) == Err::<
                            (Seq<<T as DeepView>::V>, nat),
                            SerError,
                        >(e));
                    }
                    return Err(e);
                },
            };
            proof {
                use_type_invariant(&*r);
                let k = (r.at() - at0 - used) as nat;
                assert(r.rest() =~= before.skip(k as int));
                assert(r.rest() =~= rest0.skip((used + k) as int));
                match dec_all::<T>(r.rest(), (n - i - 1) as nat) {
                    Ok((vs, m)) => {
                        assert(prefix + (seq![x.deep_view()] + vs) =~= prefix.push(x.deep_view())
                            + vs);
                    },
                    Err(e) => {},
                }
                used = used + k;
            }
            out.push(x);
            proof {
                assert(out.deep_view() =~= prefix.push(x.deep_view()));
            }
            i += 1;
        }
        assert(out.deep_view() + Seq::<<T as DeepView>::V>::empty() =~= out.deep_view());
        Ok(out)
    }
}

impl<T: Codec> Codec for Vec<T> {
    proof fn lemma_round_trip(v: Seq<<T as DeepView>::V>, rest: Seq<u8>) {
        let le = spec_u32_to_le_bytes(v.len() as u32);
        lemma_auto_spec_u32_to_from_le_bytes();
        let all = Self::encoding(v) + rest;
        assert(all =~= le + (enc_all::<T>(v) + rest));
        lemma_take_prefix(le, enc_all::<T>(v) + rest);
        lemma_dec_all_round_trip::<T>(v, rest);
    }
}

// ---------------------------------------------------------------------------------------------
// Laws
// ---------------------------------------------------------------------------------------------

/// **What `to_bytes` writes, `from_bytes` reads back.** For every type whose reading inverts its
/// writing, an artifact made from a value decodes to that value: the envelope validates, the value
/// comes back, and nothing trails it.
pub proof fn law_artifact_round_trip<T: Codec>(v: <T as DeepView>::V)
    requires
        T::encodable(v),
    ensures
        artifact_decoding::<T>(envelope() + T::encoding(v)) == Ok::<<T as DeepView>::V, SerError>(v),
{
    let buf = envelope() + T::encoding(v);
    lemma_auto_spec_u32_to_from_le_bytes();
    assert(buf.take(4) =~= magic_bytes());
    assert(buf.skip(4) =~= spec_u32_to_le_bytes(FORMAT_VERSION) + T::encoding(v));
    lemma_take_prefix(spec_u32_to_le_bytes(FORMAT_VERSION), T::encoding(v));
    assert(buf.skip(8) =~= T::encoding(v) + Seq::<u8>::empty());
    T::lemma_round_trip(v, Seq::<u8>::empty());
}

/// **Trailing bytes are caught rather than ignored.** Appending anything to a valid artifact makes
/// reading it fail with the number of extra bytes.
pub proof fn law_trailing_bytes_are_refused<T: Codec>(v: <T as DeepView>::V, extra: Seq<u8>)
    requires
        T::encodable(v),
        extra.len() > 0,
    ensures
        artifact_decoding::<T>(envelope() + T::encoding(v) + extra) == Err::<
            <T as DeepView>::V,
            SerError,
        >(SerError::TrailingBytes(extra.len() as usize)),
{
    let buf = envelope() + T::encoding(v) + extra;
    lemma_auto_spec_u32_to_from_le_bytes();
    assert(buf.take(4) =~= magic_bytes());
    assert(buf.skip(4) =~= spec_u32_to_le_bytes(FORMAT_VERSION) + (T::encoding(v) + extra));
    lemma_take_prefix(spec_u32_to_le_bytes(FORMAT_VERSION), T::encoding(v) + extra);
    assert(buf.skip(8) =~= T::encoding(v) + extra);
    T::lemma_round_trip(v, extra);
}

} // verus!
