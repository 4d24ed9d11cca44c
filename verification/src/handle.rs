//! Generational handles: a slot index and the generation of the slot it was issued for, packed
//! into one `u64` (index high, generation low). A generation is never zero, so a zero generation
//! marks a value that was never a handle.

use crate::serialize::{dec_u32, Codec, Deserialize, Reader, SerError, SerResult, Serialize, Writer};
use core::marker::PhantomData;
use vstd::bytes::{lemma_auto_spec_u32_to_from_le_bytes, spec_u32_to_le_bytes};
use vstd::prelude::*;

verus! {

/// A typed, generational index.
#[derive(Debug)]
pub struct Handle<T> {
    index: u32,
    generation: u32,
    marker: PhantomData<T>,
}

/// The high half of a packed handle.
pub open spec fn high(raw: u64) -> u32 {
    (raw / 0x1_0000_0000) as u32
}

/// The low half of a packed handle.
pub open spec fn low(raw: u64) -> u32 {
    (raw % 0x1_0000_0000) as u32
}

impl<T> Handle<T> {
    /// The slot index.
    pub closed spec fn index_spec(self) -> u32 {
        self.index
    }

    /// The generation of the slot it was issued for.
    pub closed spec fn generation_spec(self) -> u32 {
        self.generation
    }

    /// Unpack a handle; `None` when the generation half is zero.
    pub fn from_raw(raw: u64) -> (h: Option<Handle<T>>)
        ensures
            match h {
                Some(x) => low(raw) != 0 && x.index_spec() == high(raw) && x.generation_spec() == low(
                    raw,
                ),
                None => low(raw) == 0,
            },
    {
        let index = (raw >> 32) as u32;
        let generation = (raw & 0xffff_ffff) as u32;
        assert(index == high(raw) && generation == low(raw)) by (bit_vector)
            requires
                index == (raw >> 32) as u32,
                generation == (raw & 0xffff_ffff) as u32,
        ;
        if generation == 0 {
            None
        } else {
            Some(Handle { index, generation, marker: PhantomData })
        }
    }

    /// Pack the handle: index high, generation low.
    pub fn to_raw(&self) -> (raw: u64)
        ensures
            high(raw) == self.index_spec(),
            low(raw) == self.generation_spec(),
    {
        let i = self.index;
        let g = self.generation;
        let raw = ((i as u64) << 32) | (g as u64);
        assert(high(raw) == i && low(raw) == g) by (bit_vector)
            requires
                raw == ((i as u64) << 32) | (g as u64),
        ;
        raw
    }

    /// The slot index.
    pub fn index(&self) -> (i: u32)
        ensures
            i == self.index_spec(),
    {
        self.index
    }

    /// The generation.
    pub fn generation(&self) -> (g: u32)
        ensures
            g == self.generation_spec(),
    {
        self.generation
    }
}

impl<T> Clone for Handle<T> {
    fn clone(&self) -> (h: Self)
        ensures
            h.index_spec() == self.index_spec(),
            h.generation_spec() == self.generation_spec(),
    {
        Handle { index: self.index, generation: self.generation, marker: PhantomData }
    }
}

impl<T> Copy for Handle<T> {

}

impl<T> PartialEq for Handle<T> {
    fn eq(&self, other: &Self) -> (b: bool) {
        self.index == other.index && self.generation == other.generation
    }
}

impl<T> vstd::std_specs::cmp::PartialEqSpecImpl for Handle<T> {
    open spec fn obeys_eq_spec() -> bool {
        true
    }

    /// Two handles are equal when they name the same slot in the same generation.
    open spec fn eq_spec(&self, other: &Self) -> bool {
        self.index_spec() == other.index_spec() && self.generation_spec() == other.generation_spec()
    }
}

impl<T> Eq for Handle<T> {

}

impl<T> Handle<T> {
    /// Handles are equal exactly when they agree on both parts.
    pub broadcast proof fn lemma_parts_determine(a: Handle<T>, b: Handle<T>)
        ensures
            (#[trigger] a.index_spec() == #[trigger] b.index_spec() && a.generation_spec()
                == b.generation_spec()) <==> a == b,
    {
    }

    /// The handle with these parts.
    pub closed spec fn issued(index: u32, generation: u32) -> Handle<T> {
        Handle { index, generation, marker: PhantomData }
    }

    /// A handle built from parts has those parts.
    pub broadcast proof fn lemma_issued_parts(index: u32, generation: u32)
        ensures
            #[trigger] Self::issued(index, generation).index_spec() == index,
            Self::issued(index, generation).generation_spec() == generation,
    {
    }

    /// A handle naming slot `index` in generation `generation`.
    pub(crate) fn issue(index: u32, generation: u32) -> (h: Handle<T>)
        ensures
            h.index_spec() == index,
            h.generation_spec() == generation,
            h == Self::issued(index, generation),
    {
        Handle { index, generation, marker: PhantomData }
    }
}

impl<T> DeepView for Handle<T> {
    type V = (u32, u32);

    closed spec fn deep_view(&self) -> (u32, u32) {
        (self.index, self.generation)
    }
}

impl<T> Handle<T> {
    /// A handle's deep view is its index and generation.
    pub broadcast proof fn lemma_deep_view_is_parts(h: Handle<T>)
        ensures
            #[trigger] h.deep_view() == (h.index_spec(), h.generation_spec()),
    {
    }
}

impl<T> Serialize for Handle<T> {
    open spec fn encodable(v: (u32, u32)) -> bool {
        v.1 != 0
    }

    open spec fn encoding(v: (u32, u32)) -> Seq<u8> {
        spec_u32_to_le_bytes(v.0) + spec_u32_to_le_bytes(v.1)
    }

    fn serialize(&self, w: &mut Writer) {
        w.u32(self.index);
        w.u32(self.generation);
        assert(final(w)@ =~= old(w)@ + Self::encoding(self.deep_view()));
    }
}

impl<T> Deserialize for Handle<T> {
    open spec fn decoding(rest: Seq<u8>) -> Result<((u32, u32), nat), SerError> {
        match dec_u32(rest) {
            Err(e) => Err(e),
            Ok((index, k)) => match dec_u32(rest.skip(k as int)) {
                Err(e) => Err(e),
                Ok((generation, m)) => if generation == 0 {
                    Err(SerError::InvalidValue("handle generation must be non-zero"))
                } else {
                    Ok(((index, generation), k + m))
                },
            },
        }
    }

    fn deserialize(r: &mut Reader<'_>) -> (res: SerResult<Handle<T>>) {
        proof {
            use_type_invariant(&*r);
        }
        let index = r.u32()?;
        proof {
            use_type_invariant(&*r);
            assert(r.rest() =~= old(r).rest().skip(4));
        }
        let generation = r.u32()?;
        if generation == 0 {
            return Err(SerError::InvalidValue("handle generation must be non-zero"));
        }
        Ok(Handle { index, generation, marker: PhantomData })
    }
}

impl<T> Codec for Handle<T> {
    proof fn lemma_round_trip(v: (u32, u32), rest: Seq<u8>) {
        let a = spec_u32_to_le_bytes(v.0);
        let b = spec_u32_to_le_bytes(v.1);
        assert(a + b + rest =~= a + (b + rest));
        <u32 as Codec>::lemma_round_trip(v.0, b + rest);
        lemma_auto_spec_u32_to_from_le_bytes();
        assert((a + (b + rest)).skip(4) =~= b + rest);
        <u32 as Codec>::lemma_round_trip(v.1, rest);
    }
}

} // verus!
