//! The tuples that are named, and how they are written down.

use crate::bytes::{le_bytes, lemma_le_bytes, push_le, read_word, span, spelled};
use crate::compose::failure::StoreFailure;
use crate::fst::tr::StateId;
use crate::fx_hasher::{fx_word, FxHasher};
use std::hash::Hasher;
use vstd::prelude::*;

verus! {

/// A tuple that can be named: it can be compared, copied and hashed.
pub trait StateTuple: Sized {
    type M;

    /// The mathematical value of a tuple.
    spec fn model(&self) -> Self::M;

    /// The hash of a tuple.
    spec fn hash_model(m: Self::M) -> u64;

    /// Whether the two tuples have the same value.
    fn same(&self, other: &Self) -> (b: bool)
        ensures
            b == (self.model() == other.model()),
    ;

    /// A second tuple of the same value.
    fn duplicate(&self) -> (r: Self)
        ensures
            r.model() == self.model(),
    ;

    fn hash_tuple(&self) -> (r: u64)
        ensures
            r == Self::hash_model(self.model()),
    ;
}

/// The bytes that a tuple is written down as.
pub type Bytes = Seq<u8>;

/// A way to write tuples down as bytes.
pub trait StateCodec<T: StateTuple> {
    spec fn encode_model(m: T::M) -> Result<Bytes, StoreFailure>;

    spec fn decode_model(bytes: Bytes) -> Result<T::M, StoreFailure>;

    fn encode(tuple: &T) -> (r: Result<Vec<u8>, StoreFailure>)
        ensures
            match r {
                Ok(bytes) => Self::encode_model(tuple.model()) == Ok::<Seq<u8>, StoreFailure>(
                    bytes@,
                ),
                Err(e) => Self::encode_model(tuple.model()) == Err::<Seq<u8>, StoreFailure>(e),
            },
    ;

    fn decode(bytes: &Vec<u8>) -> (r: Result<T, StoreFailure>)
        ensures
            match r {
                Ok(tuple) => Self::decode_model(bytes@) == Ok::<T::M, StoreFailure>(tuple.model()),
                Err(e) => Self::decode_model(bytes@) == Err::<T::M, StoreFailure>(e),
            },
    ;
}

/// Whatever is written down is read back.
pub open spec fn codec_exact<T: StateTuple, C: StateCodec<T>>() -> bool {
    forall|m: T::M|
        (#[trigger] C::encode_model(m)) matches Ok(bytes) ==> C::decode_model(bytes) == Ok::<
            T::M,
            StoreFailure,
        >(m)
}

/// The state of a composition filter that is a number.
#[derive(Clone, Copy, Debug, PartialEq, Eq, Structural)]
pub struct IntegerFilterState {
    pub state: StateId,
}

impl IntegerFilterState {
    pub fn new(state: StateId) -> (r: Self)
        ensures
            r.state == state,
    {
        IntegerFilterState { state }
    }
}

/// A state of a composition: a filter state and a state of each operand.
#[derive(Clone, Copy, Debug, PartialEq, Eq, Structural)]
pub struct ComposeStateTuple {
    pub fs: IntegerFilterState,
    pub s1: StateId,
    pub s2: StateId,
}

impl StateTuple for ComposeStateTuple {
    type M = ComposeStateTuple;

    open spec fn model(&self) -> ComposeStateTuple {
        *self
    }

    open spec fn hash_model(m: ComposeStateTuple) -> u64 {
        fx_word(fx_word(fx_word(0, m.fs.state as u64), m.s1 as u64), m.s2 as u64)
    }

    fn same(&self, other: &Self) -> (b: bool) {
        *self == *other
    }

    fn duplicate(&self) -> (r: Self) {
        *self
    }

    fn hash_tuple(&self) -> (r: u64) {
        let mut hasher = FxHasher::default();
        hasher.write_u32(self.fs.state);
        hasher.write_u32(self.s1);
        hasher.write_u32(self.s2);
        hasher.finish()
    }
}

/// Writes the three numbers of a tuple, four bytes each.
pub struct SerializableCodec {}

impl StateCodec<ComposeStateTuple> for SerializableCodec {
    open spec fn encode_model(m: ComposeStateTuple) -> Result<Seq<u8>, StoreFailure> {
        Ok(
            le_bytes(m.fs.state as int, 4) + le_bytes(m.s1 as int, 4) + le_bytes(m.s2 as int, 4),
        )
    }

    open spec fn decode_model(bytes: Seq<u8>) -> Result<ComposeStateTuple, StoreFailure> {
        if bytes.len() < 12 {
            Err(StoreFailure::Decoding)
        } else if bytes.len() > 12 {
            Err(StoreFailure::TrailingBytes { count: (bytes.len() - 12) as usize })
        } else {
            Ok(
                ComposeStateTuple {
                    fs: IntegerFilterState { state: spelled(bytes.subrange(0, 4), true) as u32 },
                    s1: spelled(bytes.subrange(4, 8), true) as u32,
                    s2: spelled(bytes.subrange(8, 12), true) as u32,
                },
            )
        }
    }

    fn encode(tuple: &ComposeStateTuple) -> (r: Result<Vec<u8>, StoreFailure>) {
        let mut bytes: Vec<u8> = Vec::new();
        push_le(&mut bytes, tuple.fs.state as u64, 4);
        push_le(&mut bytes, tuple.s1 as u64, 4);
        push_le(&mut bytes, tuple.s2 as u64, 4);
        assert(bytes@ =~= le_bytes(tuple.fs.state as int, 4) + le_bytes(tuple.s1 as int, 4)
            + le_bytes(tuple.s2 as int, 4));
        Ok(bytes)
    }

    fn decode(bytes: &Vec<u8>) -> (r: Result<ComposeStateTuple, StoreFailure>) {
        let n: usize = bytes.len();
        if n < 12 {
            return Err(StoreFailure::Decoding);
        }
        if n > 12 {
            return Err(StoreFailure::TrailingBytes { count: n - 12 });
        }
        Ok(
            ComposeStateTuple {
                fs: IntegerFilterState { state: read_word(bytes, 0, 4, true) as u32 },
                s1: read_word(bytes, 4, 4, true) as u32,
                s2: read_word(bytes, 8, 4, true) as u32,
            },
        )
    }
}

/// A tuple that was written down is read back.
pub proof fn law_serializable_codec_is_exact()
    ensures
        codec_exact::<ComposeStateTuple, SerializableCodec>(),
{
    assert forall|m: ComposeStateTuple| SerializableCodec::decode_model(
        (#[trigger] SerializableCodec::encode_model(m))->Ok_0,
    ) == Ok::<ComposeStateTuple, StoreFailure>(m) by {
        let bytes = SerializableCodec::encode_model(m)->Ok_0;
        reveal_with_fuel(span, 5);
        assert(span(4) == 0x1_0000_0000);
        lemma_le_bytes(m.fs.state as int, 4);
        lemma_le_bytes(m.s1 as int, 4);
        lemma_le_bytes(m.s2 as int, 4);
        assert(bytes.subrange(0, 4) =~= le_bytes(m.fs.state as int, 4));
        assert(bytes.subrange(4, 8) =~= le_bytes(m.s1 as int, 4));
        assert(bytes.subrange(8, 12) =~= le_bytes(m.s2 as int, 4));
    }
}

} // verus!
