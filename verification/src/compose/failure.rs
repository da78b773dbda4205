//! What can go wrong while state pairs are named.

use vstd::prelude::*;

verus! {

/// What was being done on scratch storage.
#[derive(Clone, Copy, Debug, PartialEq, Eq, Structural)]
pub enum ScratchStep {
    CreatingScratch,
    CreatingFile,
    SizingSlots,
    ReadingSlot,
    ReadingOffset,
    ReadingLength,
    ReadingTuple,
    SeekingTuples,
    WritingOffset,
    WritingTuple,
    WritingSlot,
    SyncingSlots,
    RemovingSlots,
    Flushing,
}

/// Why a request could not be answered.
#[derive(Clone, Copy, Debug, PartialEq, Eq, Structural)]
pub enum StoreFailure {
    /// Scratch storage failed.
    ScratchIo(ScratchStep),
    /// A tuple could not be turned into bytes.
    Encoding,
    /// Bytes could not be turned into a tuple.
    Decoding,
    /// A decoder left bytes over.
    TrailingBytes { count: usize },
    /// There are more states than state ids.
    StateCountExceedsIds,
    /// The next state id is the one that no state has.
    StateCountReachedReserved,
    /// No state has this id.
    StateAbsent { state: u32 },
    /// A tuple is too large to be held in memory.
    TupleTooLarge,
    /// A position on scratch storage does not fit its number type.
    PositionOverflow,
    /// The number of slots does not fit its number type.
    SlotCountOverflow,
    /// The number of the next slot file does not fit its number type.
    GenerationOverflow,
    /// The load of the slot table does not fit its number type.
    LoadOverflow,
    /// The accounted memory does not fit its number type.
    AccountingOverflow,
    /// The in-memory table could not be enlarged.
    Reservation,
    /// Every slot is taken.
    TableFull,
    /// Moving to scratch storage gave a tuple another id.
    SpillChangedId { expected: u32, actual: u32 },
    /// An answer arrived that nobody had asked for.
    UnexpectedAnswer,
}

/// The error of a request.
#[derive(Clone, Copy, Debug, PartialEq, Eq, Structural)]
pub enum StoreError {
    /// The request failed.
    Failed(StoreFailure),
    /// An earlier request failed on scratch storage; the store is not used again.
    Unusable(StoreFailure),
    /// The store has moved to scratch storage, which has no snapshot format.
    NotSerializable,
}

} // verus!
