//! A table of tuples on scratch storage.
//!
//! Storage is never touched from here. A request is a little machine: it says
//! what to ask of storage next, and moves on when the answer is handed in.

use crate::bytes::{le_bytes, push_all};
use crate::compose::accounting::{
    lemma_double_power, needs_growth, needs_growth_model, next_id_model, power_of_two,
    state_id_for_len,
};
use crate::compose::failure::{ScratchStep, StoreFailure};
use crate::compose::scratch::{
    decode_number, decode_slot, encode_number, encode_slot, number_of, slot_bytes, slot_of, Action,
    ActionM, Event, EventM, ScratchFile, Slot,
};
use crate::compose::slots::{first_slot, following_slot, home_slot, next_slot};
use crate::compose::tuple::{StateCodec, StateTuple};
use crate::fst::tr::StateId;
use vstd::prelude::*;

verus! {

/// The bytes that were asked for, if they came.
pub open spec fn answer_bytes(e: EventM, len: int, step: ScratchStep) -> Result<
    Seq<u8>,
    StoreFailure,
> {
    match e {
        EventM::Bytes(b) => if b.len() == len {
            Ok(b)
        } else {
            Err(StoreFailure::UnexpectedAnswer)
        },
        EventM::Failed => Err(StoreFailure::ScratchIo(step)),
        _ => Err(StoreFailure::UnexpectedAnswer),
    }
}

/// Whether what was asked for was done.
pub open spec fn answer_done(e: EventM, step: ScratchStep) -> Result<(), StoreFailure> {
    match e {
        EventM::Done => Ok(()),
        EventM::Failed => Err(StoreFailure::ScratchIo(step)),
        _ => Err(StoreFailure::UnexpectedAnswer),
    }
}

/// The end of a file, if it was told.
pub open spec fn answer_offset(e: EventM, step: ScratchStep) -> Result<u64, StoreFailure> {
    match e {
        EventM::Offset(at) => Ok(at),
        EventM::Failed => Err(StoreFailure::ScratchIo(step)),
        _ => Err(StoreFailure::UnexpectedAnswer),
    }
}

fn take_bytes(e: &Event, len: u64, step: ScratchStep) -> (r: Result<&Vec<u8>, StoreFailure>)
    ensures
        match r {
            Ok(b) => answer_bytes(e.model(), len as int, step) == Ok::<Seq<u8>, StoreFailure>(b@),
            Err(f) => answer_bytes(e.model(), len as int, step) == Err::<Seq<u8>, StoreFailure>(f),
        },
{
    match e {
        Event::Bytes(b) => if b.len() as u64 == len {
            Ok(b)
        } else {
            Err(StoreFailure::UnexpectedAnswer)
        },
        Event::Failed => Err(StoreFailure::ScratchIo(step)),
        _ => Err(StoreFailure::UnexpectedAnswer),
    }
}

/// Whether what was asked for was done.
pub fn take_done(e: &Event, step: ScratchStep) -> (r: Result<(), StoreFailure>)
    ensures
        r == answer_done(e.model(), step),
{
    match e {
        Event::Done => Ok(()),
        Event::Failed => Err(StoreFailure::ScratchIo(step)),
        _ => Err(StoreFailure::UnexpectedAnswer),
    }
}

fn take_offset(e: &Event, step: ScratchStep) -> (r: Result<u64, StoreFailure>)
    ensures
        r == answer_offset(e.model(), step),
{
    match e {
        Event::Offset(at) => Ok(*at),
        Event::Failed => Err(StoreFailure::ScratchIo(step)),
        _ => Err(StoreFailure::UnexpectedAnswer),
    }
}

/// What is known of the table without looking at storage.
#[derive(Clone, Copy, Debug, PartialEq, Eq, Structural)]
pub struct DiskStateStore {
    /// How many slots the hash table has.
    pub slot_count: u64,
    /// How often it was made larger.
    pub slot_generation: u64,
    /// How many tuples there are.
    pub len: u64,
}

/// The largest number of slots whose file size can be told.
pub const MAX_SLOT_COUNT: u64 = 0x0fff_ffff_ffff_ffff;

impl DiskStateStore {
    /// The number of slots is a power of two, and a file can hold them.
    pub open spec fn sized(self) -> bool {
        power_of_two(self.slot_count) && self.slot_count <= MAX_SLOT_COUNT
    }

    /// The file with the slots.
    pub open spec fn slots_file(self) -> ScratchFile {
        ScratchFile::Slots { generation: self.slot_generation }
    }

    /// The file with the slots before the table was last made larger.
    pub open spec fn outgrown_file(self) -> ScratchFile {
        ScratchFile::Slots { generation: (self.slot_generation - 1) as u64 }
    }

    /// The file that larger slots go to.
    pub open spec fn next_slots_file(self) -> ScratchFile {
        ScratchFile::Slots { generation: (self.slot_generation + 1) as u64 }
    }

    /// The table after it was made larger.
    pub open spec fn grown(self) -> DiskStateStore {
        DiskStateStore {
            slot_count: (2 * self.slot_count) as u64,
            slot_generation: (self.slot_generation + 1) as u64,
            len: self.len,
        }
    }
}

/// Reading the tuple of a state: how far it has come.
#[derive(Clone, Copy, Debug, PartialEq, Eq, Structural)]
pub enum Resolving {
    /// Reading where the tuple begins.
    Offset { id: StateId },
    /// Reading how long it is.
    Length { offset: u64 },
    /// Reading it.
    Tuple { at: u64, count: u64 },
}

/// What follows from an answer.
#[derive(Clone, Copy, Debug, PartialEq, Eq, Structural)]
pub enum Resolved {
    More(Resolving),
    /// The answer holds the tuple.
    Got,
    Failed(StoreFailure),
}

impl Resolving {
    /// What is asked of storage.
    pub open spec fn action_model(self) -> ActionM {
        match self {
            Resolving::Offset { id } => ActionM::Read {
                file: ScratchFile::Offsets,
                at: (id * 8) as u64,
                len: 8,
            },
            Resolving::Length { offset } => ActionM::Read {
                file: ScratchFile::Tuples,
                at: offset,
                len: 8,
            },
            Resolving::Tuple { at, count } => ActionM::Read {
                file: ScratchFile::Tuples,
                at,
                len: count,
            },
        }
    }

    pub fn action(self) -> (r: Action)
        ensures
            r.model() == self.action_model(),
    {
        match self {
            Resolving::Offset { id } => Action::Read {
                file: ScratchFile::Offsets,
                at: id as u64 * 8,
                len: 8,
            },
            Resolving::Length { offset } => Action::Read {
                file: ScratchFile::Tuples,
                at: offset,
                len: 8,
            },
            Resolving::Tuple { at, count } => Action::Read {
                file: ScratchFile::Tuples,
                at,
                len: count,
            },
        }
    }

    /// What follows from an answer.
    pub open spec fn next_model(self, e: EventM) -> Resolved {
        match self {
            Resolving::Offset { id } => match answer_bytes(e, 8, ScratchStep::ReadingOffset) {
                Err(f) => Resolved::Failed(f),
                Ok(b) => Resolved::More(Resolving::Length { offset: number_of(b) }),
            },
            Resolving::Length { offset } => match answer_bytes(e, 8, ScratchStep::ReadingLength) {
                Err(f) => Resolved::Failed(f),
                Ok(b) => if number_of(b) > usize::MAX {
                    Resolved::Failed(StoreFailure::TupleTooLarge)
                } else if offset + 8 > u64::MAX {
                    Resolved::Failed(StoreFailure::PositionOverflow)
                } else {
                    Resolved::More(
                        Resolving::Tuple { at: (offset + 8) as u64, count: number_of(b) },
                    )
                },
            },
            Resolving::Tuple { at, count } => match answer_bytes(
                e,
                count as int,
                ScratchStep::ReadingTuple,
            ) {
                Err(f) => Resolved::Failed(f),
                Ok(_) => Resolved::Got,
            },
        }
    }

    pub fn next(self, e: &Event) -> (r: Resolved)
        ensures
            r == self.next_model(e.model()),
            r is Got ==> e is Bytes,
    {
        match self {
            Resolving::Offset { id } => match take_bytes(e, 8, ScratchStep::ReadingOffset) {
                Err(f) => Resolved::Failed(f),
                Ok(b) => Resolved::More(Resolving::Length { offset: decode_number(b) }),
            },
            Resolving::Length { offset } => match take_bytes(e, 8, ScratchStep::ReadingLength) {
                Err(f) => Resolved::Failed(f),
                Ok(b) => {
                    let count: u64 = decode_number(b);
                    if count > usize::MAX as u64 {
                        return Resolved::Failed(StoreFailure::TupleTooLarge);
                    }
                    match offset.checked_add(8) {
                        None => Resolved::Failed(StoreFailure::PositionOverflow),
                        Some(at) => Resolved::More(Resolving::Tuple { at, count }),
                    }
                },
            },
            Resolving::Tuple { at, count } => match take_bytes(
                e,
                count,
                ScratchStep::ReadingTuple,
            ) {
                Err(f) => Resolved::Failed(f),
                Ok(_) => Resolved::Got,
            },
        }
    }
}

/// Beginning to read the tuple of a state.
pub open spec fn resolve_begin_model(d: DiskStateStore, id: StateId) -> Result<
    Resolving,
    StoreFailure,
> {
    if id >= d.len {
        Err(StoreFailure::StateAbsent { state: id })
    } else {
        Ok(Resolving::Offset { id })
    }
}

/// Begins to read the tuple of a state.
pub fn resolve_begin(d: &DiskStateStore, id: StateId) -> (r: Result<Resolving, StoreFailure>)
    ensures
        r == resolve_begin_model(*d, id),
{
    if id as u64 >= d.len {
        return Err(StoreFailure::StateAbsent { state: id });
    }
    Ok(Resolving::Offset { id })
}

/// Looking for a tuple: how far it has come.
#[derive(Clone, Copy, Debug, PartialEq, Eq, Structural)]
pub enum Looking {
    /// Reading a slot, after `probed` others.
    Slot { slot: u64, probed: u64 },
    /// Comparing with the tuple of a slot that has the right hash.
    Check { slot: u64, probed: u64, id: StateId, resolving: Resolving },
}

/// What follows from an answer.
#[derive(Clone, Copy, Debug, PartialEq, Eq, Structural)]
pub enum Looked {
    More(Looking),
    /// The tuple is there, under this id.
    Found(StateId),
    /// The tuple is not there; it belongs into this slot.
    Vacant(u64),
    Failed(StoreFailure),
}

/// Beginning to look for a tuple.
pub open spec fn look_begin_model(d: DiskStateStore, hash: u64) -> Looking {
    Looking::Slot { slot: home_slot(hash, d.slot_count), probed: 0 }
}

/// Begins to look for a tuple.
pub fn look_begin(d: &DiskStateStore, hash: u64) -> (r: Looking)
    requires
        d.sized(),
    ensures
        r == look_begin_model(*d, hash),
        r.within(*d),
{
    Looking::Slot { slot: first_slot(hash, d.slot_count), probed: 0 }
}

/// Going on to the next slot.
pub open spec fn look_on_model(d: DiskStateStore, slot: u64, probed: u64) -> Looked {
    if probed + 1 >= d.slot_count {
        Looked::Failed(StoreFailure::TableFull)
    } else {
        Looked::More(
            Looking::Slot {
                slot: next_slot(slot as int, d.slot_count as int) as u64,
                probed: (probed + 1) as u64,
            },
        )
    }
}

fn look_on(d: &DiskStateStore, slot: u64, probed: u64) -> (r: Looked)
    requires
        d.sized(),
        slot < d.slot_count,
    ensures
        r == look_on_model(*d, slot, probed),
        r matches Looked::More(l) ==> l.within(*d),
{
    if probed >= d.slot_count - 1 {
        return Looked::Failed(StoreFailure::TableFull);
    }
    Looked::More(
        Looking::Slot { slot: following_slot(slot, d.slot_count), probed: probed + 1 },
    )
}

impl Looking {
    /// The slot exists.
    pub open spec fn within(self, d: DiskStateStore) -> bool {
        match self {
            Looking::Slot { slot, probed } => slot < d.slot_count,
            Looking::Check { slot, probed, id, resolving } => slot < d.slot_count,
        }
    }

    /// What is asked of storage.
    pub open spec fn action_model(self, d: DiskStateStore) -> ActionM {
        match self {
            Looking::Slot { slot, probed } => ActionM::Read {
                file: d.slots_file(),
                at: (slot * 16) as u64,
                len: 16,
            },
            Looking::Check { slot, probed, id, resolving } => resolving.action_model(),
        }
    }

    pub fn action(self, d: &DiskStateStore) -> (r: Action)
        requires
            d.sized(),
            self.within(*d),
        ensures
            r.model() == self.action_model(*d),
    {
        match self {
            Looking::Slot { slot, probed } => Action::Read {
                file: ScratchFile::Slots { generation: d.slot_generation },
                at: slot * 16,
                len: 16,
            },
            Looking::Check { slot, probed, id, resolving } => resolving.action(),
        }
    }

    /// What follows from an answer.
    pub open spec fn next_model<T: StateTuple, C: StateCodec<T>>(
        self,
        d: DiskStateStore,
        tuple: T::M,
        hash: u64,
        e: EventM,
    ) -> Looked {
        match self {
            Looking::Slot { slot, probed } => match answer_bytes(
                e,
                16,
                ScratchStep::ReadingSlot,
            ) {
                Err(f) => Looked::Failed(f),
                Ok(b) => {
                    let found = slot_of(b);
                    if found.id_plus_one == 0 {
                        Looked::Vacant(slot)
                    } else if found.hash != hash {
                        look_on_model(d, slot, probed)
                    } else if found.id_plus_one - 1 > u32::MAX {
                        Looked::Failed(StoreFailure::StateCountExceedsIds)
                    } else {
                        let id = (found.id_plus_one - 1) as StateId;
                        match resolve_begin_model(d, id) {
                            Err(f) => Looked::Failed(f),
                            Ok(resolving) => Looked::More(
                                Looking::Check { slot, probed, id, resolving },
                            ),
                        }
                    }
                },
            },
            Looking::Check { slot, probed, id, resolving } => match resolving.next_model(e) {
                Resolved::Failed(f) => Looked::Failed(f),
                Resolved::More(resolving) => Looked::More(
                    Looking::Check { slot, probed, id, resolving },
                ),
                Resolved::Got => match C::decode_model(e->Bytes_0) {
                    Err(f) => Looked::Failed(f),
                    Ok(found) => if found == tuple {
                        Looked::Found(id)
                    } else {
                        look_on_model(d, slot, probed)
                    },
                },
            },
        }
    }

    pub fn next<T: StateTuple, C: StateCodec<T>>(
        self,
        d: &DiskStateStore,
        tuple: &T,
        hash: u64,
        e: &Event,
    ) -> (r: Looked)
        requires
            d.sized(),
            self.within(*d),
        ensures
            r == self.next_model::<T, C>(*d, tuple.model(), hash, e.model()),
            r matches Looked::More(l) ==> l.within(*d),
            r matches Looked::Vacant(slot) ==> slot < d.slot_count,
    {
        match self {
            Looking::Slot { slot, probed } => match take_bytes(e, 16, ScratchStep::ReadingSlot) {
                Err(f) => Looked::Failed(f),
                Ok(b) => {
                    let found: Slot = decode_slot(b);
                    if found.id_plus_one == 0 {
                        return Looked::Vacant(slot);
                    }
                    if found.hash != hash {
                        return look_on(d, slot, probed);
                    }
                    let raw_id: u64 = found.id_plus_one - 1;
                    if raw_id > u32::MAX as u64 {
                        return Looked::Failed(StoreFailure::StateCountExceedsIds);
                    }
                    let id: StateId = raw_id as StateId;
                    match resolve_begin(d, id) {
                        Err(f) => Looked::Failed(f),
                        Ok(resolving) => Looked::More(
                            Looking::Check { slot, probed, id, resolving },
                        ),
                    }
                },
            },
            Looking::Check { slot, probed, id, resolving } => match resolving.next(e) {
                Resolved::Failed(f) => Looked::Failed(f),
                Resolved::More(resolving) => Looked::More(
                    Looking::Check { slot, probed, id, resolving },
                ),
                Resolved::Got => match e {
                    Event::Bytes(b) => match C::decode(b) {
                        Err(f) => Looked::Failed(f),
                        Ok(found) => if found.same(tuple) {
                            Looked::Found(id)
                        } else {
                            look_on(d, slot, probed)
                        },
                    },
                    _ => Looked::Failed(StoreFailure::UnexpectedAnswer),
                },
            },
        }
    }
}

/// Making the hash table larger: how far it has come.
#[derive(Clone, Copy, Debug, PartialEq, Eq, Structural)]
pub enum Growing {
    /// Creating the new file.
    Create,
    /// Giving it its size.
    Size,
    /// Reading an old slot.
    Read { index: u64 },
    /// Looking for a free new slot, after `probed` others.
    Probe { index: u64, entry: Slot, at: u64, probed: u64 },
    /// Writing the new slot.
    Place { index: u64, entry: Slot, at: u64 },
    /// Making sure that the new file is complete.
    Sync,
}

/// What follows from an answer.
#[derive(Clone, Copy, Debug, PartialEq, Eq, Structural)]
pub enum Grown {
    More(Growing),
    /// The new file is complete, and the old one is no longer needed.
    Done,
    Failed(StoreFailure),
}

/// Beginning to make the table larger.
pub open spec fn grow_begin_model(d: DiskStateStore) -> Result<Growing, StoreFailure> {
    if 2 * d.slot_count > u64::MAX {
        Err(StoreFailure::SlotCountOverflow)
    } else if d.slot_generation == u64::MAX {
        Err(StoreFailure::GenerationOverflow)
    } else {
        Ok(Growing::Create)
    }
}

/// Begins to make the table larger.
pub fn grow_begin(d: &DiskStateStore) -> (r: Result<Growing, StoreFailure>)
    ensures
        r == grow_begin_model(*d),
        r matches Ok(g) ==> g.within(*d),
{
    if d.slot_count > u64::MAX / 2 {
        return Err(StoreFailure::SlotCountOverflow);
    }
    if d.slot_generation == u64::MAX {
        return Err(StoreFailure::GenerationOverflow);
    }
    Ok(Growing::Create)
}

/// Going on to the next old slot.
pub open spec fn grow_on_model(d: DiskStateStore, index: u64) -> Growing {
    if index + 1 < d.slot_count {
        Growing::Read { index: (index + 1) as u64 }
    } else {
        Growing::Sync
    }
}

impl Growing {
    /// The slots exist.
    pub open spec fn within(self, d: DiskStateStore) -> bool {
        &&& 2 * d.slot_count <= u64::MAX
        &&& d.slot_generation < u64::MAX
        &&& match self {
            Growing::Create => true,
            Growing::Size => 2 * d.slot_count <= MAX_SLOT_COUNT,
            Growing::Read { index } => 2 * d.slot_count <= MAX_SLOT_COUNT && index < d.slot_count,
            Growing::Probe { index, entry, at, probed } => 2 * d.slot_count <= MAX_SLOT_COUNT
                && index < d.slot_count && at < 2 * d.slot_count,
            Growing::Place { index, entry, at } => 2 * d.slot_count <= MAX_SLOT_COUNT && index
                < d.slot_count && at < 2 * d.slot_count,
            Growing::Sync => 2 * d.slot_count <= MAX_SLOT_COUNT,
        }
    }

    /// What is asked of storage.
    pub open spec fn action_model(self, d: DiskStateStore) -> ActionM {
        match self {
            Growing::Create => ActionM::Create { file: d.next_slots_file() },
            Growing::Size => ActionM::SetLen {
                file: d.next_slots_file(),
                len: (2 * d.slot_count * 16) as u64,
            },
            Growing::Read { index } => ActionM::Read {
                file: d.slots_file(),
                at: (index * 16) as u64,
                len: 16,
            },
            Growing::Probe { index, entry, at, probed } => ActionM::Read {
                file: d.next_slots_file(),
                at: (at * 16) as u64,
                len: 16,
            },
            Growing::Place { index, entry, at } => ActionM::Write {
                file: d.next_slots_file(),
                at: (at * 16) as u64,
                bytes: slot_bytes(entry),
            },
            Growing::Sync => ActionM::Sync { file: d.next_slots_file() },
        }
    }

    pub fn action(self, d: &DiskStateStore) -> (r: Action)
        requires
            d.sized(),
            self.within(*d),
        ensures
            r.model() == self.action_model(*d),
    {
        let old_file = ScratchFile::Slots { generation: d.slot_generation };
        let new_file = ScratchFile::Slots { generation: d.slot_generation + 1 };
        match self {
            Growing::Create => Action::Create { file: new_file },
            Growing::Size => Action::SetLen { file: new_file, len: 2 * d.slot_count * 16 },
            Growing::Read { index } => Action::Read { file: old_file, at: index * 16, len: 16 },
            Growing::Probe { index, entry, at, probed } => Action::Read {
                file: new_file,
                at: at * 16,
                len: 16,
            },
            Growing::Place { index, entry, at } => Action::Write {
                file: new_file,
                at: at * 16,
                bytes: encode_slot(entry),
            },
            Growing::Sync => Action::Sync { file: new_file },
        }
    }

    /// What follows from an answer.
    pub open spec fn next_model(self, d: DiskStateStore, e: EventM) -> Grown {
        match self {
            Growing::Create => match answer_done(e, ScratchStep::CreatingFile) {
                Err(f) => Grown::Failed(f),
                Ok(_) => if 2 * d.slot_count > MAX_SLOT_COUNT {
                    Grown::Failed(StoreFailure::PositionOverflow)
                } else {
                    Grown::More(Growing::Size)
                },
            },
            Growing::Size => match answer_done(e, ScratchStep::SizingSlots) {
                Err(f) => Grown::Failed(f),
                Ok(_) => Grown::More(Growing::Read { index: 0 }),
            },
            Growing::Read { index } => match answer_bytes(e, 16, ScratchStep::ReadingSlot) {
                Err(f) => Grown::Failed(f),
                Ok(b) => {
                    let entry = slot_of(b);
                    if entry.id_plus_one == 0 {
                        Grown::More(grow_on_model(d, index))
                    } else {
                        Grown::More(
                            Growing::Probe {
                                index,
                                entry,
                                at: home_slot(entry.hash, (2 * d.slot_count) as u64),
                                probed: 0,
                            },
                        )
                    }
                },
            },
            Growing::Probe { index, entry, at, probed } => match answer_bytes(
                e,
                16,
                ScratchStep::ReadingSlot,
            ) {
                Err(f) => Grown::Failed(f),
                Ok(b) => if slot_of(b).id_plus_one == 0 {
                    Grown::More(Growing::Place { index, entry, at })
                } else if probed + 1 >= 2 * d.slot_count {
                    Grown::Failed(StoreFailure::TableFull)
                } else {
                    Grown::More(
                        Growing::Probe {
                            index,
                            entry,
                            at: next_slot(at as int, 2 * d.slot_count) as u64,
                            probed: (probed + 1) as u64,
                        },
                    )
                },
            },
            Growing::Place { index, entry, at } => match answer_done(
                e,
                ScratchStep::WritingSlot,
            ) {
                Err(f) => Grown::Failed(f),
                Ok(_) => Grown::More(grow_on_model(d, index)),
            },
            Growing::Sync => match answer_done(e, ScratchStep::SyncingSlots) {
                Err(f) => Grown::Failed(f),
                Ok(_) => Grown::Done,
            },
        }
    }

    pub fn next(self, d: &DiskStateStore, e: &Event) -> (r: Grown)
        requires
            d.sized(),
            self.within(*d),
        ensures
            r == self.next_model(*d, e.model()),
            r matches Grown::More(g) ==> g.within(*d),
            r is Done ==> self is Sync,
    {
        let new_count: u64 = 2 * d.slot_count;
        proof {
            lemma_double_power(d.slot_count);
        }
        match self {
            Growing::Create => match take_done(e, ScratchStep::CreatingFile) {
                Err(f) => Grown::Failed(f),
                Ok(_) => if new_count > MAX_SLOT_COUNT {
                    Grown::Failed(StoreFailure::PositionOverflow)
                } else {
                    Grown::More(Growing::Size)
                },
            },
            Growing::Size => match take_done(e, ScratchStep::SizingSlots) {
                Err(f) => Grown::Failed(f),
                Ok(_) => Grown::More(Growing::Read { index: 0 }),
            },
            Growing::Read { index } => match take_bytes(e, 16, ScratchStep::ReadingSlot) {
                Err(f) => Grown::Failed(f),
                Ok(b) => {
                    let entry: Slot = decode_slot(b);
                    if entry.id_plus_one == 0 {
                        Grown::More(grow_on(d, index))
                    } else {
                        Grown::More(
                            Growing::Probe {
                                index,
                                entry,
                                at: first_slot(entry.hash, new_count),
                                probed: 0,
                            },
                        )
                    }
                },
            },
            Growing::Probe { index, entry, at, probed } => match take_bytes(
                e,
                16,
                ScratchStep::ReadingSlot,
            ) {
                Err(f) => Grown::Failed(f),
                Ok(b) => if decode_slot(b).id_plus_one == 0 {
                    Grown::More(Growing::Place { index, entry, at })
                } else if probed >= new_count - 1 {
                    Grown::Failed(StoreFailure::TableFull)
                } else {
                    Grown::More(
                        Growing::Probe {
                            index,
                            entry,
                            at: following_slot(at, new_count),
                            probed: probed + 1,
                        },
                    )
                },
            },
            Growing::Place { index, entry, at } => match take_done(e, ScratchStep::WritingSlot) {
                Err(f) => Grown::Failed(f),
                Ok(_) => Grown::More(grow_on(d, index)),
            },
            Growing::Sync => match take_done(e, ScratchStep::SyncingSlots) {
                Err(f) => Grown::Failed(f),
                Ok(_) => Grown::Done,
            },
        }
    }
}

fn grow_on(d: &DiskStateStore, index: u64) -> (r: Growing)
    requires
        index < d.slot_count,
        2 * d.slot_count <= MAX_SLOT_COUNT,
        d.slot_generation < u64::MAX,
    ensures
        r == grow_on_model(*d, index),
        r.within(*d),
{
    if index + 1 < d.slot_count {
        Growing::Read { index: index + 1 }
    } else {
        Growing::Sync
    }
}

/// Naming a tuple: how far it has come.
#[derive(Clone, Copy, Debug, PartialEq, Eq, Structural)]
pub enum InsertPhase {
    /// Looking for the tuple, for the second time if the table was made larger.
    Look { again: bool, looking: Looking },
    /// Making the table larger.
    Grow(Growing),
    /// Removing the slots that were outgrown.
    Retire,
    /// Asking where the tuples end.
    Seek { slot: u64, state: StateId },
    /// Writing where the tuple will begin.
    Offset { slot: u64, state: StateId, offset: u64 },
    /// Writing the tuple.
    Record { slot: u64, state: StateId },
    /// Writing its slot.
    Slot { slot: u64, state: StateId },
}

/// A tuple that is being named.
#[derive(Debug)]
pub struct Inserting<T> {
    pub tuple: T,
    pub hash: u64,
    /// The tuple behind its length, once it is to be written.
    pub record: Vec<u8>,
    pub phase: InsertPhase,
}

/// The mathematical value of a tuple that is being named.
#[verifier::ext_equal]
pub struct InsertM<M> {
    pub tuple: M,
    pub hash: u64,
    pub record: Seq<u8>,
    pub phase: InsertPhase,
}

/// What follows from an answer.
#[derive(Debug)]
pub enum Inserted<T> {
    More(Inserting<T>),
    /// The tuple has this id.
    Done(StateId),
    Failed(StoreFailure),
}

/// The mathematical value of what follows.
pub enum InsertedM<M> {
    More(InsertM<M>),
    Done(StateId),
    Failed(StoreFailure),
}

impl<T: StateTuple> Inserted<T> {
    pub open spec fn model(&self) -> InsertedM<T::M> {
        match *self {
            Inserted::More(i) => InsertedM::More(i.model()),
            Inserted::Done(id) => InsertedM::Done(id),
            Inserted::Failed(f) => InsertedM::Failed(f),
        }
    }
}

/// The bytes of a tuple behind their number.
pub open spec fn record_bytes(bytes: Seq<u8>) -> Seq<u8> {
    le_bytes(bytes.len() as int, 8) + bytes
}

/// Beginning to name a tuple.
pub open spec fn insert_begin_model<T: StateTuple>(d: DiskStateStore, tuple: T::M) -> InsertM<
    T::M,
> {
    InsertM {
        tuple,
        hash: T::hash_model(tuple),
        record: Seq::empty(),
        phase: InsertPhase::Look {
            again: false,
            looking: look_begin_model(d, T::hash_model(tuple)),
        },
    }
}

/// Beginning to write a tuple that is not there yet.
pub open spec fn append_begin_model<T: StateTuple, C: StateCodec<T>>(
    d: DiskStateStore,
    i: InsertM<T::M>,
    slot: u64,
) -> InsertedM<T::M> {
    match next_id_model(d.len as int) {
        Err(f) => InsertedM::Failed(f),
        Ok(state) => match C::encode_model(i.tuple) {
            Err(f) => InsertedM::Failed(f),
            Ok(bytes) => InsertedM::More(
                InsertM {
                    record: record_bytes(bytes),
                    phase: InsertPhase::Seek { slot, state },
                    ..i
                },
            ),
        },
    }
}

impl InsertPhase {
    /// The slots exist.
    pub open spec fn within(self, d: DiskStateStore) -> bool {
        match self {
            InsertPhase::Look { again, looking } => looking.within(d),
            InsertPhase::Grow(growing) => growing.within(d),
            InsertPhase::Retire => d.slot_generation > 0,
            InsertPhase::Seek { slot, state } => slot < d.slot_count && d.len < u32::MAX,
            InsertPhase::Offset { slot, state, offset } => slot < d.slot_count && d.len < u32::MAX,
            InsertPhase::Record { slot, state } => slot < d.slot_count && d.len < u32::MAX,
            InsertPhase::Slot { slot, state } => slot < d.slot_count && d.len < u32::MAX,
        }
    }
}

impl<M> InsertM<M> {
    /// What is asked of storage.
    pub open spec fn action_model(self, d: DiskStateStore) -> ActionM {
        match self.phase {
            InsertPhase::Look { again, looking } => looking.action_model(d),
            InsertPhase::Grow(growing) => growing.action_model(d),
            InsertPhase::Retire => ActionM::Remove { file: d.outgrown_file() },
            InsertPhase::Seek { slot, state } => ActionM::End { file: ScratchFile::Tuples },
            InsertPhase::Offset { slot, state, offset } => ActionM::Append {
                file: ScratchFile::Offsets,
                bytes: le_bytes(offset as int, 8),
            },
            InsertPhase::Record { slot, state } => ActionM::Append {
                file: ScratchFile::Tuples,
                bytes: self.record,
            },
            InsertPhase::Slot { slot, state } => ActionM::Write {
                file: d.slots_file(),
                at: (slot * 16) as u64,
                bytes: slot_bytes(Slot { hash: self.hash, id_plus_one: (d.len + 1) as u64 }),
            },
        }
    }
}

/// What follows from an answer: the table afterwards, and how naming goes on.
pub open spec fn insert_next_model<T: StateTuple, C: StateCodec<T>>(
    d: DiskStateStore,
    i: InsertM<T::M>,
    e: EventM,
) -> (DiskStateStore, InsertedM<T::M>) {
    match i.phase {
        InsertPhase::Look { again, looking } => match looking.next_model::<T, C>(
            d,
            i.tuple,
            i.hash,
            e,
        ) {
            Looked::Failed(f) => (d, InsertedM::Failed(f)),
            Looked::More(looking) => (
                d,
                InsertedM::More(InsertM { phase: InsertPhase::Look { again, looking }, ..i }),
            ),
            Looked::Found(id) => (d, InsertedM::Done(id)),
            Looked::Vacant(slot) => if again {
                (d, append_begin_model::<T, C>(d, i, slot))
            } else {
                match needs_growth_model(d.len as int, d.slot_count as int) {
                    Err(f) => (d, InsertedM::Failed(f)),
                    Ok(false) => (d, append_begin_model::<T, C>(d, i, slot)),
                    Ok(true) => match grow_begin_model(d) {
                        Err(f) => (d, InsertedM::Failed(f)),
                        Ok(growing) => (
                            d,
                            InsertedM::More(InsertM { phase: InsertPhase::Grow(growing), ..i }),
                        ),
                    },
                }
            },
        },
        InsertPhase::Grow(growing) => match growing.next_model(d, e) {
            Grown::Failed(f) => (d, InsertedM::Failed(f)),
            Grown::More(growing) => (
                d,
                InsertedM::More(InsertM { phase: InsertPhase::Grow(growing), ..i }),
            ),
            Grown::Done => (
                d.grown(),
                InsertedM::More(InsertM { phase: InsertPhase::Retire, ..i }),
            ),
        },
        InsertPhase::Retire => match answer_done(e, ScratchStep::RemovingSlots) {
            Err(f) => (d, InsertedM::Failed(f)),
            Ok(_) => (
                d,
                InsertedM::More(
                    InsertM {
                        phase: InsertPhase::Look {
                            again: true,
                            looking: look_begin_model(d, i.hash),
                        },
                        ..i
                    },
                ),
            ),
        },
        InsertPhase::Seek { slot, state } => match answer_offset(e, ScratchStep::SeekingTuples) {
            Err(f) => (d, InsertedM::Failed(f)),
            Ok(offset) => (
                d,
                InsertedM::More(
                    InsertM { phase: InsertPhase::Offset { slot, state, offset }, ..i },
                ),
            ),
        },
        InsertPhase::Offset { slot, state, offset } => match answer_done(
            e,
            ScratchStep::WritingOffset,
        ) {
            Err(f) => (d, InsertedM::Failed(f)),
            Ok(_) => (
                d,
                InsertedM::More(InsertM { phase: InsertPhase::Record { slot, state }, ..i }),
            ),
        },
        InsertPhase::Record { slot, state } => match answer_done(e, ScratchStep::WritingTuple) {
            Err(f) => (d, InsertedM::Failed(f)),
            Ok(_) => (
                d,
                InsertedM::More(InsertM { phase: InsertPhase::Slot { slot, state }, ..i }),
            ),
        },
        InsertPhase::Slot { slot, state } => match answer_done(e, ScratchStep::WritingSlot) {
            Err(f) => (d, InsertedM::Failed(f)),
            Ok(_) => (
                DiskStateStore { len: (d.len + 1) as u64, ..d },
                InsertedM::Done(state),
            ),
        },
    }
}

impl<T: StateTuple> Inserting<T> {
    pub open spec fn model(&self) -> InsertM<T::M> {
        InsertM {
            tuple: self.tuple.model(),
            hash: self.hash,
            record: self.record@,
            phase: self.phase,
        }
    }

    /// Begins to name a tuple.
    pub fn begin(d: &DiskStateStore, tuple: T) -> (r: Self)
        requires
            d.sized(),
        ensures
            r.model() == insert_begin_model::<T>(*d, tuple.model()),
            r.model().phase.within(*d),
    {
        let hash: u64 = tuple.hash_tuple();
        let looking: Looking = look_begin(d, hash);
        let r = Inserting {
            tuple,
            hash,
            record: Vec::new(),
            phase: InsertPhase::Look { again: false, looking },
        };
        assert(r.record@ =~= Seq::empty());
        r
    }

    /// What is asked of storage.
    pub fn action(&self, d: &DiskStateStore) -> (r: Action)
        requires
            d.sized(),
            self.model().phase.within(*d),
        ensures
            r.model() == self.model().action_model(*d),
    {
        match self.phase {
            InsertPhase::Look { again, looking } => looking.action(d),
            InsertPhase::Grow(growing) => growing.action(d),
            InsertPhase::Retire => Action::Remove {
                file: ScratchFile::Slots { generation: d.slot_generation - 1 },
            },
            InsertPhase::Seek { slot, state } => Action::End { file: ScratchFile::Tuples },
            InsertPhase::Offset { slot, state, offset } => Action::Append {
                file: ScratchFile::Offsets,
                bytes: encode_number(offset),
            },
            InsertPhase::Record { slot, state } => {
                let mut bytes: Vec<u8> = Vec::new();
                push_all(&mut bytes, &self.record);
                assert(bytes@ =~= self.record@);
                Action::Append { file: ScratchFile::Tuples, bytes }
            },
            InsertPhase::Slot { slot, state } => Action::Write {
                file: ScratchFile::Slots { generation: d.slot_generation },
                at: slot * 16,
                bytes: encode_slot(Slot { hash: self.hash, id_plus_one: d.len + 1 }),
            },
        }
    }

    fn append_begin<C: StateCodec<T>>(self, d: &DiskStateStore, slot: u64) -> (r: Inserted<T>)
        requires
            slot < d.slot_count,
        ensures
            r.model() == append_begin_model::<T, C>(*d, self.model(), slot),
            r matches Inserted::More(i) ==> i.model().phase.within(*d),
    {
        let state: StateId = match state_id_for_len(d.len) {
            Err(f) => {
                return Inserted::Failed(f);
            },
            Ok(state) => state,
        };
        let bytes: Vec<u8> = match C::encode(&self.tuple) {
            Err(f) => {
                return Inserted::Failed(f);
            },
            Ok(bytes) => bytes,
        };
        let mut record: Vec<u8> = encode_number(bytes.len() as u64);
        push_all(&mut record, &bytes);
        assert(record@ =~= record_bytes(bytes@));
        Inserted::More(
            Inserting {
                tuple: self.tuple,
                hash: self.hash,
                record,
                phase: InsertPhase::Seek { slot, state },
            },
        )
    }

    fn at(self, phase: InsertPhase) -> (r: Inserted<T>)
        ensures
            r.model() == InsertedM::<T::M>::More(InsertM { phase, ..self.model() }),
    {
        Inserted::More(
            Inserting { tuple: self.tuple, hash: self.hash, record: self.record, phase },
        )
    }

    /// Takes an answer in.
    pub fn next<C: StateCodec<T>>(self, d: &mut DiskStateStore, e: &Event) -> (r: Inserted<T>)
        requires
            old(d).sized(),
            self.model().phase.within(*old(d)),
        ensures
            (*final(d), r.model()) == insert_next_model::<T, C>(
                *old(d),
                self.model(),
                e.model(),
            ),
            final(d).sized(),
            r matches Inserted::More(i) ==> i.model().phase.within(*final(d)),
    {
        match self.phase {
            InsertPhase::Look { again, looking } => match looking.next::<T, C>(
                d,
                &self.tuple,
                self.hash,
                e,
            ) {
                Looked::Failed(f) => Inserted::Failed(f),
                Looked::More(looking) => self.at(InsertPhase::Look { again, looking }),
                Looked::Found(id) => Inserted::Done(id),
                Looked::Vacant(slot) => {
                    if again {
                        return self.append_begin::<C>(d, slot);
                    }
                    match needs_growth(d.len, d.slot_count) {
                        Err(f) => Inserted::Failed(f),
                        Ok(grow) => {
                            if !grow {
                                return self.append_begin::<C>(d, slot);
                            }
                            match grow_begin(d) {
                                Err(f) => Inserted::Failed(f),
                                Ok(growing) => self.at(InsertPhase::Grow(growing)),
                            }
                        },
                    }
                },
            },
            InsertPhase::Grow(growing) => match growing.next(d, e) {
                Grown::Failed(f) => Inserted::Failed(f),
                Grown::More(growing) => self.at(InsertPhase::Grow(growing)),
                Grown::Done => {
                    proof {
                        lemma_double_power(d.slot_count);
                    }
                    *d = DiskStateStore {
                        slot_count: 2 * d.slot_count,
                        slot_generation: d.slot_generation + 1,
                        len: d.len,
                    };
                    self.at(InsertPhase::Retire)
                },
            },
            InsertPhase::Retire => match take_done(e, ScratchStep::RemovingSlots) {
                Err(f) => Inserted::Failed(f),
                Ok(_) => {
                    let looking: Looking = look_begin(d, self.hash);
                    self.at(InsertPhase::Look { again: true, looking })
                },
            },
            InsertPhase::Seek { slot, state } => match take_offset(
                e,
                ScratchStep::SeekingTuples,
            ) {
                Err(f) => Inserted::Failed(f),
                Ok(offset) => self.at(InsertPhase::Offset { slot, state, offset }),
            },
            InsertPhase::Offset { slot, state, offset } => match take_done(
                e,
                ScratchStep::WritingOffset,
            ) {
                Err(f) => Inserted::Failed(f),
                Ok(_) => self.at(InsertPhase::Record { slot, state }),
            },
            InsertPhase::Record { slot, state } => match take_done(e, ScratchStep::WritingTuple) {
                Err(f) => Inserted::Failed(f),
                Ok(_) => self.at(InsertPhase::Slot { slot, state }),
            },
            InsertPhase::Slot { slot, state } => match take_done(e, ScratchStep::WritingSlot) {
                Err(f) => Inserted::Failed(f),
                Ok(_) => {
                    *d = DiskStateStore {
                        slot_count: d.slot_count,
                        slot_generation: d.slot_generation,
                        len: d.len + 1,
                    };
                    Inserted::Done(state)
                },
            },
        }
    }
}

} // verus!
