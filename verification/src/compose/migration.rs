//! Moving a table of tuples from memory to scratch storage.

use crate::compose::accounting::{
    initial_slot_count, initial_slots_model, next_id_model, state_id_for_len,
};
use crate::compose::disk_store::{
    answer_done, insert_begin_model, insert_next_model, take_done, DiskStateStore, InsertM,
    Inserted, InsertedM, Inserting, MAX_SLOT_COUNT,
};
use crate::compose::failure::{ScratchStep, StoreFailure};
use crate::compose::memory_store::MemoryStateStore;
use crate::compose::scratch::{Action, ActionM, Event, EventM, ScratchFile};
use crate::compose::tuple::{StateCodec, StateTuple};
use vstd::prelude::*;

verus! {

/// How far the move has come.
#[derive(Clone, Copy, Debug, PartialEq, Eq, Structural)]
pub enum MigratePhase {
    /// Creating the scratch directory.
    Scratch,
    /// Creating the files.
    CreateTuples,
    CreateOffsets,
    CreateSlots,
    /// Giving the slots their size.
    Size,
    /// Naming the tuple with this index.
    Insert { index: usize },
    /// Handing on what is buffered.
    FlushTuples,
    FlushOffsets,
    FlushSlots,
    /// Giving the scratch directory up after a failure.
    Discard { failure: StoreFailure },
}

/// A move that is under way.
#[derive(Debug)]
pub struct Migrating<T> {
    pub disk: DiskStateStore,
    pub phase: MigratePhase,
    /// The tuple that is being named.
    pub insert: Option<Inserting<T>>,
}

/// The mathematical value of a move that is under way.
#[verifier::ext_equal]
pub struct MigrateM<M> {
    pub disk: DiskStateStore,
    pub phase: MigratePhase,
    pub insert: Option<InsertM<M>>,
}

/// What follows from an answer.
#[derive(Debug)]
pub enum Migrated<T> {
    More(Migrating<T>),
    /// Everything has moved.
    Done(DiskStateStore),
    Failed(StoreFailure),
}

/// The mathematical value of what follows.
pub enum MigratedM<M> {
    More(MigrateM<M>),
    Done(DiskStateStore),
    Failed(StoreFailure),
}

impl<T: StateTuple> Migrated<T> {
    pub open spec fn model(&self) -> MigratedM<T::M> {
        match *self {
            Migrated::More(m) => MigratedM::More(m.model()),
            Migrated::Done(d) => MigratedM::Done(d),
            Migrated::Failed(f) => MigratedM::Failed(f),
        }
    }
}

/// A table on scratch storage before anything is known of it.
pub open spec fn unknown_disk() -> DiskStateStore {
    DiskStateStore { slot_count: 0, slot_generation: 0, len: 0 }
}

/// Beginning to move.
pub open spec fn migrate_begin_model<M>() -> MigrateM<M> {
    MigrateM { disk: unknown_disk(), phase: MigratePhase::Scratch, insert: None }
}

impl<M> MigrateM<M> {
    /// The slots exist, and one of the `n` tuples is being named when it has to be.
    pub open spec fn within(self, n: int) -> bool {
        self.ready() && (self.phase matches MigratePhase::Insert { index } ==> index < n)
    }

    /// The slots exist, and a tuple is being named when it has to be.
    pub open spec fn ready(self) -> bool {
        match self.phase {
            MigratePhase::Size => self.disk.sized(),
            MigratePhase::Insert { index } => self.disk.sized() && (self.insert matches Some(i)
                && i.phase.within(self.disk)),
            MigratePhase::FlushTuples => self.disk.sized(),
            MigratePhase::FlushOffsets => self.disk.sized(),
            MigratePhase::FlushSlots => self.disk.sized(),
            _ => true,
        }
    }

    /// What is asked of storage.
    pub open spec fn action_model(self) -> ActionM {
        match self.phase {
            MigratePhase::Scratch => ActionM::CreateScratch,
            MigratePhase::CreateTuples => ActionM::Create { file: ScratchFile::Tuples },
            MigratePhase::CreateOffsets => ActionM::Create { file: ScratchFile::Offsets },
            MigratePhase::CreateSlots => ActionM::Create {
                file: ScratchFile::Slots { generation: 0 },
            },
            MigratePhase::Size => ActionM::SetLen {
                file: ScratchFile::Slots { generation: 0 },
                len: (self.disk.slot_count * 16) as u64,
            },
            MigratePhase::Insert { index } => self.insert->0.action_model(self.disk),
            MigratePhase::FlushTuples => ActionM::Flush { file: ScratchFile::Tuples },
            MigratePhase::FlushOffsets => ActionM::Flush { file: ScratchFile::Offsets },
            MigratePhase::FlushSlots => ActionM::Flush { file: self.disk.slots_file() },
            MigratePhase::Discard { failure } => ActionM::DiscardScratch,
        }
    }

    /// The move at another phase.
    pub open spec fn at(self, phase: MigratePhase) -> MigratedM<M> {
        MigratedM::More(MigrateM { phase, insert: None, ..self })
    }

    /// The move after a failure.
    pub open spec fn discarded(self, failure: StoreFailure) -> MigratedM<M> {
        self.at(MigratePhase::Discard { failure })
    }
}

/// Going on with the tuple at `index`, or to the end.
pub open spec fn migrate_on_model<T: StateTuple>(
    disk: DiskStateStore,
    tuples: Seq<T::M>,
    index: int,
) -> MigratedM<T::M> {
    if index < tuples.len() {
        MigratedM::More(
            MigrateM {
                disk,
                phase: MigratePhase::Insert { index: index as usize },
                insert: Some(insert_begin_model::<T>(disk, tuples[index])),
            },
        )
    } else {
        MigratedM::More(MigrateM { disk, phase: MigratePhase::FlushTuples, insert: None })
    }
}

/// What follows from an answer.
pub open spec fn migrate_next_model<T: StateTuple, C: StateCodec<T>>(
    m: MigrateM<T::M>,
    tuples: Seq<T::M>,
    e: EventM,
) -> MigratedM<T::M> {
    match m.phase {
        MigratePhase::Scratch => match answer_done(e, ScratchStep::CreatingScratch) {
            Err(f) => MigratedM::Failed(f),
            Ok(_) => m.at(MigratePhase::CreateTuples),
        },
        MigratePhase::CreateTuples => match answer_done(e, ScratchStep::CreatingFile) {
            Err(f) => m.discarded(f),
            Ok(_) => m.at(MigratePhase::CreateOffsets),
        },
        MigratePhase::CreateOffsets => match answer_done(e, ScratchStep::CreatingFile) {
            Err(f) => m.discarded(f),
            Ok(_) => m.at(MigratePhase::CreateSlots),
        },
        MigratePhase::CreateSlots => match answer_done(e, ScratchStep::CreatingFile) {
            Err(f) => m.discarded(f),
            Ok(_) => match initial_slots_model(tuples.len() as int) {
                Err(f) => m.discarded(f),
                Ok(slot_count) => if slot_count > MAX_SLOT_COUNT {
                    m.discarded(StoreFailure::PositionOverflow)
                } else {
                    MigratedM::More(
                        MigrateM {
                            disk: DiskStateStore { slot_count, slot_generation: 0, len: 0 },
                            phase: MigratePhase::Size,
                            insert: None,
                        },
                    )
                },
            },
        },
        MigratePhase::Size => match answer_done(e, ScratchStep::SizingSlots) {
            Err(f) => m.discarded(f),
            Ok(_) => migrate_on_model::<T>(m.disk, tuples, 0),
        },
        MigratePhase::Insert { index } => {
            let (disk, r) = insert_next_model::<T, C>(m.disk, m.insert->0, e);
            match r {
                InsertedM::Failed(f) => MigrateM { disk, ..m }.discarded(f),
                InsertedM::More(i) => MigratedM::More(
                    MigrateM { disk, phase: m.phase, insert: Some(i) },
                ),
                InsertedM::Done(actual) => match next_id_model(index as int) {
                    Err(f) => MigrateM { disk, ..m }.discarded(f),
                    Ok(expected) => if actual != expected {
                        MigrateM { disk, ..m }.discarded(
                            StoreFailure::SpillChangedId { expected, actual },
                        )
                    } else {
                        migrate_on_model::<T>(disk, tuples, index + 1)
                    },
                },
            }
        },
        MigratePhase::FlushTuples => match answer_done(e, ScratchStep::Flushing) {
            Err(f) => m.discarded(f),
            Ok(_) => m.at(MigratePhase::FlushOffsets),
        },
        MigratePhase::FlushOffsets => match answer_done(e, ScratchStep::Flushing) {
            Err(f) => m.discarded(f),
            Ok(_) => m.at(MigratePhase::FlushSlots),
        },
        MigratePhase::FlushSlots => match answer_done(e, ScratchStep::Flushing) {
            Err(f) => m.discarded(f),
            Ok(_) => MigratedM::Done(m.disk),
        },
        MigratePhase::Discard { failure } => MigratedM::Failed(failure),
    }
}

impl<T: StateTuple> Migrating<T> {
    pub open spec fn model(&self) -> MigrateM<T::M> {
        MigrateM {
            disk: self.disk,
            phase: self.phase,
            insert: match self.insert {
                Some(i) => Some(i.model()),
                None => None,
            },
        }
    }

    /// Begins to move.
    pub fn begin() -> (r: Self)
        ensures
            r.model() == migrate_begin_model::<T::M>(),
    {
        Migrating {
            disk: DiskStateStore { slot_count: 0, slot_generation: 0, len: 0 },
            phase: MigratePhase::Scratch,
            insert: None,
        }
    }

    /// What is asked of storage.
    pub fn action(&self) -> (r: Action)
        requires
            self.model().ready(),
        ensures
            r.model() == self.model().action_model(),
    {
        match self.phase {
            MigratePhase::Scratch => Action::CreateScratch,
            MigratePhase::CreateTuples => Action::Create { file: ScratchFile::Tuples },
            MigratePhase::CreateOffsets => Action::Create { file: ScratchFile::Offsets },
            MigratePhase::CreateSlots => Action::Create {
                file: ScratchFile::Slots { generation: 0 },
            },
            MigratePhase::Size => Action::SetLen {
                file: ScratchFile::Slots { generation: 0 },
                len: self.disk.slot_count * 16,
            },
            MigratePhase::Insert { index } => match &self.insert {
                Some(i) => i.action(&self.disk),
                None => Action::DiscardScratch,
            },
            MigratePhase::FlushTuples => Action::Flush { file: ScratchFile::Tuples },
            MigratePhase::FlushOffsets => Action::Flush { file: ScratchFile::Offsets },
            MigratePhase::FlushSlots => Action::Flush {
                file: ScratchFile::Slots { generation: self.disk.slot_generation },
            },
            MigratePhase::Discard { failure } => Action::DiscardScratch,
        }
    }

    fn at(disk: DiskStateStore, phase: MigratePhase) -> (r: Migrated<T>)
        ensures
            r.model() == MigratedM::<T::M>::More(MigrateM { disk, phase, insert: None }),
    {
        Migrated::More(Migrating { disk, phase, insert: None })
    }

    fn go_on(disk: DiskStateStore, memory: &MemoryStateStore<T>, index: usize) -> (r: Migrated<T>)
        requires
            disk.sized(),
            index <= memory.tuples().len(),
        ensures
            r.model() == migrate_on_model::<T>(disk, memory.tuples(), index as int),
            r matches Migrated::More(m) ==> m.model().within(memory.tuples().len() as int),
    {
        if index < memory.len() {
            let tuple: T = memory.copy_at(index);
            Migrated::More(
                Migrating {
                    disk,
                    phase: MigratePhase::Insert { index },
                    insert: Some(Inserting::begin(&disk, tuple)),
                },
            )
        } else {
            Self::at(disk, MigratePhase::FlushTuples)
        }
    }

    /// Takes an answer in.
    pub fn next<C: StateCodec<T>>(self, memory: &MemoryStateStore<T>, e: &Event) -> (r: Migrated<T>)
        requires
            self.model().within(memory.tuples().len() as int),
        ensures
            r.model() == migrate_next_model::<T, C>(self.model(), memory.tuples(), e.model()),
            r matches Migrated::More(m) ==> m.model().within(memory.tuples().len() as int),
            r matches Migrated::Done(d) ==> d.sized(),
    {
        let mut disk: DiskStateStore = self.disk;
        match self.phase {
            MigratePhase::Scratch => match take_done(e, ScratchStep::CreatingScratch) {
                Err(f) => Migrated::Failed(f),
                Ok(_) => Self::at(disk, MigratePhase::CreateTuples),
            },
            MigratePhase::CreateTuples => match take_done(e, ScratchStep::CreatingFile) {
                Err(f) => Self::at(disk, MigratePhase::Discard { failure: f }),
                Ok(_) => Self::at(disk, MigratePhase::CreateOffsets),
            },
            MigratePhase::CreateOffsets => match take_done(e, ScratchStep::CreatingFile) {
                Err(f) => Self::at(disk, MigratePhase::Discard { failure: f }),
                Ok(_) => Self::at(disk, MigratePhase::CreateSlots),
            },
            MigratePhase::CreateSlots => match take_done(e, ScratchStep::CreatingFile) {
                Err(f) => Self::at(disk, MigratePhase::Discard { failure: f }),
                Ok(_) => match initial_slot_count(memory.len()) {
                    Err(f) => Self::at(disk, MigratePhase::Discard { failure: f }),
                    Ok(slot_count) => {
                        if slot_count > MAX_SLOT_COUNT {
                            return Self::at(
                                disk,
                                MigratePhase::Discard { failure: StoreFailure::PositionOverflow },
                            );
                        }
                        Self::at(
                            DiskStateStore { slot_count, slot_generation: 0, len: 0 },
                            MigratePhase::Size,
                        )
                    },
                },
            },
            MigratePhase::Size => match take_done(e, ScratchStep::SizingSlots) {
                Err(f) => Self::at(disk, MigratePhase::Discard { failure: f }),
                Ok(_) => Self::go_on(disk, memory, 0),
            },
            MigratePhase::Insert { index } => match self.insert {
                None => Migrated::Failed(StoreFailure::UnexpectedAnswer),
                Some(i) => match i.next::<C>(&mut disk, e) {
                    Inserted::Failed(f) => Self::at(disk, MigratePhase::Discard { failure: f }),
                    Inserted::More(i) => Migrated::More(
                        Migrating { disk, phase: self.phase, insert: Some(i) },
                    ),
                    Inserted::Done(actual) => match state_id_for_len(index as u64) {
                        Err(f) => Self::at(disk, MigratePhase::Discard { failure: f }),
                        Ok(expected) => {
                            if actual != expected {
                                return Self::at(
                                    disk,
                                    MigratePhase::Discard {
                                        failure: StoreFailure::SpillChangedId {
                                            expected,
                                            actual,
                                        },
                                    },
                                );
                            }
                            Self::go_on(disk, memory, index + 1)
                        },
                    },
                },
            },
            MigratePhase::FlushTuples => match take_done(e, ScratchStep::Flushing) {
                Err(f) => Self::at(disk, MigratePhase::Discard { failure: f }),
                Ok(_) => Self::at(disk, MigratePhase::FlushOffsets),
            },
            MigratePhase::FlushOffsets => match take_done(e, ScratchStep::Flushing) {
                Err(f) => Self::at(disk, MigratePhase::Discard { failure: f }),
                Ok(_) => Self::at(disk, MigratePhase::FlushSlots),
            },
            MigratePhase::FlushSlots => match take_done(e, ScratchStep::Flushing) {
                Err(f) => Self::at(disk, MigratePhase::Discard { failure: f }),
                Ok(_) => Migrated::Done(disk),
            },
            MigratePhase::Discard { failure } => Migrated::Failed(failure),
        }
    }
}

} // verus!
