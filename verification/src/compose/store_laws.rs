//! What a store does as a whole.

use crate::compose::accounting::{
    initial_slots_model, law_initial_slots_suffice, lemma_doubled_below, lemma_doubled_power,
    required_slots, INITIAL_SLOT_COUNT, MAX_LOAD_DENOMINATOR, MAX_LOAD_NUMERATOR,
};
use crate::compose::compose_state_store::{
    intern_model, resolve_model, resume_model, BackingM, PendingM, ReplyM, StoreM,
};
use crate::compose::disk_laws::{
    able, can_name, disk_holds, encodable, encodings_fit, file_slots, inserting_rank,
    inserting_sound, inserting_stage, lemma_growing, lemma_inserting, lemma_look_begin,
    lemma_looking, lemma_resolving, lemma_retire, resolving_rank, resolving_sound, tuples_file,
    with_tuple,
};
use crate::compose::disk_store::{
    insert_begin_model, insert_next_model, DiskStateStore, InsertM, InsertPhase, InsertedM,
    Resolved, Resolving,
};
use crate::compose::failure::{StoreError, StoreFailure};
use crate::compose::migration::{
    migrate_begin_model, migrate_next_model, migrate_on_model, MigrateM, MigratePhase, MigratedM,
};
use crate::compose::scratch::{
    lemma_number_bytes, lemma_slots_free, resized, Disk, EventM, ScratchFile, Slot,
};
use crate::compose::tuple::{codec_exact, StateCodec, StateTuple};
use crate::fst::tr::{StateId, NO_STATE_ID};
use vstd::prelude::*;

verus! {

/// How many bytes a tuple takes on scratch storage.
pub open spec fn record_len<T: StateTuple, C: StateCodec<T>>(tuple: T::M) -> int {
    8 + C::encode_model(tuple)->Ok_0.len() as int
}

/// How many bytes the tuples take on scratch storage.
pub open spec fn records_len<T: StateTuple, C: StateCodec<T>>(tuples: Seq<T::M>) -> int
    decreases tuples.len(),
{
    if tuples.len() == 0 {
        0
    } else {
        record_len::<T, C>(tuples[0]) + records_len::<T, C>(tuples.drop_first())
    }
}

/// How many bytes the tuples take once the one that is being named is written, if it
/// has to be.
spec fn bytes_ahead<T: StateTuple, C: StateCodec<T>>(
    disk: Disk,
    tuples: Seq<T::M>,
    i: InsertM<T::M>,
) -> int {
    tuples_file(disk).len() + (if i.phase is Slot || tuples.contains(i.tuple) {
        0
    } else {
        record_len::<T, C>(i.tuple)
    })
}

/// Naming a tuple writes the tuple once at most.
proof fn lemma_bytes_ahead<T: StateTuple, C: StateCodec<T>>(
    d: DiskStateStore,
    disk: Disk,
    tuples: Seq<T::M>,
    i: InsertM<T::M>,
)
    requires
        codec_exact::<T, C>(),
        inserting_sound::<T, C>(d, disk, tuples, i),
        able::<T, C>(disk, tuples, i),
        encodable::<T, C>(i.tuple),
    ensures
        ({
            let (after, e) = disk.perform(i.action_model(d));
            let (d1, r) = insert_next_model::<T, C>(d, i, e);
            match r {
                InsertedM::Failed(f) => true,
                InsertedM::More(next) => bytes_ahead::<T, C>(after, tuples, next)
                    <= bytes_ahead::<T, C>(disk, tuples, i),
                InsertedM::Done(id) => tuples_file(after).len() <= bytes_ahead::<T, C>(
                    disk,
                    tuples,
                    i,
                ),
            }
        }),
{
    lemma_inserting::<T, C>(d, disk, tuples, i);
    let enc = C::encode_model(i.tuple)->Ok_0;
    lemma_number_bytes(enc.len() as u64);
    match i.phase {
        InsertPhase::Look { again, looking } => {
            lemma_looking::<T, C>(d, disk, tuples, i.tuple, looking);
        },
        InsertPhase::Grow(growing) => {
            lemma_growing::<T, C>(d, disk, tuples, growing);
        },
        InsertPhase::Retire => {
            lemma_retire::<T, C>(d, disk, tuples);
        },
        _ => {},
    }
}

/// The first slots of a table for `n` tuples.
pub open spec fn first_disk(n: int) -> DiskStateStore {
    DiskStateStore {
        slot_count: initial_slots_model(n)->Ok_0,
        slot_generation: 0,
        len: 0,
    }
}

/// A table for so many tuples can be set up.
proof fn lemma_first_disk(n: int)
    requires
        0 <= n <= NO_STATE_ID,
    ensures
        initial_slots_model(n) is Ok,
        first_disk(n).sized(),
        first_disk(n).slot_count >= INITIAL_SLOT_COUNT,
        n * MAX_LOAD_DENOMINATOR <= first_disk(n).slot_count * MAX_LOAD_NUMERATOR,
{
    lemma_doubled_below(
        required_slots(n),
        INITIAL_SLOT_COUNT as int,
    );
    assert(16u64 & 15u64 == 0) by (bit_vector);
    lemma_doubled_power(required_slots(n), INITIAL_SLOT_COUNT);
}

/// The files are there, and they are empty.
spec fn empty_files(disk: Disk, tuples: bool, offsets: bool, slots: bool) -> bool {
    &&& disk.files.contains_key(ScratchFile::Tuples) == tuples
    &&& disk.files.contains_key(ScratchFile::Offsets) == offsets
    &&& disk.files.contains_key(ScratchFile::Slots { generation: 0 }) == slots
    &&& forall|g: u64|
        g > 0 ==> !(#[trigger] disk.files.contains_key(ScratchFile::Slots { generation: g }))
    &&& forall|file: ScratchFile| #[trigger]
        disk.files.contains_key(file) ==> disk.files[file] == Seq::<u8>::empty()
}

/// The move is on its way.
spec fn migrating_holds<T: StateTuple, C: StateCodec<T>>(
    m: MigrateM<T::M>,
    disk: Disk,
    tuples: Seq<T::M>,
) -> bool {
    let n = tuples.len() as int;
    match m.phase {
        MigratePhase::Scratch => true,
        MigratePhase::CreateTuples => empty_files(disk, false, false, false),
        MigratePhase::CreateOffsets => empty_files(disk, true, false, false),
        MigratePhase::CreateSlots => empty_files(disk, true, true, false),
        MigratePhase::Size => empty_files(disk, true, true, true) && m.disk == first_disk(n),
        MigratePhase::Insert { index } => {
            &&& index < n
            &&& m.insert is Some
            &&& (m.insert->0).tuple == tuples[index as int]
            &&& !((m.insert->0).phase is Grow)
            &&& inserting_sound::<T, C>(m.disk, disk, tuples.take(index as int), m.insert->0)
            &&& m.disk.slot_count == first_disk(n).slot_count
            &&& m.disk.slot_generation == 0
        },
        MigratePhase::Discard { failure } => true,
        _ => {
            &&& disk_holds::<T, C>(m.disk, disk, tuples)
            &&& m.disk.slot_count == first_disk(n).slot_count
            &&& m.disk.slot_generation == 0
        },
    }
}

/// The move is on its way, nothing stands in the way of it, and no more than `limit`
/// bytes of tuples will be written.
spec fn migrating_sound<T: StateTuple, C: StateCodec<T>>(
    m: MigrateM<T::M>,
    disk: Disk,
    tuples: Seq<T::M>,
    limit: int,
) -> bool {
    &&& migrating_holds::<T, C>(m, disk, tuples)
    &&& match m.phase {
        MigratePhase::Insert { index } => {
            &&& able::<T, C>(disk, tuples.take(index as int), m.insert->0)
            &&& bytes_ahead::<T, C>(disk, tuples.take(index as int), m.insert->0)
                + records_len::<T, C>(tuples.skip(index + 1)) <= limit
        },
        MigratePhase::Discard { failure } => false,
        MigratePhase::FlushTuples => tuples_file(disk).len() <= limit,
        MigratePhase::FlushOffsets => tuples_file(disk).len() <= limit,
        MigratePhase::FlushSlots => tuples_file(disk).len() <= limit,
        _ => records_len::<T, C>(tuples) <= limit,
    }
}

/// How many phases follow.
spec fn migrating_stage(phase: MigratePhase, n: int) -> int {
    match phase {
        MigratePhase::Scratch => n + 9,
        MigratePhase::CreateTuples => n + 8,
        MigratePhase::CreateOffsets => n + 7,
        MigratePhase::CreateSlots => n + 6,
        MigratePhase::Size => n + 5,
        MigratePhase::Insert { index } => n - index + 4,
        MigratePhase::FlushTuples => 3,
        MigratePhase::FlushOffsets => 2,
        MigratePhase::FlushSlots => 1,
        MigratePhase::Discard { failure } => 0,
    }
}

spec fn migrating_substage<M>(m: MigrateM<M>) -> int {
    match m.phase {
        MigratePhase::Insert { index } => inserting_stage((m.insert->0).phase),
        _ => 0,
    }
}

spec fn migrating_rank<M>(m: MigrateM<M>) -> int {
    match m.phase {
        MigratePhase::Insert { index } => inserting_rank(m.disk, (m.insert->0).phase),
        _ => 0,
    }
}

/// Going on with the next tuple keeps the move sound.
proof fn lemma_migrate_on<T: StateTuple, C: StateCodec<T>>(
    d: DiskStateStore,
    disk: Disk,
    tuples: Seq<T::M>,
    index: int,
    limit: int,
)
    requires
        0 <= index <= tuples.len(),
        tuples.len() <= NO_STATE_ID,
        tuples.no_duplicates(),
        forall|i: int| 0 <= i < tuples.len() ==> encodable::<T, C>(#[trigger] tuples[i]),
        disk_holds::<T, C>(d, disk, tuples.take(index)),
        d.slot_count == first_disk(tuples.len() as int).slot_count,
        d.slot_generation == 0,
        tuples_file(disk).len() + records_len::<T, C>(tuples.skip(index)) <= limit,
        limit <= u64::MAX,
    ensures
        migrate_on_model::<T>(d, tuples, index) matches MigratedM::More(m) && migrating_sound::<
            T,
            C,
        >(m, disk, tuples, limit) && migrating_stage(m.phase, tuples.len() as int)
            <= tuples.len() - index + 4 && (index == tuples.len() ==> migrating_stage(
            m.phase,
            tuples.len() as int,
        ) == 3),
{
    if index < tuples.len() {
        let rest = tuples.skip(index);
        assert(rest.drop_first() =~= tuples.skip(index + 1));
        assert(rest[0] == tuples[index]);
        lemma_look_begin::<T, C>(d, disk, tuples.take(index), tuples[index]);
        assert(encodable::<T, C>(tuples[index]));
        assert(records_len::<T, C>(tuples.skip(index + 1)) >= 0) by {
            lemma_records_len::<T, C>(tuples.skip(index + 1));
        }
        assert(tuples.take(index).len() < NO_STATE_ID);
    } else {
        assert(tuples.take(index) =~= tuples);
        assert(tuples.skip(index).len() == 0);
    }
}

proof fn lemma_records_len<T: StateTuple, C: StateCodec<T>>(tuples: Seq<T::M>)
    ensures
        records_len::<T, C>(tuples) >= 0,
    decreases tuples.len(),
{
    if tuples.len() > 0 {
        lemma_records_len::<T, C>(tuples.drop_first());
    }
}

/// An empty table is sound.
proof fn lemma_empty_disk<T: StateTuple, C: StateCodec<T>>(d: DiskStateStore, disk: Disk, n: int)
    requires
        0 <= n <= NO_STATE_ID,
        d == first_disk(n),
        empty_files(disk, true, true, true),
    ensures
        ({
            let file = ScratchFile::Slots { generation: 0 };
            let after = disk.with(file, resized(Seq::empty(), 16 * d.slot_count));
            disk_holds::<T, C>(d, after, Seq::empty()) && tuples_file(after).len() == 0
        }),
{
    lemma_first_disk(n);
    let file = ScratchFile::Slots { generation: 0 };
    let after = disk.with(file, resized(Seq::empty(), 16 * d.slot_count));
    lemma_slots_free(d.slot_count as int);
    assert(disk.files[ScratchFile::Tuples] == Seq::<u8>::empty());
    assert(disk.files[ScratchFile::Offsets] == Seq::<u8>::empty());
    assert(after.files[file] == resized(Seq::empty(), 16 * d.slot_count));
    assert(!after.files.contains_key(d.next_slots_file()));
    let slots = file_slots(after, d.slots_file(), d.slot_count as int);
    assert(forall|p: int| 0 <= p < slots.len() ==> (#[trigger] slots[p]).id_plus_one == 0);
}

/// Going on with the next tuple, whether or not it can be named.
proof fn lemma_migrate_on_holds<T: StateTuple, C: StateCodec<T>>(
    d: DiskStateStore,
    disk: Disk,
    tuples: Seq<T::M>,
    index: int,
)
    requires
        0 <= index <= tuples.len(),
        tuples.len() <= NO_STATE_ID,
        disk_holds::<T, C>(d, disk, tuples.take(index)),
        d.slot_count == first_disk(tuples.len() as int).slot_count,
        d.slot_generation == 0,
    ensures
        migrate_on_model::<T>(d, tuples, index) matches MigratedM::More(m) && migrating_holds::<
            T,
            C,
        >(m, disk, tuples),
{
    if index < tuples.len() {
        lemma_look_begin::<T, C>(d, disk, tuples.take(index), tuples[index]);
    } else {
        assert(tuples.take(index) =~= tuples);
    }
}

/// Storage that works gets everything moved, unless something stands in the way.
#[verifier::rlimit(40)]
proof fn lemma_migrating_holds<T: StateTuple, C: StateCodec<T>>(
    m: MigrateM<T::M>,
    disk: Disk,
    tuples: Seq<T::M>,
)
    requires
        codec_exact::<T, C>(),
        tuples.len() <= NO_STATE_ID,
        tuples.no_duplicates(),
        migrating_holds::<T, C>(m, disk, tuples),
        m.phase matches MigratePhase::Insert { index } ==> able::<T, C>(
            disk,
            tuples.take(index as int),
            m.insert->0,
        ) || encodings_fit::<T, C>(),
    ensures
        ({
            let (after, e) = disk.perform(m.action_model());
            match migrate_next_model::<T, C>(m, tuples, e) {
                MigratedM::Failed(f) => m.phase is Discard,
                MigratedM::More(next) => migrating_holds::<T, C>(next, after, tuples),
                MigratedM::Done(d) => {
                    &&& disk_holds::<T, C>(d, after, tuples)
                    &&& d.slot_count == first_disk(tuples.len() as int).slot_count
                    &&& d.slot_generation == 0
                },
            }
        }),
{
    let n = tuples.len() as int;
    lemma_first_disk(n);
    let (after, e) = disk.perform(m.action_model());
    match m.phase {
        MigratePhase::Size => {
            lemma_empty_disk::<T, C>(m.disk, disk, n);
            assert(m.disk.slot_count * 16 == 16 * m.disk.slot_count);
            assert(tuples.take(0) =~= Seq::empty());
            assert(disk.files[ScratchFile::Slots { generation: 0 }] == Seq::<u8>::empty());
            lemma_migrate_on_holds::<T, C>(m.disk, after, tuples, 0);
        },
        MigratePhase::Insert { index } => {
            let i = m.insert->0;
            let before = tuples.take(index as int);
            lemma_inserting::<T, C>(m.disk, disk, before, i);
            assert(!before.contains(i.tuple)) by {
                if before.contains(i.tuple) {
                    let w = choose|w: int| 0 <= w < before.len() && before[w] == i.tuple;
                    assert(tuples[w] == tuples[index as int]);
                }
            }
            law_initial_slots_suffice(n, index as int);
            let (d1, r) = insert_next_model::<T, C>(m.disk, i, e);
            match r {
                InsertedM::Done(actual) => {
                    let named = before.push(i.tuple);
                    assert(named =~= tuples.take(index + 1));
                    assert(actual == index) by {
                        if actual < index {
                            assert(named[actual as int] == before[actual as int]);
                        }
                    }
                    lemma_migrate_on_holds::<T, C>(d1, after, tuples, index + 1);
                },
                _ => {},
            }
        },
        _ => {},
    }
}

/// Storage that works gets everything moved, sooner or later.
#[verifier::rlimit(40)]
proof fn lemma_migrating<T: StateTuple, C: StateCodec<T>>(
    m: MigrateM<T::M>,
    disk: Disk,
    tuples: Seq<T::M>,
    limit: int,
)
    requires
        codec_exact::<T, C>(),
        tuples.len() <= NO_STATE_ID,
        tuples.no_duplicates(),
        forall|i: int| 0 <= i < tuples.len() ==> encodable::<T, C>(#[trigger] tuples[i]),
        limit <= u64::MAX,
        migrating_sound::<T, C>(m, disk, tuples, limit),
    ensures
        ({
            let n = tuples.len() as int;
            let (after, e) = disk.perform(m.action_model());
            match migrate_next_model::<T, C>(m, tuples, e) {
                MigratedM::Failed(f) => false,
                MigratedM::More(next) => {
                    &&& migrating_sound::<T, C>(next, after, tuples, limit)
                    &&& migrating_stage(next.phase, n) >= 0
                    &&& migrating_stage(next.phase, n) < migrating_stage(m.phase, n) || (
                    migrating_stage(next.phase, n) == migrating_stage(m.phase, n) && (
                    migrating_substage(next) < migrating_substage(m) || (migrating_substage(next)
                        == migrating_substage(m) && migrating_rank(next) < migrating_rank(m))))
                },
                MigratedM::Done(d) => {
                    &&& disk_holds::<T, C>(d, after, tuples)
                    &&& d.slot_count == first_disk(n).slot_count
                    &&& d.slot_generation == 0
                    &&& tuples_file(after).len() <= limit
                },
            }
        }),
{
    let n = tuples.len() as int;
    lemma_first_disk(n);
    lemma_migrating_holds::<T, C>(m, disk, tuples);
    let (after, e) = disk.perform(m.action_model());
    match m.phase {
        MigratePhase::Size => {
            lemma_empty_disk::<T, C>(m.disk, disk, n);
            assert(m.disk.slot_count * 16 == 16 * m.disk.slot_count);
            assert(tuples.take(0) =~= Seq::empty());
            assert(tuples.skip(0) =~= tuples);
            assert(disk.files[ScratchFile::Slots { generation: 0 }] == Seq::<u8>::empty());
            lemma_migrate_on::<T, C>(m.disk, after, tuples, 0, limit);
        },
        MigratePhase::Insert { index } => {
            let i = m.insert->0;
            let before = tuples.take(index as int);
            assert(encodable::<T, C>(tuples[index as int]));
            lemma_inserting::<T, C>(m.disk, disk, before, i);
            lemma_bytes_ahead::<T, C>(m.disk, disk, before, i);
            assert(!before.contains(i.tuple)) by {
                if before.contains(i.tuple) {
                    let w = choose|w: int| 0 <= w < before.len() && before[w] == i.tuple;
                    assert(tuples[w] == tuples[index as int]);
                }
            }
            law_initial_slots_suffice(n, index as int);
            let (d1, r) = insert_next_model::<T, C>(m.disk, i, e);
            match r {
                InsertedM::Done(actual) => {
                    let named = before.push(i.tuple);
                    assert(named =~= tuples.take(index + 1));
                    assert(actual == index) by {
                        if actual < index {
                            assert(named[actual as int] == before[actual as int]);
                        }
                    }
                    lemma_migrate_on::<T, C>(d1, after, tuples, index + 1, limit);
                },
                _ => {},
            }
        },
        _ => {},
    }
}

/// Handing up to `n` answers of storage that works to a store.
pub open spec fn drive_store<T: StateTuple, C: StateCodec<T>>(
    s: StoreM<T::M>,
    disk: Disk,
    r: ReplyM<T::M>,
    n: nat,
) -> (StoreM<T::M>, Disk, ReplyM<T::M>)
    decreases n,
{
    match r {
        ReplyM::Ask(action) => if n == 0 {
            (s, disk, r)
        } else {
            let (after, e) = disk.perform(action);
            let (s1, r1) = resume_model::<T, C>(s, e);
            drive_store::<T, C>(s1, after, r1, (n - 1) as nat)
        },
        _ => (s, disk, r),
    }
}

/// The store holds the tuples, in the order of their ids, and waits for nothing.
pub open spec fn store_holds<T: StateTuple, C: StateCodec<T>>(
    s: StoreM<T::M>,
    disk: Disk,
    tuples: Seq<T::M>,
) -> bool {
    &&& s.poisoned is None
    &&& s.pending is Idle
    &&& tuples.no_duplicates()
    &&& tuples.len() <= NO_STATE_ID
    &&& s.last_resolved matches Some(last) ==> last.0 < tuples.len() && tuples[last.0 as int]
        == last.1
    &&& match s.backing {
        BackingM::Memory(resident) => resident == tuples,
        BackingM::Disk(d) => disk_holds::<T, C>(d, disk, tuples),
    }
}

proof fn lemma_drive_on_disk<T: StateTuple, C: StateCodec<T>>(
    s: StoreM<T::M>,
    disk: Disk,
    tuples: Seq<T::M>,
    i: InsertM<T::M>,
) -> (n: nat)
    requires
        codec_exact::<T, C>(),
        s.poisoned is None,
        s.pending == PendingM::Insert(i),
        s.backing is Disk,
        inserting_sound::<T, C>(s.backing->Disk_0, disk, tuples, i),
        able::<T, C>(disk, tuples, i),
        s.last_resolved matches Some(last) ==> last.0 < tuples.len() && tuples[last.0 as int]
            == last.1,
    ensures
        ({
            let (s1, after, r) = drive_store::<T, C>(
                s,
                disk,
                ReplyM::Ask(i.action_model(s.backing->Disk_0)),
                n,
            );
            let named = with_tuple(tuples, i.tuple);
            r matches ReplyM::State(id) && store_holds::<T, C>(s1, after, named) && id
                < named.len() && named[id as int] == i.tuple && s1.backing is Disk && (encodable::<
                T,
                C,
            >(i.tuple) ==> tuples_file(after).len() <= bytes_ahead::<T, C>(disk, tuples, i))
        }),
    decreases inserting_stage(i.phase), inserting_rank(s.backing->Disk_0, i.phase),
{
    let d = s.backing->Disk_0;
    lemma_inserting::<T, C>(d, disk, tuples, i);
    if encodable::<T, C>(i.tuple) {
        lemma_bytes_ahead::<T, C>(d, disk, tuples, i);
    }
    let action = i.action_model(d);
    let (after, e) = disk.perform(action);
    let (d1, r) = insert_next_model::<T, C>(d, i, e);
    let (s1, reply) = resume_model::<T, C>(s, e);
    match r {
        InsertedM::More(next) => {
            let m = lemma_drive_on_disk::<T, C>(s1, after, tuples, next);
            assert(drive_store::<T, C>(s, disk, ReplyM::Ask(action), m + 1) == drive_store::<T, C>(
                s1,
                after,
                reply,
                m,
            ));
            m + 1
        },
        _ => {
            assert(drive_store::<T, C>(s, disk, ReplyM::Ask(action), 1) == drive_store::<T, C>(
                s1,
                after,
                reply,
                0,
            ));
            1
        },
    }
}

proof fn lemma_drive_spill<T: StateTuple, C: StateCodec<T>>(
    s: StoreM<T::M>,
    disk: Disk,
    tuples: Seq<T::M>,
    tuple: T::M,
    m: MigrateM<T::M>,
    limit: int,
) -> (n: nat)
    requires
        codec_exact::<T, C>(),
        s.poisoned is None,
        s.pending == (PendingM::Spill { tuple, migrating: m }),
        s.backing == BackingM::Memory(tuples),
        tuples.len() < NO_STATE_ID,
        tuples.no_duplicates(),
        !tuples.contains(tuple),
        forall|i: int| 0 <= i < tuples.len() ==> encodable::<T, C>(#[trigger] tuples[i]),
        encodable::<T, C>(tuple),
        migrating_sound::<T, C>(m, disk, tuples, limit),
        limit + record_len::<T, C>(tuple) <= u64::MAX,
        s.last_resolved matches Some(last) ==> last.0 < tuples.len() && tuples[last.0 as int]
            == last.1,
    ensures
        ({
            let (s1, after, r) = drive_store::<T, C>(
                s,
                disk,
                ReplyM::Ask(m.action_model()),
                n,
            );
            let named = tuples.push(tuple);
            r == ReplyM::<T::M>::State(tuples.len() as StateId) && store_holds::<T, C>(
                s1,
                after,
                named,
            ) && s1.backing is Disk && tuples_file(after).len() <= limit + record_len::<T, C>(tuple)
        }),
    decreases
            migrating_stage(m.phase, tuples.len() as int),
            migrating_substage(m),
            migrating_rank(m),
{
    lemma_migrating::<T, C>(m, disk, tuples, limit);
    let action = m.action_model();
    let (after, e) = disk.perform(action);
    let (s1, reply) = resume_model::<T, C>(s, e);
    match migrate_next_model::<T, C>(m, tuples, e) {
        MigratedM::More(next) => {
            if m.phase is Insert {
                let index = m.phase->index;
                assert(encodable::<T, C>(tuples[index as int]));
                lemma_inserting::<T, C>(m.disk, disk, tuples.take(index as int), m.insert->0);
            }
            let k = lemma_drive_spill::<T, C>(s1, after, tuples, tuple, next, limit);
            assert(drive_store::<T, C>(s, disk, ReplyM::Ask(action), k + 1) == drive_store::<T, C>(
                s1,
                after,
                reply,
                k,
            ));
            k + 1
        },
        MigratedM::Done(d) => {
            lemma_look_begin::<T, C>(d, after, tuples, tuple);
            let i = insert_begin_model::<T>(d, tuple);
            assert(can_name::<T, C>(after, tuples, tuple));
            let k = lemma_drive_on_disk::<T, C>(s1, after, tuples, i);
            assert(drive_store::<T, C>(s, disk, ReplyM::Ask(action), k + 1) == drive_store::<T, C>(
                s1,
                after,
                reply,
                k,
            ));
            let (s2, after2, r) = drive_store::<T, C>(s1, after, reply, k);
            let named = tuples.push(tuple);
            assert(with_tuple(tuples, tuple) == named);
            assert(named[tuples.len() as int] == tuple);
            k + 1
        },
        MigratedM::Failed(f) => {
            assert(false);
            0
        },
    }
}

/// If naming a tuple on scratch storage that works ends with an id, it is the right one,
/// whether or not anything stood in the way.
proof fn lemma_named_on_disk<T: StateTuple, C: StateCodec<T>>(
    s: StoreM<T::M>,
    disk: Disk,
    tuples: Seq<T::M>,
    i: InsertM<T::M>,
    n: nat,
)
    requires
        codec_exact::<T, C>(),
        encodings_fit::<T, C>(),
        s.poisoned is None,
        s.pending == PendingM::Insert(i),
        s.backing is Disk,
        inserting_sound::<T, C>(s.backing->Disk_0, disk, tuples, i),
        s.last_resolved matches Some(last) ==> last.0 < tuples.len() && tuples[last.0 as int]
            == last.1,
    ensures
        ({
            let (s1, after, r) = drive_store::<T, C>(
                s,
                disk,
                ReplyM::Ask(i.action_model(s.backing->Disk_0)),
                n,
            );
            let named = with_tuple(tuples, i.tuple);
            !(r is Tuple) && (r matches ReplyM::State(id) ==> store_holds::<T, C>(s1, after, named)
                && id < named.len() && named[id as int] == i.tuple)
        }),
    decreases n,
{
    if n > 0 {
        let d = s.backing->Disk_0;
        lemma_inserting::<T, C>(d, disk, tuples, i);
        let (after, e) = disk.perform(i.action_model(d));
        let (d1, r) = insert_next_model::<T, C>(d, i, e);
        let (s1, reply) = resume_model::<T, C>(s, e);
        let rest = drive_store::<T, C>(s1, after, reply, (n - 1) as nat);
        match r {
            InsertedM::More(next) => {
                lemma_named_on_disk::<T, C>(s1, after, tuples, next, (n - 1) as nat);
            },
            _ => {
                assert(rest == (s1, after, reply));
            },
        }
        assert(drive_store::<T, C>(s, disk, ReplyM::Ask(i.action_model(d)), n) == rest);
    }
}

/// If naming a tuple that moves the others to scratch storage that works ends with an
/// id, it is the right one, whether or not anything stood in the way.
proof fn lemma_named_by_spill<T: StateTuple, C: StateCodec<T>>(
    s: StoreM<T::M>,
    disk: Disk,
    tuples: Seq<T::M>,
    tuple: T::M,
    m: MigrateM<T::M>,
    n: nat,
)
    requires
        codec_exact::<T, C>(),
        encodings_fit::<T, C>(),
        s.poisoned is None,
        s.pending == (PendingM::Spill { tuple, migrating: m }),
        s.backing == BackingM::Memory(tuples),
        tuples.len() <= NO_STATE_ID,
        tuples.no_duplicates(),
        !tuples.contains(tuple),
        migrating_holds::<T, C>(m, disk, tuples),
        s.last_resolved matches Some(last) ==> last.0 < tuples.len() && tuples[last.0 as int]
            == last.1,
    ensures
        ({
            let (s1, after, r) = drive_store::<T, C>(
                s,
                disk,
                ReplyM::Ask(m.action_model()),
                n,
            );
            let named = with_tuple(tuples, tuple);
            !(r is Tuple) && (r matches ReplyM::State(id) ==> store_holds::<T, C>(s1, after, named)
                && id < named.len() && named[id as int] == tuple)
        }),
    decreases n,
{
    if n > 0 {
        lemma_migrating_holds::<T, C>(m, disk, tuples);
        let (after, e) = disk.perform(m.action_model());
        let (s1, reply) = resume_model::<T, C>(s, e);
        let rest = drive_store::<T, C>(s1, after, reply, (n - 1) as nat);
        match migrate_next_model::<T, C>(m, tuples, e) {
            MigratedM::More(next) => {
                lemma_named_by_spill::<T, C>(s1, after, tuples, tuple, next, (n - 1) as nat);
            },
            MigratedM::Done(d) => {
                lemma_look_begin::<T, C>(d, after, tuples, tuple);
                let i = insert_begin_model::<T>(d, tuple);
                lemma_named_on_disk::<T, C>(s1, after, tuples, i, (n - 1) as nat);
            },
            MigratedM::Failed(f) => {
                assert(rest == (s1, after, reply));
            },
        }
        assert(drive_store::<T, C>(s, disk, ReplyM::Ask(m.action_model()), n) == rest);
    }
}

/// Whenever a store on storage that works answers a request for the id of a tuple with an
/// id, it is the one under which the tuple is known: the one it already had, or the next
/// one. All tuples keep their ids, whether or not they can be written down.
pub proof fn law_store_names_rightly<T: StateTuple, C: StateCodec<T>>(
    s: StoreM<T::M>,
    disk: Disk,
    tuples: Seq<T::M>,
    tuple: T::M,
    verdict: Result<bool, StoreFailure>,
    n: nat,
)
    requires
        codec_exact::<T, C>(),
        encodings_fit::<T, C>(),
        store_holds::<T, C>(s, disk, tuples),
    ensures
        ({
            let (s0, r0) = intern_model::<T>(s, tuple, verdict);
            let (s1, after, r) = drive_store::<T, C>(s0, disk, r0, n);
            let named = with_tuple(tuples, tuple);
            &&& !(r is Tuple)
            &&& r matches ReplyM::State(id) ==> {
                &&& id == named.index_of(tuple)
                &&& store_holds::<T, C>(s1, after, named)
            }
        }),
{
    let named = with_tuple(tuples, tuple);
    let (s0, r0) = intern_model::<T>(s, tuple, verdict);
    assert(named.no_duplicates()) by {
        if !tuples.contains(tuple) {
            assert forall|x: int, y: int|
                0 <= x < named.len() && 0 <= y < named.len() && x != y implies named[x]
                != named[y] by {
                if x == tuples.len() {
                    assert(tuples[y] != tuple);
                } else if y == tuples.len() {
                    assert(tuples[x] != tuple);
                }
            }
        }
    }
    assert(named.contains(tuple)) by {
        if !tuples.contains(tuple) {
            assert(named[tuples.len() as int] == tuple);
        }
    }
    let at = named.index_of(tuple);
    assert(named[at] == tuple);
    match s.backing {
        BackingM::Disk(d) => {
            lemma_look_begin::<T, C>(d, disk, tuples, tuple);
            let i = insert_begin_model::<T>(d, tuple);
            lemma_named_on_disk::<T, C>(s0, disk, tuples, i, n);
        },
        BackingM::Memory(resident) => {
            if !tuples.contains(tuple) && verdict == Ok::<bool, StoreFailure>(false) {
                lemma_named_by_spill::<T, C>(s0, disk, tuples, tuple, migrate_begin_model(), n);
            }
        },
    }
    let (s1, after, r) = drive_store::<T, C>(s0, disk, r0, n);
    if let ReplyM::State(id) = r {
        assert(named[id as int] == named[at]);
    }
}

/// The tuples take no more room on scratch storage than writing each down once.
pub open spec fn written_once<T: StateTuple, C: StateCodec<T>>(
    s: StoreM<T::M>,
    disk: Disk,
    tuples: Seq<T::M>,
) -> bool {
    s.backing is Disk ==> tuples_file(disk).len() <= records_len::<T, C>(tuples)
}

/// One more tuple takes its room.
pub proof fn lemma_records_push<T: StateTuple, C: StateCodec<T>>(tuples: Seq<T::M>, tuple: T::M)
    ensures
        records_len::<T, C>(tuples.push(tuple)) == records_len::<T, C>(tuples) + record_len::<T, C>(
            tuple,
        ),
    decreases tuples.len(),
{
    let more = tuples.push(tuple);
    if tuples.len() > 0 {
        assert(more[0] == tuples[0]);
        assert(more.drop_first() =~= tuples.drop_first().push(tuple));
        lemma_records_push::<T, C>(tuples.drop_first(), tuple);
    } else {
        assert(more[0] == tuple);
        assert(records_len::<T, C>(more.drop_first()) == 0);
    }
}

/// As long as storage works, asking for a tuple's id ends with the id under which
/// it is known: the one it already had, or the next one. All tuples keep their
/// ids, whether they stay in memory, move to scratch storage at that moment or
/// were there already. On scratch storage each tuple is written down once at most.
pub proof fn law_store_names_tuples<T: StateTuple, C: StateCodec<T>>(
    s: StoreM<T::M>,
    disk: Disk,
    tuples: Seq<T::M>,
    tuple: T::M,
    fits: bool,
) -> (n: nat)
    requires
        codec_exact::<T, C>(),
        store_holds::<T, C>(s, disk, tuples),
        s.backing is Disk ==> can_name::<T, C>(disk, tuples, tuple),
        s.backing is Memory && !tuples.contains(tuple) ==> tuples.len() < NO_STATE_ID,
        s.backing is Memory && !tuples.contains(tuple) && !fits ==> {
            &&& forall|i: int| 0 <= i < tuples.len() ==> encodable::<T, C>(#[trigger] tuples[i])
            &&& encodable::<T, C>(tuple)
            &&& records_len::<T, C>(tuples) + record_len::<T, C>(tuple) <= u64::MAX
        },
    ensures
        ({
            let (s0, r0) = intern_model::<T>(s, tuple, Ok(fits));
            let (s1, after, r) = drive_store::<T, C>(s0, disk, r0, n);
            let named = with_tuple(tuples, tuple);
            &&& r == ReplyM::<T::M>::State(named.index_of(tuple) as StateId)
            &&& store_holds::<T, C>(s1, after, named)
            &&& s1.backing is Disk <==> s.backing is Disk || (!tuples.contains(tuple) && !fits)
            &&& written_once::<T, C>(s, disk, tuples) && encodable::<T, C>(tuple)
                ==> written_once::<T, C>(s1, after, named)
        }),
{
    let named = with_tuple(tuples, tuple);
    let (s0, r0) = intern_model::<T>(s, tuple, Ok(fits));
    assert(named.no_duplicates()) by {
        if !tuples.contains(tuple) {
            assert forall|x: int, y: int|
                0 <= x < named.len() && 0 <= y < named.len() && x != y implies named[x]
                != named[y] by {
                if x == tuples.len() {
                    assert(tuples[y] != tuple);
                } else if y == tuples.len() {
                    assert(tuples[x] != tuple);
                }
            }
        }
    }
    assert(named.contains(tuple)) by {
        if !tuples.contains(tuple) {
            assert(named[tuples.len() as int] == tuple);
        }
    }
    let at = named.index_of(tuple);
    assert(named[at] == tuple);
    lemma_records_push::<T, C>(tuples, tuple);
    match s.backing {
        BackingM::Disk(d) => {
            lemma_look_begin::<T, C>(d, disk, tuples, tuple);
            let i = insert_begin_model::<T>(d, tuple);
            let n = lemma_drive_on_disk::<T, C>(s0, disk, tuples, i);
            let (s1, after, r) = drive_store::<T, C>(s0, disk, r0, n);
            assert(named[r->State_0 as int] == named[at]);
            n
        },
        BackingM::Memory(resident) => {
            if tuples.contains(tuple) {
                0
            } else if fits {
                assert(named[tuples.len() as int] == named[at]);
                0
            } else {
                let n = lemma_drive_spill::<T, C>(
                    s0,
                    disk,
                    tuples,
                    tuple,
                    migrate_begin_model(),
                    records_len::<T, C>(tuples),
                );
                assert(named[tuples.len() as int] == named[at]);
                n
            }
        },
    }
}

proof fn lemma_drive_store_resolve<T: StateTuple, C: StateCodec<T>>(
    s: StoreM<T::M>,
    disk: Disk,
    tuples: Seq<T::M>,
    state: StateId,
    resolving: Resolving,
) -> (n: nat)
    requires
        codec_exact::<T, C>(),
        s.poisoned is None,
        s.pending == (PendingM::<T::M>::Resolve { state, resolving }),
        s.backing is Disk,
        disk_holds::<T, C>(s.backing->Disk_0, disk, tuples),
        resolving_sound::<T, C>(disk, tuples, state as int, resolving),
    ensures
        ({
            let (s1, after, r) = drive_store::<T, C>(
                s,
                disk,
                ReplyM::Ask(resolving.action_model()),
                n,
            );
            &&& after == disk
            &&& r == ReplyM::Tuple(tuples[state as int])
            &&& store_holds::<T, C>(s1, disk, tuples)
            &&& s1.backing == s.backing
        }),
    decreases resolving_rank(resolving),
{
    lemma_resolving::<T, C>(disk, tuples, state as int, resolving);
    let action = resolving.action_model();
    let (after, e) = disk.perform(action);
    let (s1, reply) = resume_model::<T, C>(s, e);
    match resolving.next_model(e) {
        Resolved::More(next) => {
            let m = lemma_drive_store_resolve::<T, C>(s1, after, tuples, state, next);
            assert(drive_store::<T, C>(s, disk, ReplyM::Ask(action), m + 1) == drive_store::<T, C>(
                s1,
                after,
                reply,
                m,
            ));
            m + 1
        },
        _ => {
            assert(drive_store::<T, C>(s, disk, ReplyM::Ask(action), 1) == drive_store::<T, C>(
                s1,
                after,
                reply,
                0,
            ));
            1
        },
    }
}

/// As long as storage works, asking for the tuple of a state ends with the tuple
/// that was named under that id, wherever the tuples are, and changes nothing.
pub proof fn law_store_resolves_tuples<T: StateTuple, C: StateCodec<T>>(
    s: StoreM<T::M>,
    disk: Disk,
    tuples: Seq<T::M>,
    state: StateId,
) -> (n: nat)
    requires
        codec_exact::<T, C>(),
        store_holds::<T, C>(s, disk, tuples),
        state < tuples.len(),
    ensures
        ({
            let (s0, r0) = resolve_model::<T>(s, state);
            let (s1, after, r) = drive_store::<T, C>(s0, disk, r0, n);
            &&& after == disk
            &&& r == ReplyM::Tuple(tuples[state as int])
            &&& store_holds::<T, C>(s1, disk, tuples)
            &&& s1.backing == s.backing
        }),
{
    let (s0, r0) = resolve_model::<T>(s, state);
    if r0 is Ask {
        lemma_drive_store_resolve::<T, C>(
            s0,
            disk,
            tuples,
            state,
            Resolving::Offset { id: state },
        )
    } else {
        0
    }
}

/// A failure of scratch storage that the tuples are on makes the store unusable.
pub proof fn law_storage_failure_poisons<T: StateTuple, C: StateCodec<T>>(s: StoreM<T::M>)
    requires
        s.pending is Insert || s.pending is Resolve,
        s.fits(),
    ensures
        ({
            let (s1, r) = resume_model::<T, C>(s, EventM::Failed);
            &&& s1.poisoned is Some
            &&& r == ReplyM::<T::M>::Error(StoreError::Failed(s1.poisoned->0))
            &&& s1.poisoned->0 is ScratchIo
            &&& s1.pending is Idle
        }),
{
}

/// An unusable store answers every request with the same error and stays as it
/// is, so scratch storage is not touched again.
pub proof fn law_poisoned_store_is_not_reused<T: StateTuple>(
    s: StoreM<T::M>,
    tuple: T::M,
    state: StateId,
    verdict: Result<bool, StoreFailure>,
)
    requires
        s.poisoned is Some,
    ensures
        intern_model::<T>(s, tuple, verdict) == (
            s,
            ReplyM::<T::M>::Error(StoreError::Unusable(s.poisoned->0)),
        ),
        resolve_model::<T>(s, state) == (
            s,
            ReplyM::<T::M>::Error(StoreError::Unusable(s.poisoned->0)),
        ),
{
}

/// A move to scratch storage that fails leaves the tuples in memory and the store
/// usable.
pub proof fn law_failed_move_keeps_memory<T: StateTuple, C: StateCodec<T>>(
    s: StoreM<T::M>,
    e: EventM,
)
    requires
        s.pending is Spill,
        s.fits(),
        resume_model::<T, C>(s, e).1 is Error,
    ensures
        resume_model::<T, C>(s, e).0 == s.awaiting(PendingM::Idle),
{
}

/// Moving `n` tuples to scratch storage does not make the slot table larger on the
/// way: it has the size it began with.
pub proof fn law_move_does_not_rehash<T: StateTuple, C: StateCodec<T>>(
    m: MigrateM<T::M>,
    disk: Disk,
    tuples: Seq<T::M>,
    limit: int,
)
    requires
        codec_exact::<T, C>(),
        tuples.len() <= NO_STATE_ID,
        tuples.no_duplicates(),
        forall|i: int| 0 <= i < tuples.len() ==> encodable::<T, C>(#[trigger] tuples[i]),
        limit <= u64::MAX,
        move_under_way::<T, C>(m, disk, tuples, limit),
    ensures
        ({
            let (after, e) = disk.perform(m.action_model());
            match migrate_next_model::<T, C>(m, tuples, e) {
                MigratedM::Failed(f) => false,
                MigratedM::More(next) => move_under_way::<T, C>(next, after, tuples, limit),
                MigratedM::Done(d) => {
                    &&& d.slot_generation == 0
                    &&& initial_slots_model(tuples.len() as int) == Ok::<u64, StoreFailure>(
                        d.slot_count,
                    )
                },
            }
        }),
{
    lemma_first_disk(tuples.len() as int);
    lemma_migrating::<T, C>(m, disk, tuples, limit);
}

/// A move that has gone well so far.
pub closed spec fn move_under_way<T: StateTuple, C: StateCodec<T>>(
    m: MigrateM<T::M>,
    disk: Disk,
    tuples: Seq<T::M>,
    limit: int,
) -> bool {
    migrating_sound::<T, C>(m, disk, tuples, limit)
}

/// A move begins under way, if there is room for the tuples.
pub proof fn law_move_begins<T: StateTuple, C: StateCodec<T>>(
    disk: Disk,
    tuples: Seq<T::M>,
    limit: int,
)
    requires
        records_len::<T, C>(tuples) <= limit,
    ensures
        move_under_way::<T, C>(migrate_begin_model(), disk, tuples, limit),
{
}

} // verus!
