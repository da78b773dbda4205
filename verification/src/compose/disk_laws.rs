//! What a table on scratch storage does as long as storage works.

use crate::bytes::le_bytes;
use crate::compose::accounting::{
    lemma_double_power, needs_growth_model, MAX_LOAD_DENOMINATOR, MAX_LOAD_NUMERATOR,
};
use crate::compose::disk_store::{
    grow_begin_model, grow_on_model, insert_begin_model, insert_next_model, look_begin_model,
    look_on_model, record_bytes, resolve_begin_model, DiskStateStore, Grown, Growing, InsertM,
    InsertPhase, InsertedM, Looked, Looking, Resolved, Resolving, MAX_SLOT_COUNT,
};
use crate::compose::failure::StoreFailure;
use crate::compose::scratch::{
    lemma_number_bytes, lemma_slot_written, lemma_slots_free, number_of, overwritten, resized,
    slot_bytes, slot_of, slots_in, ActionM, Disk, EventM, ScratchFile, Slot,
};
use crate::compose::slots::{
    lemma_absent_after_free, lemma_free_slot, lemma_home_slot, lemma_insert_slot, lemma_probe_next,
    lemma_probe_reaches, next_slot, probe_slot, table_has, table_sound, taken_before,
};
use crate::compose::tuple::{codec_exact, StateCodec, StateTuple};
use crate::fst::tr::{StateId, NO_STATE_ID};
use vstd::multiset::Multiset;
use vstd::prelude::*;

verus! {

/// The hashes of the tuples.
pub open spec fn hashes_of<T: StateTuple>(tuples: Seq<T::M>) -> Seq<u64> {
    Seq::new(tuples.len(), |i: int| T::hash_model(tuples[i]))
}

/// The file with the tuples.
pub open spec fn tuples_file(disk: Disk) -> Seq<u8> {
    disk.files[ScratchFile::Tuples]
}

/// The file with the offsets.
pub open spec fn offsets_file(disk: Disk) -> Seq<u8> {
    disk.files[ScratchFile::Offsets]
}

/// Where the tuple of a state begins.
pub open spec fn offset_of(disk: Disk, id: int) -> int {
    number_of(offsets_file(disk).subrange(8 * id, 8 * id + 8)) as int
}

/// The tuple of the state can be read.
pub open spec fn record_there<T: StateTuple, C: StateCodec<T>>(
    disk: Disk,
    id: int,
    tuple: T::M,
) -> bool {
    let off = offset_of(disk, id);
    &&& C::encode_model(tuple) matches Ok(bytes)
    &&& bytes.len() <= usize::MAX
    &&& off + 8 + bytes.len() <= tuples_file(disk).len()
    &&& tuples_file(disk).subrange(off, off + 8 + bytes.len()) == record_bytes(bytes)
}

/// The tuples can be read, each under its id.
pub open spec fn records_hold<T: StateTuple, C: StateCodec<T>>(
    disk: Disk,
    tuples: Seq<T::M>,
) -> bool {
    &&& disk.files.contains_key(ScratchFile::Tuples)
    &&& disk.files.contains_key(ScratchFile::Offsets)
    &&& tuples_file(disk).len() <= u64::MAX
    &&& offsets_file(disk).len() >= 8 * tuples.len()
    &&& forall|id: int|
        0 <= id < tuples.len() ==> #[trigger] record_there::<T, C>(disk, id, tuples[id])
}

/// The slots in a file.
pub open spec fn file_slots(disk: Disk, file: ScratchFile, count: int) -> Seq<Slot> {
    slots_in(disk.files[file], count)
}

/// A file holds a sound table of that many slots.
pub open spec fn slots_hold<T: StateTuple>(
    disk: Disk,
    file: ScratchFile,
    count: u64,
    tuples: Seq<T::M>,
) -> bool {
    &&& disk.files.contains_key(file)
    &&& disk.files[file].len() == 16 * count
    &&& table_sound(file_slots(disk, file, count as int), hashes_of::<T>(tuples))
}

/// The table holds the tuples; a larger slot file may be in the making.
pub open spec fn disk_core<T: StateTuple, C: StateCodec<T>>(
    d: DiskStateStore,
    disk: Disk,
    tuples: Seq<T::M>,
) -> bool {
    &&& d.sized()
    &&& d.slot_generation <= d.slot_count
    &&& d.len == tuples.len()
    &&& tuples.len() <= NO_STATE_ID
    &&& tuples.len() * MAX_LOAD_DENOMINATOR <= d.slot_count * MAX_LOAD_NUMERATOR
    &&& tuples.no_duplicates()
    &&& records_hold::<T, C>(disk, tuples)
    &&& slots_hold::<T>(disk, d.slots_file(), d.slot_count, tuples)
    &&& forall|id: int|
        0 <= id < tuples.len() ==> #[trigger] table_has(
            file_slots(disk, d.slots_file(), d.slot_count as int),
            id,
        )
    &&& forall|g: u64|
        g > d.slot_generation + 1 ==> !(#[trigger] disk.files.contains_key(
            ScratchFile::Slots { generation: g },
        ))
}

/// The table holds the tuples, in the order of their ids, and nothing else.
pub open spec fn disk_holds<T: StateTuple, C: StateCodec<T>>(
    d: DiskStateStore,
    disk: Disk,
    tuples: Seq<T::M>,
) -> bool {
    &&& disk_core::<T, C>(d, disk, tuples)
    &&& offsets_file(disk).len() == 8 * tuples.len()
    &&& !disk.files.contains_key(d.next_slots_file())
}

/// The table holds the tuples, and the slots that it has outgrown are still there.
pub open spec fn disk_outgrown<T: StateTuple, C: StateCodec<T>>(
    d: DiskStateStore,
    disk: Disk,
    tuples: Seq<T::M>,
) -> bool {
    &&& disk_holds::<T, C>(d, disk, tuples)
    &&& d.slot_generation > 0
    &&& disk.files.contains_key(d.outgrown_file())
}

/// Removing the slots that were outgrown leaves the table as it is.
pub proof fn lemma_retire<T: StateTuple, C: StateCodec<T>>(
    d: DiskStateStore,
    disk: Disk,
    tuples: Seq<T::M>,
)
    requires
        disk_outgrown::<T, C>(d, disk, tuples),
    ensures
        ({
            let (after, e) = disk.perform(ActionM::Remove { file: d.outgrown_file() });
            &&& e is Done
            &&& disk_holds::<T, C>(d, after, tuples)
            &&& tuples_file(after) == tuples_file(disk)
            &&& !after.files.contains_key(d.outgrown_file())
            &&& file_slots(after, d.slots_file(), d.slot_count as int) == file_slots(
                disk,
                d.slots_file(),
                d.slot_count as int,
            )
        }),
{
    let (after, e) = disk.perform(ActionM::Remove { file: d.outgrown_file() });
    assert(d.outgrown_file() != d.slots_file());
    assert(after.files[d.slots_file()] == disk.files[d.slots_file()]);
    assert(after.files[ScratchFile::Tuples] == disk.files[ScratchFile::Tuples]);
    assert(after.files[ScratchFile::Offsets] == disk.files[ScratchFile::Offsets]);
    assert forall|id: int| 0 <= id < tuples.len() implies #[trigger] record_there::<T, C>(
        after,
        id,
        tuples[id],
    ) by {
        assert(record_there::<T, C>(disk, id, tuples[id]));
    }
}

/// Reading the tuple of `id` is on its way.
pub open spec fn resolving_sound<T: StateTuple, C: StateCodec<T>>(
    disk: Disk,
    tuples: Seq<T::M>,
    id: int,
    r: Resolving,
) -> bool {
    &&& 0 <= id < tuples.len()
    &&& match r {
        Resolving::Offset { id: asked } => asked == id,
        Resolving::Length { offset } => offset == offset_of(disk, id),
        Resolving::Tuple { at, count } => at == offset_of(disk, id) + 8 && (C::encode_model(
            tuples[id],
        ) matches Ok(bytes) && count == bytes.len()),
    }
}

/// How many answers are still needed.
pub open spec fn resolving_rank(r: Resolving) -> int {
    match r {
        Resolving::Offset { id } => 3,
        Resolving::Length { offset } => 2,
        Resolving::Tuple { at, count } => 1,
    }
}

/// Storage that works answers a read with the tuple, sooner or later.
pub proof fn lemma_resolving<T: StateTuple, C: StateCodec<T>>(
    disk: Disk,
    tuples: Seq<T::M>,
    id: int,
    r: Resolving,
)
    requires
        records_hold::<T, C>(disk, tuples),
        tuples.len() <= NO_STATE_ID,
        resolving_sound::<T, C>(disk, tuples, id, r),
    ensures
        ({
            let (after, e) = disk.perform(r.action_model());
            &&& after == disk
            &&& match r.next_model(e) {
                Resolved::Failed(f) => false,
                Resolved::More(next) => resolving_sound::<T, C>(disk, tuples, id, next)
                    && resolving_rank(next) < resolving_rank(r),
                Resolved::Got => e is Bytes && C::encode_model(tuples[id]) == Ok::<
                    Seq<u8>,
                    StoreFailure,
                >(e->Bytes_0),
            }
        }),
{
    assert(record_there::<T, C>(disk, id, tuples[id]));
    let off = offset_of(disk, id);
    let bytes = C::encode_model(tuples[id])->Ok_0;
    let content = tuples_file(disk);
    let rec = content.subrange(off, off + 8 + bytes.len());
    lemma_number_bytes(bytes.len() as u64);
    match r {
        Resolving::Offset { id: asked } => {},
        Resolving::Length { offset } => {
            assert(content.subrange(off, off + 8) =~= rec.subrange(0, 8));
            assert(rec.subrange(0, 8) =~= le_bytes(bytes.len() as int, 8));
        },
        Resolving::Tuple { at, count } => {
            assert(content.subrange(off + 8, off + 8 + bytes.len()) =~= rec.subrange(
                8,
                8 + bytes.len() as int,
            ));
            assert(rec.subrange(8, 8 + bytes.len() as int) =~= bytes);
        },
    }
}

/// None of the slots up to step `k` holds the tuple, and none is free.
pub open spec fn passed<T: StateTuple>(
    slots: Seq<Slot>,
    tuples: Seq<T::M>,
    tuple: T::M,
    k: int,
) -> bool {
    forall|j: int|
        0 <= j < k ==> {
            let s = slots[#[trigger] probe_slot(
                T::hash_model(tuple),
                slots.len() as u64,
                j,
            )];
            s.id_plus_one != 0 && (s.hash == T::hash_model(tuple) ==> tuples[s.id_plus_one - 1]
                != tuple)
        }
}

/// Looking for a tuple is on its way.
pub open spec fn looking_sound<T: StateTuple, C: StateCodec<T>>(
    d: DiskStateStore,
    disk: Disk,
    tuples: Seq<T::M>,
    tuple: T::M,
    l: Looking,
) -> bool {
    let slots = file_slots(disk, d.slots_file(), d.slot_count as int);
    let hash = T::hash_model(tuple);
    match l {
        Looking::Slot { slot, probed } => {
            &&& probed < d.slot_count
            &&& slot == probe_slot(hash, d.slot_count, probed as int)
            &&& passed::<T>(slots, tuples, tuple, probed as int)
        },
        Looking::Check { slot, probed, id, resolving } => {
            &&& probed < d.slot_count
            &&& slot == probe_slot(hash, d.slot_count, probed as int)
            &&& passed::<T>(slots, tuples, tuple, probed as int)
            &&& slot < slots.len()
            &&& slots[slot as int].hash == hash
            &&& slots[slot as int].id_plus_one == id + 1
            &&& resolving_sound::<T, C>(disk, tuples, id as int, resolving)
        },
    }
}

/// How many answers are still needed at most.
pub open spec fn looking_rank(d: DiskStateStore, l: Looking) -> int {
    match l {
        Looking::Slot { slot, probed } => 4 * (d.slot_count - probed),
        Looking::Check { slot, probed, id, resolving } => 4 * (d.slot_count - probed) - 4
            + resolving_rank(resolving),
    }
}

/// The slot is the first free one on the way of the hash.
pub open spec fn first_free(slots: Seq<Slot>, hash: u64, slot: int) -> bool {
    &&& 0 <= slot < slots.len()
    &&& slots[slot].id_plus_one == 0
    &&& exists|k: int|
        0 <= k < slots.len() && #[trigger] probe_slot(hash, slots.len() as u64, k) == slot
            && taken_before(slots, hash, k)
}

/// Storage that works answers a search with the tuple's id or with the slot it
/// belongs into, sooner or later.
pub proof fn lemma_looking<T: StateTuple, C: StateCodec<T>>(
    d: DiskStateStore,
    disk: Disk,
    tuples: Seq<T::M>,
    tuple: T::M,
    l: Looking,
)
    requires
        disk_core::<T, C>(d, disk, tuples),
        codec_exact::<T, C>(),
        looking_sound::<T, C>(d, disk, tuples, tuple, l),
    ensures
        ({
            let (after, e) = disk.perform(l.action_model(d));
            let slots = file_slots(disk, d.slots_file(), d.slot_count as int);
            &&& after == disk
            &&& looking_rank(d, l) > 0
            &&& match l.next_model::<T, C>(d, tuple, T::hash_model(tuple), e) {
                Looked::Failed(f) => false,
                Looked::More(next) => looking_sound::<T, C>(d, disk, tuples, tuple, next)
                    && looking_rank(d, next) < looking_rank(d, l),
                Looked::Found(id) => id < tuples.len() && tuples[id as int] == tuple,
                Looked::Vacant(slot) => first_free(slots, T::hash_model(tuple), slot as int)
                    && !tuples.contains(tuple),
            }
        }),
{
    let slots = file_slots(disk, d.slots_file(), d.slot_count as int);
    let hash = T::hash_model(tuple);
    let hashes = hashes_of::<T>(tuples);
    let count = d.slot_count;
    lemma_home_slot(hash, count);
    let (after, e) = disk.perform(l.action_model(d));
    match l {
        Looking::Slot { slot, probed } => {
            assert(slot < count);
            let b = disk.files[d.slots_file()].subrange(16 * slot as int, 16 * slot as int + 16);
            assert(e == EventM::Bytes(b));
            let found = slot_of(b);
            assert(found == slots[slot as int]);
            if found.id_plus_one == 0 {
                assert(taken_before(slots, hash, probed as int)) by {
                    assert forall|j: int| 0 <= j < probed implies slots[
                        #[trigger] probe_slot(hash, slots.len() as u64, j)
                    ].id_plus_one != 0 by {}
                }
                assert(probe_slot(hash, slots.len() as u64, probed as int) == slot);
                if tuples.contains(tuple) {
                    let id = tuples.index_of(tuple);
                    assert(tuples[id] == tuple);
                    assert(table_has(slots, id));
                    let p = choose|p: int|
                        0 <= p < slots.len() && (#[trigger] slots[p]).id_plus_one == id + 1;
                    assert(slots[p].id_plus_one != 0);
                    assert(hashes[id] == hash);
                    lemma_absent_after_free(slots, hashes, hash, probed as int, p);
                    let j = choose|j: int|
                        0 <= j < probed && #[trigger] probe_slot(hash, slots.len() as u64, j) == p;
                    assert(slots[probe_slot(hash, slots.len() as u64, j)].id_plus_one != 0);
                    assert(false);
                }
            } else {
                assert(slots[slot as int].id_plus_one != 0);
                if found.hash != hash {
                    lemma_look_on::<T>(d, slots, tuples, tuple, slot, probed);
                }
            }
        },
        Looking::Check { slot, probed, id, resolving } => {
            lemma_resolving::<T, C>(disk, tuples, id as int, resolving);
            if resolving.next_model(e) is Got {
                let b = e->Bytes_0;
                assert(C::encode_model(tuples[id as int]) == Ok::<Seq<u8>, StoreFailure>(b));
                if tuples[id as int] != tuple {
                    lemma_look_on::<T>(d, slots, tuples, tuple, slot, probed);
                }
            }
        },
    }
}

/// A slot that holds something else can be passed, and another slot follows.
proof fn lemma_look_on<T: StateTuple>(
    d: DiskStateStore,
    slots: Seq<Slot>,
    tuples: Seq<T::M>,
    tuple: T::M,
    slot: u64,
    probed: u64,
)
    requires
        slots.len() == d.slot_count,
        table_sound(slots, hashes_of::<T>(tuples)),
        tuples.len() * MAX_LOAD_DENOMINATOR <= d.slot_count * MAX_LOAD_NUMERATOR,
        probed < d.slot_count,
        slot == probe_slot(T::hash_model(tuple), d.slot_count, probed as int),
        passed::<T>(slots, tuples, tuple, probed as int),
        slots[slot as int].id_plus_one != 0,
        slots[slot as int].hash == T::hash_model(tuple) ==> tuples[slots[slot as int].id_plus_one
            - 1] != tuple,
    ensures
        look_on_model(d, slot, probed) == Looked::More(
            Looking::Slot {
                slot: next_slot(slot as int, d.slot_count as int) as u64,
                probed: (probed + 1) as u64,
            },
        ),
        next_slot(slot as int, d.slot_count as int) == probe_slot(
            T::hash_model(tuple),
            d.slot_count,
            probed + 1,
        ),
        probed + 1 < d.slot_count,
        0 <= next_slot(slot as int, d.slot_count as int) < d.slot_count,
        passed::<T>(slots, tuples, tuple, probed + 1),
{
    let hash = T::hash_model(tuple);
    let count = d.slot_count;
    assert(passed::<T>(slots, tuples, tuple, probed + 1));
    if probed + 1 >= count {
        let p = lemma_free_slot(slots, hashes_of::<T>(tuples));
        let k = lemma_probe_reaches(hash, count, p);
        assert(slots[probe_slot(hash, slots.len() as u64, k)].id_plus_one != 0);
        assert(false);
    }
    lemma_probe_next(hash, count, probed as int);
    lemma_home_slot(hash, count);
}

/// The slots that are taken, however they stand.
pub open spec fn taken_slots(slots: Seq<Slot>) -> Multiset<Slot>
    decreases slots.len(),
{
    if slots.len() == 0 {
        Multiset::empty()
    } else if slots.last().id_plus_one == 0 {
        taken_slots(slots.drop_last())
    } else {
        taken_slots(slots.drop_last()).insert(slots.last())
    }
}

proof fn lemma_taken_free(slots: Seq<Slot>)
    requires
        forall|p: int| 0 <= p < slots.len() ==> (#[trigger] slots[p]).id_plus_one == 0,
    ensures
        taken_slots(slots) == Multiset::<Slot>::empty(),
    decreases slots.len(),
{
    if slots.len() > 0 {
        let shorter = slots.drop_last();
        assert forall|p: int| 0 <= p < shorter.len() implies (
        #[trigger] shorter[p]).id_plus_one == 0 by {
            assert(shorter[p] == slots[p]);
        }
        lemma_taken_free(shorter);
    }
}

proof fn lemma_taken_filled(slots: Seq<Slot>, at: int, entry: Slot)
    requires
        0 <= at < slots.len(),
        slots[at].id_plus_one == 0,
        entry.id_plus_one != 0,
    ensures
        taken_slots(slots.update(at, entry)) == taken_slots(slots).insert(entry),
    decreases slots.len(),
{
    let after = slots.update(at, entry);
    if at == slots.len() - 1 {
        assert(after.drop_last() =~= slots.drop_last());
    } else {
        assert(after.drop_last() =~= slots.drop_last().update(at, entry));
        assert(after.last() == slots.last());
        lemma_taken_filled(slots.drop_last(), at, entry);
        if slots.last().id_plus_one != 0 {
            assert(taken_slots(slots.drop_last()).insert(entry).insert(slots.last())
                =~= taken_slots(slots.drop_last()).insert(slots.last()).insert(entry));
        }
    }
}

/// The new slots hold what the first `index` old slots hold.
pub open spec fn copied<T: StateTuple>(
    d: DiskStateStore,
    disk: Disk,
    tuples: Seq<T::M>,
    index: int,
) -> bool {
    let old_slots = file_slots(disk, d.slots_file(), d.slot_count as int);
    let new_slots = file_slots(disk, d.next_slots_file(), 2 * d.slot_count);
    &&& slots_hold::<T>(disk, d.next_slots_file(), (2 * d.slot_count) as u64, tuples)
    &&& forall|id: int|
        id >= 0 ==> (#[trigger] table_has(new_slots, id) <==> table_has(
            old_slots.take(index),
            id,
        ))
    &&& taken_slots(new_slots) == taken_slots(old_slots.take(index))
}

/// Making the table larger is on its way.
pub open spec fn growing_sound<T: StateTuple, C: StateCodec<T>>(
    d: DiskStateStore,
    disk: Disk,
    tuples: Seq<T::M>,
    g: Growing,
) -> bool {
    let old_slots = file_slots(disk, d.slots_file(), d.slot_count as int);
    let new_slots = file_slots(disk, d.next_slots_file(), 2 * d.slot_count);
    let new_count = (2 * d.slot_count) as u64;
    &&& disk_core::<T, C>(d, disk, tuples)
    &&& offsets_file(disk).len() == 8 * tuples.len()
    &&& 2 * d.slot_count <= MAX_SLOT_COUNT
    &&& match g {
        Growing::Create => !disk.files.contains_key(d.next_slots_file()),
        Growing::Size => disk.files.contains_key(d.next_slots_file()) && disk.files[
            d.next_slots_file()
        ] == Seq::<u8>::empty(),
        Growing::Read { index } => index < d.slot_count && copied::<T>(
            d,
            disk,
            tuples,
            index as int,
        ),
        Growing::Probe { index, entry, at, probed } => {
            &&& index < d.slot_count
            &&& copied::<T>(d, disk, tuples, index as int)
            &&& entry == old_slots[index as int]
            &&& entry.id_plus_one != 0
            &&& probed < new_count
            &&& at == probe_slot(entry.hash, new_count, probed as int)
            &&& taken_before(new_slots, entry.hash, probed as int)
        },
        Growing::Place { index, entry, at } => {
            &&& index < d.slot_count
            &&& copied::<T>(d, disk, tuples, index as int)
            &&& entry == old_slots[index as int]
            &&& entry.id_plus_one != 0
            &&& first_free(new_slots, entry.hash, at as int)
        },
        Growing::Sync => copied::<T>(d, disk, tuples, d.slot_count as int),
    }
}

/// How many answers are still needed at most.
pub open spec fn growing_rank(d: DiskStateStore, g: Growing) -> int {
    let span = 2 * d.slot_count + 3;
    match g {
        Growing::Create => span * d.slot_count + 6,
        Growing::Size => span * d.slot_count + 5,
        Growing::Read { index } => span * (d.slot_count - index) + 4,
        Growing::Probe { index, entry, at, probed } => span * (d.slot_count - index) + 2 - probed,
        Growing::Place { index, entry, at } => span * (d.slot_count - index - 1) + 5,
        Growing::Sync => 1,
    }
}

proof fn lemma_take_has(slots: Seq<Slot>, index: int)
    requires
        0 <= index < slots.len(),
    ensures
        forall|id: int|
            id >= 0 ==> (#[trigger] table_has(slots.take(index + 1), id) <==> table_has(
                slots.take(index),
                id,
            ) || slots[index].id_plus_one == id + 1),
{
    let longer = slots.take(index + 1);
    let shorter = slots.take(index);
    assert forall|id: int| id >= 0 implies (#[trigger] table_has(longer, id) <==> table_has(
        shorter,
        id,
    ) || slots[index].id_plus_one == id + 1) by {
        if table_has(longer, id) {
            let p = choose|p: int|
                0 <= p < longer.len() && (#[trigger] longer[p]).id_plus_one == id + 1;
            if p < index {
                assert(shorter[p].id_plus_one == id + 1);
            }
        }
        if table_has(shorter, id) {
            let p = choose|p: int|
                0 <= p < shorter.len() && (#[trigger] shorter[p]).id_plus_one == id + 1;
            assert(longer[p].id_plus_one == id + 1);
        }
        if slots[index].id_plus_one == id + 1 {
            assert(longer[index].id_plus_one == id + 1);
        }
    }
}

/// A change of one file leaves what is known of the others.
proof fn lemma_core_other_file<T: StateTuple, C: StateCodec<T>>(
    d: DiskStateStore,
    disk: Disk,
    tuples: Seq<T::M>,
    content: Seq<u8>,
)
    requires
        disk_core::<T, C>(d, disk, tuples),
        d.slot_generation < u64::MAX,
    ensures
        disk_core::<T, C>(d, disk.with(d.next_slots_file(), content), tuples),
        offsets_file(disk.with(d.next_slots_file(), content)) == offsets_file(disk),
        file_slots(
            disk.with(d.next_slots_file(), content),
            d.slots_file(),
            d.slot_count as int,
        ) == file_slots(disk, d.slots_file(), d.slot_count as int),
{
    let after = disk.with(d.next_slots_file(), content);
    assert(d.next_slots_file() != d.slots_file());
    assert(after.files[d.slots_file()] == disk.files[d.slots_file()]);
    assert(after.files[ScratchFile::Tuples] == disk.files[ScratchFile::Tuples]);
    assert(after.files[ScratchFile::Offsets] == disk.files[ScratchFile::Offsets]);
    assert forall|id: int| 0 <= id < tuples.len() implies #[trigger] record_there::<T, C>(
        after,
        id,
        tuples[id],
    ) by {
        assert(record_there::<T, C>(disk, id, tuples[id]));
    }
}

/// Storage that works makes the table larger, sooner or later.
#[verifier::rlimit(40)]
pub proof fn lemma_growing<T: StateTuple, C: StateCodec<T>>(
    d: DiskStateStore,
    disk: Disk,
    tuples: Seq<T::M>,
    g: Growing,
)
    requires
        growing_sound::<T, C>(d, disk, tuples, g),
    ensures
        ({
            let (after, e) = disk.perform(g.action_model(d));
            &&& growing_rank(d, g) > 0
            &&& tuples_file(after) == tuples_file(disk)
            &&& file_slots(after, d.slots_file(), d.slot_count as int) == file_slots(
                disk,
                d.slots_file(),
                d.slot_count as int,
            )
            &&& match g.next_model(d, e) {
                Grown::Failed(f) => false,
                Grown::More(next) => growing_sound::<T, C>(d, after, tuples, next) && growing_rank(
                    d,
                    next,
                ) < growing_rank(d, g),
                Grown::Done => disk_outgrown::<T, C>(d.grown(), after, tuples) && taken_slots(
                    file_slots(after, d.grown().slots_file(), 2 * d.slot_count),
                ) == taken_slots(file_slots(disk, d.slots_file(), d.slot_count as int)),
            }
        }),
{
    let (after, e) = disk.perform(g.action_model(d));
    let old_slots = file_slots(disk, d.slots_file(), d.slot_count as int);
    let new_slots = file_slots(disk, d.next_slots_file(), 2 * d.slot_count);
    let new_count = (2 * d.slot_count) as u64;
    let hashes = hashes_of::<T>(tuples);
    lemma_double_power(d.slot_count);
    lemma_growing_rank(d, g);
    match g {
        Growing::Create => {
            lemma_core_other_file::<T, C>(d, disk, tuples, Seq::empty());
        },
        Growing::Size => {
            let content = resized(Seq::empty(), 16 * new_count);
            lemma_core_other_file::<T, C>(d, disk, tuples, content);
            lemma_slots_free(new_count as int);
            let fresh = file_slots(after, d.next_slots_file(), new_count as int);
            assert(old_slots.take(0) =~= Seq::<Slot>::empty());
            assert forall|id: int| id >= 0 implies (#[trigger] table_has(fresh, id) <==> table_has(
                old_slots.take(0),
                id,
            )) by {
                if table_has(fresh, id) {
                    let p = choose|p: int|
                        0 <= p < fresh.len() && (#[trigger] fresh[p]).id_plus_one == id + 1;
                    assert(fresh[p].id_plus_one == 0);
                }
            }
            lemma_taken_free(fresh);
        },
        Growing::Read { index } => {
            let b = disk.files[d.slots_file()].subrange(16 * index as int, 16 * index as int + 16);
            assert(e == EventM::Bytes(b));
            let entry = slot_of(b);
            assert(entry == old_slots[index as int]);
            lemma_take_has(old_slots, index as int);
            assert(old_slots.take(index + 1).drop_last() =~= old_slots.take(index as int));
            lemma_home_slot(entry.hash, new_count);
            if entry.id_plus_one == 0 {
                lemma_growing_rank(d, grow_on_model(d, index));
                assert(copied::<T>(d, disk, tuples, index + 1));
            }
        },
        Growing::Probe { index, entry, at, probed } => {
            lemma_home_slot(entry.hash, new_count);
            let b = disk.files[d.next_slots_file()].subrange(
                16 * at as int,
                16 * at as int + 16,
            );
            assert(e == EventM::Bytes(b));
            assert(slot_of(b) == new_slots[at as int]);
            if slot_of(b).id_plus_one == 0 {
                assert(probe_slot(entry.hash, new_slots.len() as u64, probed as int) == at);
            } else {
                if probed + 1 >= new_count {
                    let p = lemma_free_slot(new_slots, hashes);
                    let k = lemma_probe_reaches(entry.hash, new_count, p);
                    assert(new_slots[probe_slot(
                        entry.hash,
                        new_slots.len() as u64,
                        k,
                    )].id_plus_one != 0);
                    assert(false);
                }
                lemma_probe_next(entry.hash, new_count, probed as int);
                assert(taken_before(new_slots, entry.hash, probed + 1));
            }
        },
        Growing::Place { index, entry, at } => {
            let content = overwritten(
                disk.files[d.next_slots_file()],
                16 * at as int,
                slot_bytes(entry),
            );
            lemma_core_other_file::<T, C>(d, disk, tuples, content);
            lemma_slot_written(
                disk.files[d.next_slots_file()],
                new_count as int,
                at as int,
                entry,
            );
            let id = entry.id_plus_one - 1;
            assert(old_slots[index as int].id_plus_one != 0);
            assert(hashes[id] == entry.hash);
            assert(!table_has(new_slots, id)) by {
                if table_has(old_slots.take(index as int), id) {
                    let p = choose|p: int|
                        0 <= p < index && (#[trigger] old_slots.take(
                            index as int,
                        )[p]).id_plus_one == id + 1;
                    assert(old_slots[p].id_plus_one == id + 1);
                    assert(old_slots[p].id_plus_one != old_slots[index as int].id_plus_one);
                }
            }
            let k = choose|k: int|
                0 <= k < new_slots.len() && #[trigger] probe_slot(
                    entry.hash,
                    new_slots.len() as u64,
                    k,
                ) == at && taken_before(new_slots, entry.hash, k);
            lemma_insert_slot(new_slots, hashes, id, k);
            lemma_take_has(old_slots, index as int);
            lemma_growing_rank(d, grow_on_model(d, index));
            let placed = file_slots(after, d.next_slots_file(), new_count as int);
            assert(placed == new_slots.update(
                at as int,
                Slot { hash: hashes[id], id_plus_one: (id + 1) as u64 },
            ));
            lemma_taken_filled(new_slots, at as int, entry);
            assert(old_slots.take(index + 1).drop_last() =~= old_slots.take(index as int));
            assert(copied::<T>(d, after, tuples, index + 1));
        },
        Growing::Sync => {
            assert(old_slots.take(d.slot_count as int) =~= old_slots);
            let bigger = d.grown();
            assert(d.next_slots_file() != d.slots_file());
            assert(bigger.slots_file() == d.next_slots_file());
            assert(after.files[bigger.slots_file()] == disk.files[bigger.slots_file()]);
            assert(after.files[ScratchFile::Tuples] == disk.files[ScratchFile::Tuples]);
            assert(after.files[ScratchFile::Offsets] == disk.files[ScratchFile::Offsets]);
            assert forall|id: int| 0 <= id < tuples.len() implies #[trigger] record_there::<T, C>(
                after,
                id,
                tuples[id],
            ) by {
                assert(record_there::<T, C>(disk, id, tuples[id]));
            }
            assert forall|id: int| 0 <= id < tuples.len() implies #[trigger] table_has(
                file_slots(after, bigger.slots_file(), bigger.slot_count as int),
                id,
            ) by {
                assert(table_has(old_slots, id));
                assert(table_has(new_slots, id));
            }
        },
    }
}

/// Ranks are positive, and go down from slot to slot.
proof fn lemma_growing_rank(d: DiskStateStore, g: Growing)
    requires
        d.slot_count > 0,
        match g {
            Growing::Read { index } => index < d.slot_count,
            Growing::Probe { index, entry, at, probed } => index < d.slot_count && probed < 2
                * d.slot_count,
            Growing::Place { index, entry, at } => index < d.slot_count,
            _ => true,
        },
    ensures
        growing_rank(d, g) > 0,
        g matches Growing::Read { index } ==> growing_rank(d, g) == (2 * d.slot_count + 3) * (
        d.slot_count - index - 1) + (2 * d.slot_count + 3) + 4 && (2 * d.slot_count + 3) * (
        d.slot_count - index - 1) >= 0,
        g matches Growing::Probe { index, entry, at, probed } ==> growing_rank(d, g) == (2
            * d.slot_count + 3) * (d.slot_count - index - 1) + (2 * d.slot_count + 3) + 2 - probed
            && (2 * d.slot_count + 3) * (d.slot_count - index - 1) >= 0,
        g matches Growing::Place { index, entry, at } ==> (2 * d.slot_count + 3) * (d.slot_count
            - index - 1) >= 0,
        g is Size || g is Create ==> (2 * d.slot_count + 3) * d.slot_count == (2 * d.slot_count
            + 3) * (d.slot_count - 0),
{
    let span = 2 * d.slot_count + 3;
    match g {
        Growing::Read { index } => {
            let left = d.slot_count - index - 1;
            assert(span * (left + 1) == span * left + span && span * left >= 0)
                by (nonlinear_arith)
                requires
                    span >= 0,
                    left >= 0,
            ;
        },
        Growing::Probe { index, entry, at, probed } => {
            let left = d.slot_count - index - 1;
            assert(span * (left + 1) == span * left + span && span * left >= 0)
                by (nonlinear_arith)
                requires
                    span >= 0,
                    left >= 0,
            ;
        },
        Growing::Place { index, entry, at } => {
            let left = d.slot_count - index - 1;
            assert(span * left >= 0) by (nonlinear_arith)
                requires
                    span >= 0,
                    left >= 0,
            ;
        },
        _ => {
            let all = d.slot_count as int;
            assert(span * all >= 0) by (nonlinear_arith)
                requires
                    span >= 0,
                    all >= 0,
            ;
        },
    }
}

/// Making the table larger with storage that works, for `n` answers.
pub open spec fn drive_growth(d: DiskStateStore, disk: Disk, g: Growing, n: nat) -> (Disk, Grown)
    decreases n,
{
    if n == 0 {
        (disk, Grown::More(g))
    } else {
        let (after, e) = disk.perform(g.action_model(d));
        match g.next_model(d, e) {
            Grown::More(next) => drive_growth(d, after, next, (n - 1) as nat),
            done => (after, done),
        }
    }
}

proof fn lemma_drive_growth<T: StateTuple, C: StateCodec<T>>(
    d: DiskStateStore,
    disk: Disk,
    tuples: Seq<T::M>,
    g: Growing,
) -> (n: nat)
    requires
        growing_sound::<T, C>(d, disk, tuples, g),
    ensures
        ({
            let (after, done) = drive_growth(d, disk, g, n);
            &&& done is Done
            &&& disk_outgrown::<T, C>(d.grown(), after, tuples)
            &&& taken_slots(file_slots(after, d.grown().slots_file(), 2 * d.slot_count))
                == taken_slots(file_slots(disk, d.slots_file(), d.slot_count as int))
            &&& tuples_file(after) == tuples_file(disk)
        }),
    decreases growing_rank(d, g),
{
    lemma_growing::<T, C>(d, disk, tuples, g);
    let (after, e) = disk.perform(g.action_model(d));
    match g.next_model(d, e) {
        Grown::More(next) => {
            let m = lemma_drive_growth::<T, C>(d, after, tuples, next);
            assert(drive_growth(d, disk, g, m + 1) == drive_growth(d, after, next, m));
            m + 1
        },
        done => {
            assert(drive_growth(d, disk, g, 1) == (after, done));
            1
        },
    }
}

/// As long as storage works, making the table larger ends with twice the slots in a
/// file of the next generation, of which the same are taken by the same ids, and with
/// every tuple under the id it had. The slots that were outgrown can then be removed.
pub proof fn law_growth_keeps_slots<T: StateTuple, C: StateCodec<T>>(
    d: DiskStateStore,
    disk: Disk,
    tuples: Seq<T::M>,
) -> (n: nat)
    requires
        disk_holds::<T, C>(d, disk, tuples),
        2 * d.slot_count <= MAX_SLOT_COUNT,
    ensures
        grow_begin_model(d) is Ok,
        ({
            let (full, done) = drive_growth(d, disk, grow_begin_model(d)->Ok_0, n);
            let (after, e) = full.perform(ActionM::Remove { file: d.slots_file() });
            let bigger = d.grown();
            &&& done is Done
            &&& e is Done
            &&& bigger.slot_count == 2 * d.slot_count
            &&& bigger.slot_generation == d.slot_generation + 1
            &&& bigger.len == d.len
            &&& disk_holds::<T, C>(bigger, after, tuples)
            &&& !after.files.contains_key(d.slots_file())
            &&& taken_slots(file_slots(after, bigger.slots_file(), bigger.slot_count as int))
                == taken_slots(file_slots(disk, d.slots_file(), d.slot_count as int))
            &&& tuples_file(after) == tuples_file(disk)
        }),
{
    let n = lemma_drive_growth::<T, C>(d, disk, tuples, Growing::Create);
    let (full, done) = drive_growth(d, disk, Growing::Create, n);
    lemma_retire::<T, C>(d.grown(), full, tuples);
    n
}

/// One more tuple does not overload the slots.
pub open spec fn one_more_fits(d: DiskStateStore) -> bool {
    (d.len + 1) * MAX_LOAD_DENOMINATOR <= d.slot_count * MAX_LOAD_NUMERATOR
}

/// The tuple is known, or there is an id and room for it.
pub open spec fn can_name<T: StateTuple, C: StateCodec<T>>(
    disk: Disk,
    tuples: Seq<T::M>,
    tuple: T::M,
) -> bool {
    tuples.contains(tuple) || {
        &&& tuples.len() < NO_STATE_ID
        &&& C::encode_model(tuple) matches Ok(bytes)
        &&& bytes.len() <= usize::MAX
        &&& tuples_file(disk).len() + 8 + bytes.len() <= u64::MAX
    }
}

/// Nothing stands in the way of naming the tuple.
pub open spec fn able<T: StateTuple, C: StateCodec<T>>(
    disk: Disk,
    tuples: Seq<T::M>,
    i: InsertM<T::M>,
) -> bool {
    i.phase is Slot || can_name::<T, C>(disk, tuples, i.tuple)
}

/// The bytes of a tuple, if it can be written down, fit into memory.
pub open spec fn encodings_fit<T: StateTuple, C: StateCodec<T>>() -> bool {
    forall|m: T::M|
        (#[trigger] C::encode_model(m)) matches Ok(bytes) ==> bytes.len() <= usize::MAX
}

/// The tuple can be written down.
pub open spec fn encodable<T: StateTuple, C: StateCodec<T>>(tuple: T::M) -> bool {
    C::encode_model(tuple) matches Ok(bytes) && bytes.len() <= usize::MAX
}

/// The slot is free for the tuple, which is not there yet.
pub open spec fn slot_ready<T: StateTuple>(
    d: DiskStateStore,
    disk: Disk,
    tuples: Seq<T::M>,
    tuple: T::M,
    slot: u64,
    state: StateId,
) -> bool {
    &&& !tuples.contains(tuple)
    &&& first_free(
        file_slots(disk, d.slots_file(), d.slot_count as int),
        T::hash_model(tuple),
        slot as int,
    )
    &&& one_more_fits(d)
    &&& state == tuples.len()
    &&& tuples.len() < NO_STATE_ID
}

/// Naming a tuple is on its way.
pub open spec fn inserting_sound<T: StateTuple, C: StateCodec<T>>(
    d: DiskStateStore,
    disk: Disk,
    tuples: Seq<T::M>,
    i: InsertM<T::M>,
) -> bool {
    &&& i.hash == T::hash_model(i.tuple)
    &&& match i.phase {
        InsertPhase::Look { again, looking } => {
            &&& disk_holds::<T, C>(d, disk, tuples)
            &&& looking_sound::<T, C>(d, disk, tuples, i.tuple, looking)
            &&& again ==> one_more_fits(d)
        },
        InsertPhase::Grow(growing) => {
            &&& growing_sound::<T, C>(d, disk, tuples, growing)
        },
        InsertPhase::Retire => {
            &&& disk_outgrown::<T, C>(d, disk, tuples)
            &&& one_more_fits(d)
        },
        InsertPhase::Seek { slot, state } => {
            &&& disk_holds::<T, C>(d, disk, tuples)
            &&& slot_ready::<T>(d, disk, tuples, i.tuple, slot, state)
            &&& encodable::<T, C>(i.tuple)
            &&& i.record == record_bytes(C::encode_model(i.tuple)->Ok_0)
        },
        InsertPhase::Offset { slot, state, offset } => {
            &&& disk_holds::<T, C>(d, disk, tuples)
            &&& slot_ready::<T>(d, disk, tuples, i.tuple, slot, state)
            &&& encodable::<T, C>(i.tuple)
            &&& i.record == record_bytes(C::encode_model(i.tuple)->Ok_0)
            &&& offset == tuples_file(disk).len()
        },
        InsertPhase::Record { slot, state } => {
            &&& disk_core::<T, C>(d, disk, tuples)
            &&& !disk.files.contains_key(d.next_slots_file())
            &&& slot_ready::<T>(d, disk, tuples, i.tuple, slot, state)
            &&& encodable::<T, C>(i.tuple)
            &&& i.record == record_bytes(C::encode_model(i.tuple)->Ok_0)
            &&& offsets_file(disk).len() == 8 * (tuples.len() + 1)
            &&& offset_of(disk, tuples.len() as int) == tuples_file(disk).len()
        },
        InsertPhase::Slot { slot, state } => {
            &&& disk_core::<T, C>(d, disk, tuples)
            &&& !disk.files.contains_key(d.next_slots_file())
            &&& slot_ready::<T>(d, disk, tuples, i.tuple, slot, state)
            &&& offsets_file(disk).len() == 8 * (tuples.len() + 1)
            &&& records_hold::<T, C>(disk, tuples.push(i.tuple))
        },
    }
}

/// Which part of the work is being done.
pub open spec fn inserting_stage(phase: InsertPhase) -> int {
    match phase {
        InsertPhase::Look { again, looking } => if again {
            2
        } else {
            5
        },
        InsertPhase::Grow(growing) => 4,
        InsertPhase::Retire => 3,
        _ => 1,
    }
}

/// How many answers that part still needs at most.
pub open spec fn inserting_rank(d: DiskStateStore, phase: InsertPhase) -> int {
    match phase {
        InsertPhase::Look { again, looking } => looking_rank(d, looking),
        InsertPhase::Grow(growing) => growing_rank(d, growing),
        InsertPhase::Retire => 1,
        InsertPhase::Seek { slot, state } => 4,
        InsertPhase::Offset { slot, state, offset } => 3,
        InsertPhase::Record { slot, state } => 2,
        InsertPhase::Slot { slot, state } => 1,
    }
}

/// The tuples after one was named.
pub open spec fn with_tuple<M>(tuples: Seq<M>, tuple: M) -> Seq<M> {
    if tuples.contains(tuple) {
        tuples
    } else {
        tuples.push(tuple)
    }
}

/// A fresh search is sound.
pub proof fn lemma_look_begin<T: StateTuple, C: StateCodec<T>>(
    d: DiskStateStore,
    disk: Disk,
    tuples: Seq<T::M>,
    tuple: T::M,
)
    requires
        disk_core::<T, C>(d, disk, tuples),
    ensures
        looking_sound::<T, C>(
            d,
            disk,
            tuples,
            tuple,
            look_begin_model(d, T::hash_model(tuple)),
        ),
{
    lemma_home_slot(T::hash_model(tuple), d.slot_count);
}

/// Writing offsets or tuples leaves the slots alone, and the tuples that are
/// there stay where they are.
proof fn lemma_core_appended<T: StateTuple, C: StateCodec<T>>(
    d: DiskStateStore,
    disk: Disk,
    tuples: Seq<T::M>,
    file: ScratchFile,
    bytes: Seq<u8>,
)
    requires
        disk_core::<T, C>(d, disk, tuples),
        file == ScratchFile::Tuples || file == ScratchFile::Offsets,
        file == ScratchFile::Tuples ==> tuples_file(disk).len() + bytes.len() <= u64::MAX,
    ensures
        disk_core::<T, C>(d, disk.with(file, disk.files[file] + bytes), tuples),
{
    let after = disk.with(file, disk.files[file] + bytes);
    assert(after.files[d.slots_file()] == disk.files[d.slots_file()]);
    assert forall|id: int| 0 <= id < tuples.len() implies #[trigger] record_there::<T, C>(
        after,
        id,
        tuples[id],
    ) by {
        assert(record_there::<T, C>(disk, id, tuples[id]));
        let off = offset_of(disk, id);
        let enc = C::encode_model(tuples[id])->Ok_0;
        assert(offsets_file(after).subrange(8 * id, 8 * id + 8) =~= offsets_file(disk).subrange(
            8 * id,
            8 * id + 8,
        ));
        assert(tuples_file(after).subrange(off, off + 8 + enc.len()) =~= tuples_file(
            disk,
        ).subrange(off, off + 8 + enc.len()));
    }
}

/// Storage that works gets a tuple named, sooner or later, unless something stands in
/// the way.
#[verifier::rlimit(40)]
pub proof fn lemma_inserting<T: StateTuple, C: StateCodec<T>>(
    d: DiskStateStore,
    disk: Disk,
    tuples: Seq<T::M>,
    i: InsertM<T::M>,
)
    requires
        codec_exact::<T, C>(),
        inserting_sound::<T, C>(d, disk, tuples, i),
        able::<T, C>(disk, tuples, i) || encodings_fit::<T, C>(),
    ensures
        ({
            let (after, e) = disk.perform(i.action_model(d));
            let (d1, r) = insert_next_model::<T, C>(d, i, e);
            &&& inserting_rank(d, i.phase) > 0
            &&& match r {
                InsertedM::Failed(f) => !able::<T, C>(disk, tuples, i),
                InsertedM::More(next) => {
                    &&& inserting_sound::<T, C>(d1, after, tuples, next)
                    &&& able::<T, C>(disk, tuples, i) ==> able::<T, C>(after, tuples, next)
                    &&& next.tuple == i.tuple
                    &&& inserting_stage(next.phase) < inserting_stage(i.phase) || (inserting_stage(
                        next.phase,
                    ) == inserting_stage(i.phase) && inserting_rank(d1, next.phase)
                        < inserting_rank(d, i.phase))
                },
                InsertedM::Done(id) => {
                    let named = with_tuple(tuples, i.tuple);
                    &&& disk_holds::<T, C>(d1, after, named)
                    &&& id < named.len()
                    &&& named[id as int] == i.tuple
                },
            }
        }),
{
    let (after, e) = disk.perform(i.action_model(d));
    let slots = file_slots(disk, d.slots_file(), d.slot_count as int);
    match i.phase {
        InsertPhase::Look { again, looking } => {
            lemma_looking::<T, C>(d, disk, tuples, i.tuple, looking);
            match looking.next_model::<T, C>(d, i.tuple, i.hash, e) {
                Looked::Found(id) => {
                    assert(tuples[id as int] == i.tuple);
                    assert(tuples.contains(i.tuple));
                },
                Looked::Vacant(slot) => {
                    if !again {
                        if needs_growth_model(d.len as int, d.slot_count as int) == Ok::<
                            bool,
                            StoreFailure,
                        >(true) {
                            assert(grow_begin_model(d) is Ok);
                            lemma_growing_rank(d, Growing::Create);
                        }
                    }
                },
                _ => {},
            }
        },
        InsertPhase::Grow(growing) => {
            lemma_growing::<T, C>(d, disk, tuples, growing);
        },
        InsertPhase::Retire => {
            lemma_retire::<T, C>(d, disk, tuples);
            lemma_look_begin::<T, C>(d, after, tuples, i.tuple);
        },
        InsertPhase::Seek { slot, state } => {},
        InsertPhase::Offset { slot, state, offset } => {
            let bytes = le_bytes(offset as int, 8);
            lemma_number_bytes(offset);
            lemma_core_appended::<T, C>(d, disk, tuples, ScratchFile::Offsets, bytes);
            let n = tuples.len() as int;
            assert(offsets_file(after).subrange(8 * n, 8 * n + 8) =~= bytes);
            assert(after.files[d.slots_file()] == disk.files[d.slots_file()]);
        },
        InsertPhase::Record { slot, state } => {
            let enc = C::encode_model(i.tuple)->Ok_0;
            lemma_number_bytes(enc.len() as u64);
            if tuples_file(disk).len() + i.record.len() <= u64::MAX {
                lemma_core_appended::<T, C>(d, disk, tuples, ScratchFile::Tuples, i.record);
                let n = tuples.len() as int;
                let off = offset_of(disk, n);
                let named = tuples.push(i.tuple);
                assert(tuples_file(after).subrange(off, off + 8 + enc.len()) =~= i.record);
                assert(after.files[d.slots_file()] == disk.files[d.slots_file()]);
                assert forall|id: int| 0 <= id < named.len() implies #[trigger] record_there::<T, C>(
                    after,
                    id,
                    named[id],
                ) by {
                    if id < tuples.len() {
                        assert(record_there::<T, C>(after, id, tuples[id]));
                    } else {
                        assert(offset_of(after, n) == off);
                    }
                }
            }
        },
        InsertPhase::Slot { slot, state } => {
            lemma_insert_done::<T, C>(d, disk, tuples, i, slot, state);
        },
    }
}

/// Once its slot is written, the tuple is in the table.
proof fn lemma_insert_done<T: StateTuple, C: StateCodec<T>>(
    d: DiskStateStore,
    disk: Disk,
    tuples: Seq<T::M>,
    i: InsertM<T::M>,
    slot: u64,
    state: StateId,
)
    requires
        inserting_sound::<T, C>(d, disk, tuples, i),
        i.phase == (InsertPhase::Slot { slot, state }),
    ensures
        ({
            let (after, e) = disk.perform(i.action_model(d));
            &&& e is Done
            &&& disk_holds::<T, C>(
                DiskStateStore { len: (d.len + 1) as u64, ..d },
                after,
                tuples.push(i.tuple),
            )
        }),
{
    let (after, e) = disk.perform(i.action_model(d));
    let slots = file_slots(disk, d.slots_file(), d.slot_count as int);
    let entry = Slot { hash: i.hash, id_plus_one: (d.len + 1) as u64 };
    let named = tuples.push(i.tuple);
    let hashes = hashes_of::<T>(tuples);
    let more_hashes = hashes_of::<T>(named);
    let n = tuples.len() as int;
    lemma_slot_written(disk.files[d.slots_file()], d.slot_count as int, slot as int, entry);
    assert(table_sound(slots, more_hashes)) by {
        assert forall|p: int|
            0 <= p < slots.len() && (
            #[trigger] slots[p]).id_plus_one != 0 implies slots[p].id_plus_one
            <= more_hashes.len() && slots[p].hash == more_hashes[slots[p].id_plus_one - 1] by {
            assert(slots[p].hash == hashes[slots[p].id_plus_one - 1]);
        }
    }
    assert(!table_has(slots, n)) by {
        if table_has(slots, n) {
            let p = choose|p: int|
                0 <= p < slots.len() && (#[trigger] slots[p]).id_plus_one == n + 1;
            assert(slots[p].id_plus_one <= hashes.len());
        }
    }
    let k = choose|k: int|
        0 <= k < slots.len() && #[trigger] probe_slot(i.hash, slots.len() as u64, k) == slot
            && taken_before(slots, i.hash, k);
    assert(more_hashes[n] == i.hash);
    lemma_insert_slot(slots, more_hashes, n, k);
    let after_slots = file_slots(after, d.slots_file(), d.slot_count as int);
    assert(after_slots == slots.update(slot as int, entry));
    assert(after.files[ScratchFile::Tuples] == disk.files[ScratchFile::Tuples]);
    assert(after.files[ScratchFile::Offsets] == disk.files[ScratchFile::Offsets]);
    assert forall|id: int| 0 <= id < named.len() implies #[trigger] record_there::<T, C>(
        after,
        id,
        named[id],
    ) by {
        assert(record_there::<T, C>(disk, id, named[id]));
    }
    assert forall|id: int| 0 <= id < named.len() implies #[trigger] table_has(
        after_slots,
        id,
    ) by {
        if id < n {
            assert(table_has(slots, id));
        }
    }
    assert(named.no_duplicates()) by {
        assert forall|x: int, y: int|
            0 <= x < named.len() && 0 <= y < named.len() && x != y implies named[x]
            != named[y] by {
            if x == n {
                assert(tuples[y] != i.tuple);
            } else if y == n {
                assert(tuples[x] != i.tuple);
            }
        }
    }
}

/// Naming a tuple with storage that works, for `n` answers.
pub open spec fn drive_insert<T: StateTuple, C: StateCodec<T>>(
    d: DiskStateStore,
    disk: Disk,
    i: InsertM<T::M>,
    n: nat,
) -> (DiskStateStore, Disk, InsertedM<T::M>)
    decreases n,
{
    if n == 0 {
        (d, disk, InsertedM::More(i))
    } else {
        let (after, e) = disk.perform(i.action_model(d));
        let (d1, r) = insert_next_model::<T, C>(d, i, e);
        match r {
            InsertedM::More(next) => drive_insert::<T, C>(d1, after, next, (n - 1) as nat),
            _ => (d1, after, r),
        }
    }
}

proof fn lemma_drive_insert<T: StateTuple, C: StateCodec<T>>(
    d: DiskStateStore,
    disk: Disk,
    tuples: Seq<T::M>,
    i: InsertM<T::M>,
) -> (n: nat)
    requires
        codec_exact::<T, C>(),
        inserting_sound::<T, C>(d, disk, tuples, i),
        able::<T, C>(disk, tuples, i),
    ensures
        ({
            let (d1, after, r) = drive_insert::<T, C>(d, disk, i, n);
            let named = with_tuple(tuples, i.tuple);
            r matches InsertedM::Done(id) && disk_holds::<T, C>(d1, after, named) && id
                < named.len() && named[id as int] == i.tuple
        }),
    decreases inserting_stage(i.phase), inserting_rank(d, i.phase),
{
    lemma_inserting::<T, C>(d, disk, tuples, i);
    let (after, e) = disk.perform(i.action_model(d));
    let (d1, r) = insert_next_model::<T, C>(d, i, e);
    match r {
        InsertedM::More(next) => {
            let m = lemma_drive_insert::<T, C>(d1, after, tuples, next);
            assert(drive_insert::<T, C>(d, disk, i, m + 1) == drive_insert::<T, C>(
                d1,
                after,
                next,
                m,
            ));
            m + 1
        },
        _ => {
            assert(drive_insert::<T, C>(d, disk, i, 1) == (d1, after, r));
            1
        },
    }
}

/// As long as storage works, naming a tuple ends with the id under which it is
/// known: the one it already had, or the next one. Ids that were given out stay,
/// whether or not the table was made larger on the way.
pub proof fn law_disk_names_tuples<T: StateTuple, C: StateCodec<T>>(
    d: DiskStateStore,
    disk: Disk,
    tuples: Seq<T::M>,
    tuple: T::M,
) -> (n: nat)
    requires
        codec_exact::<T, C>(),
        disk_holds::<T, C>(d, disk, tuples),
        can_name::<T, C>(disk, tuples, tuple),
    ensures
        ({
            let (d1, after, r) = drive_insert::<T, C>(
                d,
                disk,
                insert_begin_model::<T>(d, tuple),
                n,
            );
            let named = with_tuple(tuples, tuple);
            r matches InsertedM::Done(id) && disk_holds::<T, C>(d1, after, named) && id
                < named.len() && named[id as int] == tuple
        }),
{
    lemma_look_begin::<T, C>(d, disk, tuples, tuple);
    lemma_drive_insert::<T, C>(d, disk, tuples, insert_begin_model::<T>(d, tuple))
}

/// Reading a tuple with storage that works, for `n` answers.
pub open spec fn drive_resolve(disk: Disk, r: Resolving, n: nat) -> (Disk, Resolved, EventM)
    decreases n,
{
    let (after, e) = disk.perform(r.action_model());
    if n == 0 {
        (after, r.next_model(e), e)
    } else {
        match r.next_model(e) {
            Resolved::More(next) => drive_resolve(after, next, (n - 1) as nat),
            done => (after, done, e),
        }
    }
}

proof fn lemma_drive_resolve<T: StateTuple, C: StateCodec<T>>(
    disk: Disk,
    tuples: Seq<T::M>,
    id: int,
    r: Resolving,
) -> (n: nat)
    requires
        records_hold::<T, C>(disk, tuples),
        tuples.len() <= NO_STATE_ID,
        resolving_sound::<T, C>(disk, tuples, id, r),
    ensures
        ({
            let (after, done, e) = drive_resolve(disk, r, n);
            &&& after == disk
            &&& done is Got
            &&& e is Bytes
            &&& C::encode_model(tuples[id]) == Ok::<Seq<u8>, StoreFailure>(e->Bytes_0)
        }),
    decreases resolving_rank(r),
{
    lemma_resolving::<T, C>(disk, tuples, id, r);
    let (after, e) = disk.perform(r.action_model());
    match r.next_model(e) {
        Resolved::More(next) => {
            let m = lemma_drive_resolve::<T, C>(after, tuples, id, next);
            assert(drive_resolve(disk, r, m + 1) == drive_resolve(after, next, m));
            m + 1
        },
        _ => { 0 },
    }
}

/// As long as storage works, reading the tuple of a state ends with the tuple
/// that was named under that id, and leaves storage as it is.
pub proof fn law_disk_resolves_tuples<T: StateTuple, C: StateCodec<T>>(
    d: DiskStateStore,
    disk: Disk,
    tuples: Seq<T::M>,
    id: StateId,
) -> (n: nat)
    requires
        codec_exact::<T, C>(),
        disk_holds::<T, C>(d, disk, tuples),
        id < tuples.len(),
    ensures
        resolve_begin_model(d, id) is Ok,
        ({
            let (after, done, e) = drive_resolve(disk, resolve_begin_model(d, id)->Ok_0, n);
            &&& after == disk
            &&& done is Got
            &&& e is Bytes
            &&& C::decode_model(e->Bytes_0) == Ok::<T::M, StoreFailure>(tuples[id as int])
        }),
{
    lemma_drive_resolve::<T, C>(disk, tuples, id as int, Resolving::Offset { id })
}

} // verus!
