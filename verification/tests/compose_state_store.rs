//! The table of state pairs, in memory and on scratch storage.

use rustfst::compose::accounting::{
    bytes_for, estimated_memory_bytes, initial_slot_count, needs_growth,
    prospective_hash_capacity, prospective_reverse_capacity, state_id_for_len,
};
use rustfst::compose::compose_state_store::{ComposeStateStore, ComposeStateStoreConfig, Reply};
use rustfst::compose::disk_store::{DiskStateStore, Growing, InsertPhase, Inserted, Inserting};
use rustfst::compose::failure::{ScratchStep, StoreError, StoreFailure};
use rustfst::compose::memory_store::{room_for_one, within_cap, MemoryStateStore};
use rustfst::compose::scratch::{
    decode_number, decode_slot, encode_number, encode_slot, Action, Event, ScratchFile, Slot,
};
use rustfst::compose::slots::{first_slot, following_slot};
use rustfst::compose::tuple::{
    Bytes, ComposeStateTuple, IntegerFilterState, SerializableCodec, StateCodec, StateTuple,
};
use rustfst::fx_hasher::FxHasher;
use std::hash::Hasher;
use std::io::{Read, Seek, SeekFrom, Write};
use std::path::{Path, PathBuf};
use tempfile::{NamedTempFile, TempDir};

type Tuple = ComposeStateTuple;

/// A store together with the scratch directory it works on.
struct Driven<T, C> {
    store: ComposeStateStore<T, C>,
    config: ComposeStateStoreConfig,
    scratch: Option<TempDir>,
    files: Vec<(ScratchFile, NamedTempFile)>,
    storage_error: Option<String>,
}

impl<T: StateTuple, C: StateCodec<T>> Driven<T, C> {
    fn new(memory_cap_bytes: u64, parent: &Path) -> Self {
        let config =
            ComposeStateStoreConfig::new(memory_cap_bytes, parent.to_str().unwrap().to_string());
        Driven {
            store: ComposeStateStore::spillable(&config),
            config,
            scratch: None,
            files: Vec::new(),
            storage_error: None,
        }
    }

    fn file(&mut self, file: ScratchFile) -> std::io::Result<&mut NamedTempFile> {
        self.files
            .iter_mut()
            .find(|f| f.0 == file)
            .map(|f| &mut f.1)
            .ok_or_else(|| std::io::Error::from(std::io::ErrorKind::NotFound))
    }

    fn perform(&mut self, action: Action) -> std::io::Result<Event> {
        match action {
            Action::CreateScratch => {
                let made = tempfile::Builder::new()
                    .prefix("compose-state-")
                    .tempdir_in(&self.config.scratch_dir)?;
                self.scratch = Some(made);
            }
            Action::DiscardScratch => {
                self.files.clear();
                self.scratch = None;
            }
            Action::Create { file } => {
                let made = NamedTempFile::new_in(self.scratch.as_ref().unwrap().path())?;
                self.files.push((file, made));
            }
            Action::SetLen { file, len } => self.file(file)?.as_file().set_len(len)?,
            Action::End { file } => {
                return Ok(Event::Offset(self.file(file)?.seek(SeekFrom::End(0))?));
            }
            Action::Read { file, at, len } => {
                let mut bytes = vec![0; len as usize];
                let file = self.file(file)?;
                file.seek(SeekFrom::Start(at))?;
                file.read_exact(&mut bytes)?;
                return Ok(Event::Bytes(bytes));
            }
            Action::Write { file, at, bytes } => {
                let file = self.file(file)?;
                file.seek(SeekFrom::Start(at))?;
                file.write_all(&bytes)?;
            }
            Action::Append { file, bytes } => {
                let file = self.file(file)?;
                file.seek(SeekFrom::End(0))?;
                file.write_all(&bytes)?;
            }
            Action::Sync { file } => self.file(file)?.as_file().sync_all()?,
            Action::Flush { file } => self.file(file)?.flush()?,
            Action::Remove { file } => self.files.retain(|f| f.0 != file),
        }
        Ok(Event::Done)
    }

    fn run(&mut self, first: Reply<T>) -> Reply<T> {
        let mut reply = first;
        while let Reply::Ask(action) = reply {
            let event = match self.perform(action) {
                Ok(event) => event,
                Err(e) => {
                    self.storage_error = Some(e.to_string());
                    Event::Failed
                }
            };
            reply = self.store.resume(&event);
        }
        reply
    }

    fn intern(&mut self, tuple: T) -> Result<u32, StoreError> {
        let first = self.store.intern(tuple);
        match self.run(first) {
            Reply::State(id) => Ok(id),
            Reply::Error(e) => Err(e),
            Reply::Ask(_) | Reply::Tuple(_) => unreachable!("not an answer to this request"),
        }
    }

    fn resolve(&mut self, state: u32) -> Result<T, StoreError> {
        let first = self.store.resolve(state);
        match self.run(first) {
            Reply::Tuple(tuple) => Ok(tuple),
            Reply::Error(e) => Err(e),
            Reply::Ask(_) | Reply::State(_) => unreachable!("not an answer to this request"),
        }
    }

    fn is_spilled(&self) -> bool {
        self.store.is_spilled()
    }

    fn scratch_path(&self) -> Option<PathBuf> {
        self.scratch.as_ref().map(|dir| dir.path().to_path_buf())
    }
}

fn tuple(filter: u32, left: u32, right: u32) -> Tuple {
    ComposeStateTuple { fs: IntegerFilterState::new(filter), s1: left, s2: right }
}

#[derive(Clone, Debug, Eq, PartialEq)]
struct CollidingTuple(u64);

impl StateTuple for CollidingTuple {
    type M = u64;

    fn model(&self) -> u64 {
        unreachable!("a mathematical value is never computed")
    }

    fn hash_model(_: u64) -> u64 {
        unreachable!("a mathematical value is never computed")
    }

    fn same(&self, other: &Self) -> bool {
        self == other
    }

    fn duplicate(&self) -> Self {
        self.clone()
    }

    fn hash_tuple(&self) -> u64 {
        let mut hasher = FxHasher::default();
        hasher.write_u8(0);
        hasher.finish()
    }
}

struct CollidingCodec;

impl StateCodec<CollidingTuple> for CollidingCodec {
    fn encode_model(_: u64) -> Result<Bytes, StoreFailure> {
        unreachable!("a mathematical value is never computed")
    }

    fn decode_model(_: Bytes) -> Result<u64, StoreFailure> {
        unreachable!("a mathematical value is never computed")
    }

    fn encode(tuple: &CollidingTuple) -> Result<Vec<u8>, StoreFailure> {
        Ok(tuple.0.to_le_bytes().to_vec())
    }

    fn decode(bytes: &Vec<u8>) -> Result<CollidingTuple, StoreFailure> {
        if bytes.len() != 8 {
            return Err(StoreFailure::Decoding);
        }
        let mut value = [0; 8];
        value.copy_from_slice(bytes);
        Ok(CollidingTuple(u64::from_le_bytes(value)))
    }
}

struct FailingCodec;

impl StateCodec<CollidingTuple> for FailingCodec {
    fn encode_model(_: u64) -> Result<Bytes, StoreFailure> {
        unreachable!("a mathematical value is never computed")
    }

    fn decode_model(_: Bytes) -> Result<u64, StoreFailure> {
        unreachable!("a mathematical value is never computed")
    }

    fn encode(_: &CollidingTuple) -> Result<Vec<u8>, StoreFailure> {
        Err(StoreFailure::Encoding)
    }

    fn decode(bytes: &Vec<u8>) -> Result<CollidingTuple, StoreFailure> {
        CollidingCodec::decode(bytes)
    }
}

#[test]
fn zero_cap_spills_both_directions_and_preserves_dense_ids() {
    let parent = tempfile::tempdir().unwrap();
    let mut store = Driven::<Tuple, SerializableCodec>::new(0, parent.path());
    let first = tuple(0, 10, 20);
    let second = tuple(1, 11, 21);

    assert_eq!(store.intern(first), Ok(0));
    assert!(store.is_spilled());
    assert_eq!(store.intern(first), Ok(0));
    assert_eq!(store.intern(second), Ok(1));
    assert_eq!(store.resolve(0), Ok(first));
    assert_eq!(store.resolve(1), Ok(second));

    let scratch = store.scratch_path().expect("missing scratch path");
    let shared = std::rc::Rc::new(store);
    let clone = std::rc::Rc::clone(&shared);
    drop(shared);
    assert!(scratch.exists(), "a shared clone still owns the scratch tree");
    drop(clone);
    assert!(!scratch.exists(), "the last owner must remove scratch");
}

#[test]
fn spilled_hash_table_grows_without_changing_ids() {
    let parent = tempfile::tempdir().unwrap();
    let mut store = Driven::<Tuple, SerializableCodec>::new(0, parent.path());
    for state in 0..200 {
        let value = tuple(state % 3, state, state + 1);
        assert_eq!(store.intern(value), Ok(state));
    }
    for state in 0..200 {
        assert_eq!(store.resolve(state), Ok(tuple(state % 3, state, state + 1)));
    }
}

#[test]
fn spilled_hash_table_resolves_true_hash_collisions() {
    let parent = tempfile::tempdir().unwrap();
    let mut store = Driven::<CollidingTuple, CollidingCodec>::new(0, parent.path());

    for state in 0..64_u64 {
        assert_eq!(store.intern(CollidingTuple(state)), Ok(state as u32));
    }
    for state in (0..64_u64).rev() {
        assert_eq!(store.intern(CollidingTuple(state)), Ok(state as u32));
        assert_eq!(store.resolve(state as u32), Ok(CollidingTuple(state)));
    }
}

#[test]
fn migration_presizes_slots_for_resident_population() {
    let parent = tempfile::tempdir().unwrap();
    let mut store = Driven::<Tuple, SerializableCodec>::new(u64::MAX, parent.path());
    for state in 0..100 {
        assert_eq!(store.intern(tuple(0, state, state + 1)), Ok(state));
    }

    match &mut store.store {
        ComposeStateStore::Spillable(inner) => inner.set_memory_cap_bytes(0),
        ComposeStateStore::Memory(_) => unreachable!("test constructed a spillable store"),
    }

    assert_eq!(store.intern(tuple(0, 100, 101)), Ok(100));
    let disk = match &store.store {
        ComposeStateStore::Spillable(inner) => inner.disk().expect("store did not spill"),
        ComposeStateStore::Memory(_) => unreachable!("test constructed a spillable store"),
    };
    assert_eq!(Ok(disk.slot_count), initial_slot_count(100));
    assert_eq!(disk.slot_generation, 0, "migration must not rehash");
    assert_eq!(store.resolve(0), Ok(tuple(0, 0, 1)));
    assert_eq!(store.resolve(100), Ok(tuple(0, 100, 101)));
}

#[test]
fn first_post_spill_error_poisons_store_and_cleans_scratch() {
    let parent = tempfile::tempdir().unwrap();
    let mut store = Driven::<CollidingTuple, FailingCodec>::new(0, parent.path());

    let first_error = store
        .intern(CollidingTuple(1))
        .expect_err("injected first disk insertion must fail");
    assert_eq!(first_error, StoreError::Failed(StoreFailure::Encoding));
    assert!(first_error.message().contains("encoding compose state tuple"));
    let scratch = store.scratch_path().expect("spill did not create scratch");
    assert!(scratch.exists());

    let retry_error = store
        .intern(CollidingTuple(1))
        .expect_err("a failed disk mutation must poison the store");
    assert!(retry_error.message().contains("unusable after an earlier I/O failure"));
    drop(store);
    assert!(!scratch.exists(), "poisoned scratch must be removed on drop");
}

#[test]
fn scratch_read_error_poisoning_prevents_reuse() {
    let parent = tempfile::tempdir().unwrap();
    let mut store = Driven::<CollidingTuple, CollidingCodec>::new(0, parent.path());
    assert_eq!(store.intern(CollidingTuple(1)), Ok(0));

    store
        .file(ScratchFile::Slots { generation: 0 })
        .unwrap()
        .as_file()
        .set_len(0)
        .unwrap();

    let read_error = store
        .intern(CollidingTuple(2))
        .expect_err("truncated slots must produce an I/O error");
    assert!(read_error.message().contains("reading compose hash slot"));
    let poisoned = store
        .resolve(0)
        .expect_err("store must not be reused after scratch I/O failure");
    assert!(poisoned.message().contains("unusable after an earlier I/O failure"));
}

#[test]
fn nonzero_cap_uses_existing_capacity_before_spilling() {
    let parent = tempfile::tempdir().unwrap();
    let two_tuple_cap = estimated_memory_bytes(std::mem::size_of::<Tuple>(), 3, 2).unwrap();
    let mut store = Driven::<Tuple, SerializableCodec>::new(two_tuple_cap, parent.path());
    assert_eq!(store.intern(tuple(0, 0, 0)), Ok(0));
    assert_eq!(store.intern(tuple(0, 1, 1)), Ok(1));
    assert!(
        !store.is_spilled(),
        "an insertion that fits existing hash capacity must stay resident"
    );
    assert_eq!(store.intern(tuple(0, 2, 2)), Ok(2));
    assert!(
        store.is_spilled(),
        "the next real reverse-table growth must cross the exact cap"
    );

    let mut one_byte_short =
        Driven::<Tuple, SerializableCodec>::new(two_tuple_cap - 1, parent.path());
    assert_eq!(one_byte_short.intern(tuple(0, 0, 0)), Ok(0));
    assert_eq!(one_byte_short.intern(tuple(0, 1, 1)), Ok(1));
    assert!(one_byte_short.is_spilled());
}

#[test]
fn invalid_scratch_parent_is_a_fallible_insert_error() {
    let parent = tempfile::tempdir().unwrap();
    let not_a_directory = tempfile::Builder::new()
        .prefix("file")
        .tempfile_in(parent.path())
        .unwrap();
    let mut store = Driven::<Tuple, SerializableCodec>::new(0, not_a_directory.path());

    let error = store
        .intern(tuple(0, 0, 0))
        .expect_err("a file cannot contain compose scratch");
    let message = format!("{}: {}", error.message(), store.storage_error.take().unwrap());
    assert!(message.contains("creating rustfst compose state scratch"));
    assert!(message.contains("file"));
    assert_eq!(parent.path().read_dir().unwrap().count(), 1);

    // Nothing has moved, and a later request tries again.
    assert!(!store.is_spilled());
    store.config.scratch_dir = parent.path().to_str().unwrap().to_string();
    assert_eq!(store.intern(tuple(0, 0, 0)), Ok(0));
    assert!(store.is_spilled());
}

#[test]
fn spillable_store_rejects_op_state_serialization() {
    let store = ComposeStateStore::<Tuple, SerializableCodec>::spillable(
        &ComposeStateStoreConfig::new(0, String::new()),
    );
    let error = store
        .write_binary()
        .expect_err("scratch-backed state cannot use the legacy snapshot format");
    assert_eq!(error, StoreError::NotSerializable);
    assert!(error.message().contains("spillable compose state store"));
}

#[test]
fn a_store_in_memory_is_written_down() {
    let mut store = ComposeStateStore::<Tuple, SerializableCodec>::memory();
    for (id, t) in [tuple(0, 1, 2), tuple(3, 4, 5), tuple(0, 1, 2)].into_iter().enumerate() {
        match store.intern(t) {
            Reply::State(s) => assert_eq!(s, [0, 1, 0][id]),
            other => panic!("unexpected: {other:?}"),
        }
    }
    assert!(!store.is_spilled());
    let bytes = store.write_binary().unwrap();
    assert_eq!(bytes[bytes.len() - 12..], [3, 0, 0, 0, 4, 0, 0, 0, 5, 0, 0, 0]);
    match store.resolve(1) {
        Reply::Tuple(t) => assert_eq!(t, tuple(3, 4, 5)),
        other => panic!("unexpected: {other:?}"),
    }
}

#[test]
fn absent_states_are_reported_in_memory() {
    let parent = tempfile::tempdir().unwrap();
    let mut store = Driven::<Tuple, SerializableCodec>::new(u64::MAX, parent.path());
    assert_eq!(store.intern(tuple(0, 1, 2)), Ok(0));
    let error = store.resolve(1).unwrap_err();
    assert_eq!(error, StoreError::Failed(StoreFailure::StateAbsent { state: 1 }));
    assert_eq!(error.message(), "compose state id 1 is absent");
    // Nothing is wrong with the store.
    assert_eq!(store.resolve(0), Ok(tuple(0, 1, 2)));
}

#[test]
fn absent_states_are_reported_on_scratch_storage() {
    let parent = tempfile::tempdir().unwrap();
    let mut store = Driven::<Tuple, SerializableCodec>::new(0, parent.path());
    assert_eq!(store.intern(tuple(0, 1, 2)), Ok(0));
    let error = store.resolve(5).unwrap_err();
    assert_eq!(error, StoreError::Failed(StoreFailure::StateAbsent { state: 5 }));
}

#[test]
fn answers_that_nobody_asked_for_are_refused() {
    let parent = tempfile::tempdir().unwrap();
    let mut store = Driven::<Tuple, SerializableCodec>::new(0, parent.path());
    match store.store.intern(tuple(0, 1, 2)) {
        Reply::Ask(Action::CreateScratch) => {}
        other => panic!("unexpected: {other:?}"),
    }
    match store.store.resume(&Event::Offset(3)) {
        Reply::Ask(Action::DiscardScratch) | Reply::Error(_) => {}
        other => panic!("unexpected: {other:?}"),
    }
}

#[test]
fn a_failed_move_keeps_the_tables_in_memory() {
    let parent = tempfile::tempdir().unwrap();
    let mut store = Driven::<Tuple, SerializableCodec>::new(u64::MAX, parent.path());
    for state in 0..5 {
        assert_eq!(store.intern(tuple(0, state, 0)), Ok(state));
    }
    match &mut store.store {
        ComposeStateStore::Spillable(inner) => inner.set_memory_cap_bytes(0),
        ComposeStateStore::Memory(_) => unreachable!("test constructed a spillable store"),
    }
    // Storage fails at the third thing asked of it.
    let mut reply = store.store.intern(tuple(0, 9, 9));
    let mut asked = 0;
    while let Reply::Ask(action) = reply {
        asked += 1;
        let event = if asked == 3 {
            Event::Failed
        } else {
            store.perform(action).unwrap()
        };
        reply = store.store.resume(&event);
    }
    assert!(matches!(reply, Reply::Error(StoreError::Failed(StoreFailure::ScratchIo(_)))));
    assert!(!store.is_spilled());
    assert_eq!(store.resolve(4), Ok(tuple(0, 4, 0)));
    assert_eq!(parent.path().read_dir().unwrap().count(), 0);
}

#[test]
fn slots_are_sixteen_bytes() {
    let slot = Slot { hash: 0x0102_0304_0506_0708, id_plus_one: 9 };
    let bytes = encode_slot(slot);
    assert_eq!(bytes, vec![8, 7, 6, 5, 4, 3, 2, 1, 9, 0, 0, 0, 0, 0, 0, 0]);
    assert_eq!(decode_slot(&bytes), slot);
    assert_eq!(encode_number(258), vec![2, 1, 0, 0, 0, 0, 0, 0]);
    assert_eq!(decode_number(&vec![2, 1, 0, 0, 0, 0, 0, 0]), 258);
}

#[test]
fn probing_wraps_around() {
    assert_eq!(first_slot(0x1_0000_0025, 16), 5);
    assert_eq!(following_slot(5, 16), 6);
    assert_eq!(following_slot(15, 16), 0);
}

#[test]
fn tuples_are_twelve_bytes() {
    let bytes = SerializableCodec::encode(&tuple(1, 2, 0x0304)).unwrap();
    assert_eq!(bytes, vec![1, 0, 0, 0, 2, 0, 0, 0, 4, 3, 0, 0]);
    assert_eq!(SerializableCodec::decode(&bytes), Ok(tuple(1, 2, 0x0304)));
    assert_eq!(SerializableCodec::decode(&vec![1, 0]), Err(StoreFailure::Decoding));
    let mut longer = bytes;
    longer.push(7);
    assert_eq!(
        SerializableCodec::decode(&longer),
        Err(StoreFailure::TrailingBytes { count: 1 })
    );
}

#[test]
fn memory_is_accounted_for() {
    // A bucket of the hash table holds a tuple, an id and what the table adds.
    assert_eq!(estimated_memory_bytes(12, 3, 2), Ok(3 * (12 + 4 + 16) + 2 * 12));
    assert_eq!(bytes_for(3, 5), Ok(15));
    assert_eq!(
        estimated_memory_bytes(usize::MAX, 1, 0),
        Err(StoreFailure::AccountingOverflow)
    );
}

#[test]
fn room_is_judged_by_the_charge() {
    assert_eq!(within_cap(12, 3, 2, 120), Ok(true));
    assert_eq!(within_cap(12, 3, 2, 119), Ok(false));
    assert_eq!(within_cap(usize::MAX, 1, 0, 120), Err(StoreFailure::AccountingOverflow));
    assert_eq!(room_for_one(12, 0, 0, 1, 1, 120), Ok(true));
    assert_eq!(room_for_one(12, 3, 3, 2, 2, 120), Ok(false));
}

#[test]
fn room_is_made_within_the_cap() {
    let mut store: MemoryStateStore<Tuple> = MemoryStateStore::new();
    assert_eq!(store.reserve_one_within(0), Ok(false));
    assert_eq!(store.reserve_one_within(u64::MAX), Ok(true));
    assert_eq!(store.len(), 0);
}

#[test]
fn tuples_with_one_hash_are_charged_like_others() {
    let parent = tempfile::tempdir().unwrap();
    let two = estimated_memory_bytes(std::mem::size_of::<CollidingTuple>(), 3, 2).unwrap();
    let mut store = Driven::<CollidingTuple, CollidingCodec>::new(two, parent.path());
    assert_eq!(store.intern(CollidingTuple(5)), Ok(0));
    assert_eq!(store.intern(CollidingTuple(6)), Ok(1));
    assert!(!store.is_spilled());
    assert_eq!(store.intern(CollidingTuple(5)), Ok(0));
    assert_eq!(store.intern(CollidingTuple(7)), Ok(2));
    assert!(store.is_spilled());
    assert_eq!(store.resolve(1), Ok(CollidingTuple(6)));
}

#[test]
fn tuples_with_one_hash_are_told_apart_in_memory() {
    let mut table: MemoryStateStore<CollidingTuple> = MemoryStateStore::new();
    for value in 0..20_u64 {
        assert_eq!(table.find(&CollidingTuple(value)), None);
        assert_eq!(table.add(CollidingTuple(value)), value as u32);
    }
    for value in 0..20_u64 {
        assert_eq!(table.find(&CollidingTuple(value)), Some(value as u32));
    }
    assert_eq!(table.find(&CollidingTuple(20)), None);
}

#[derive(Clone, Debug, Eq, PartialEq)]
struct HashedTuple {
    hash: u64,
    value: u64,
}

impl StateTuple for HashedTuple {
    type M = u64;

    fn model(&self) -> u64 {
        unreachable!("a mathematical value is never computed")
    }

    fn hash_model(_: u64) -> u64 {
        unreachable!("a mathematical value is never computed")
    }

    fn same(&self, other: &Self) -> bool {
        self == other
    }

    fn duplicate(&self) -> Self {
        self.clone()
    }

    fn hash_tuple(&self) -> u64 {
        self.hash
    }
}

#[test]
fn hashes_that_follow_each_other_are_told_apart_in_memory() {
    // The ways that begin at these hashes cross each other, around the end of the range.
    let mut tuples = Vec::new();
    for value in 0..6 {
        for hash in [u64::MAX, 0, u64::MAX - 1, 2] {
            tuples.push(HashedTuple { hash, value });
        }
    }
    let mut table: MemoryStateStore<HashedTuple> = MemoryStateStore::new();
    for (id, named) in tuples.iter().enumerate() {
        assert_eq!(table.find(named), None);
        assert_eq!(table.add(named.clone()), id as u32);
    }
    for (id, named) in tuples.iter().enumerate() {
        assert_eq!(table.find(named), Some(id as u32));
        assert_eq!(table.get(id as u32), Some(named));
    }
    assert_eq!(table.find(&HashedTuple { hash: 0, value: 6 }), None);
    assert_eq!(table.find(&HashedTuple { hash: 1, value: 0 }), None);
}

#[test]
fn entries_in_memory_are_no_larger_than_what_is_charged() {
    // With seven eighths of the places in use, and a byte more for each place.
    let entry = std::mem::size_of::<(u64, u32)>() as u64;
    for (capacity, places) in [(3, 4), (7, 8), (14, 16), (28, 32), (56, 64)] {
        let charged = estimated_memory_bytes(12, capacity, 0).unwrap();
        assert!(places * (entry + 1) + 16 <= charged);
    }
}

#[test]
fn tuples_that_stay_in_memory_need_not_be_written_down() {
    let parent = tempfile::tempdir().unwrap();
    let mut store = Driven::<CollidingTuple, FailingCodec>::new(u64::MAX, parent.path());
    for value in 0..9_u64 {
        assert_eq!(store.intern(CollidingTuple(value)), Ok(value as u32));
    }
    for value in 0..9_u64 {
        assert_eq!(store.intern(CollidingTuple(value)), Ok(value as u32));
        assert_eq!(store.resolve(value as u32), Ok(CollidingTuple(value)));
    }
    assert!(!store.is_spilled());
}

#[test]
fn ids_do_not_depend_on_how_much_fits_into_memory() {
    let mut answers = Vec::new();
    for cap in [0, 100, 1000, u64::MAX] {
        let parent = tempfile::tempdir().unwrap();
        let mut store = Driven::<Tuple, SerializableCodec>::new(cap, parent.path());
        let mut seen = Vec::new();
        for step in 0..60_u32 {
            let named = tuple(0, step % 23, 7 * step % 11);
            let id = store.intern(named).unwrap();
            assert_eq!(store.resolve(id), Ok(named));
            seen.push(id);
        }
        assert_eq!(seen[0..3], [0, 1, 2]);
        answers.push(seen);
    }
    assert_eq!(answers[0], answers[1]);
    assert_eq!(answers[0], answers[2]);
    assert_eq!(answers[0], answers[3]);
}

#[test]
fn the_larger_slots_are_in_use_before_the_old_ones_are_removed() {
    let mut disk = DiskStateStore { slot_count: 16, slot_generation: 0, len: 11 };
    let grown = DiskStateStore { slot_count: 32, slot_generation: 1, len: 11 };
    let inserting = Inserting {
        tuple: tuple(0, 1, 2),
        hash: tuple(0, 1, 2).hash_tuple(),
        record: Vec::new(),
        phase: InsertPhase::Grow(Growing::Sync),
    };
    let next = match inserting.next::<SerializableCodec>(&mut disk, &Event::Done) {
        Inserted::More(next) => next,
        _ => unreachable!("the old slots are still to be removed"),
    };
    assert_eq!(disk, grown);
    match next.action(&disk) {
        Action::Remove { file } => assert_eq!(file, ScratchFile::Slots { generation: 0 }),
        _ => unreachable!("the old slots are still to be removed"),
    }
    match next.next::<SerializableCodec>(&mut disk, &Event::Failed) {
        Inserted::Failed(f) => {
            assert_eq!(f, StoreFailure::ScratchIo(ScratchStep::RemovingSlots));
        }
        _ => unreachable!("the failure must be told"),
    }
    assert_eq!(disk, grown);
}

#[test]
fn capacities_grow_in_steps() {
    assert_eq!(prospective_hash_capacity(2, 3), 3);
    assert_eq!(prospective_hash_capacity(3, 3), 7);
    assert_eq!(prospective_hash_capacity(7, 7), 15);
    assert_eq!(prospective_hash_capacity(0, 0), 3);
    assert_eq!(prospective_reverse_capacity(1, 4), 4);
    assert_eq!(prospective_reverse_capacity(4, 4), 5);
}

#[test]
fn slot_tables_are_at_most_seven_tenths_full() {
    let count = initial_slot_count(100).unwrap();
    assert_eq!(count, 256);
    // 179 of 256 slots may be taken.
    assert_eq!(needs_growth(178, count), Ok(false));
    assert_eq!(needs_growth(179, count), Ok(true));
    assert_eq!(needs_growth(u64::MAX, count), Err(StoreFailure::LoadOverflow));
    assert_eq!(initial_slot_count(0), Ok(16));
}

#[test]
fn ids_end_before_the_reserved_one() {
    assert_eq!(state_id_for_len(0), Ok(0));
    assert_eq!(state_id_for_len(u32::MAX as u64 - 1), Ok(u32::MAX - 1));
    assert_eq!(
        state_id_for_len(u32::MAX as u64),
        Err(StoreFailure::StateCountReachedReserved)
    );
    assert_eq!(
        state_id_for_len(u32::MAX as u64 + 1),
        Err(StoreFailure::StateCountExceedsIds)
    );
}

#[test]
fn errors_say_what_was_being_done() {
    let failure = StoreFailure::ScratchIo(ScratchStep::ReadingSlot);
    assert_eq!(ScratchStep::ReadingSlot.message(), "reading compose hash slot");
    assert!(failure.message().contains("reading compose hash slot"));
    let unusable = StoreError::Unusable(failure).message();
    assert_eq!(
        unusable,
        format!(
            "compose state scratch is unusable after an earlier I/O failure: {}",
            failure.message()
        )
    );
}
