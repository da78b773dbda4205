//! The table of state pairs of a composition, which moves to scratch storage when
//! it becomes too large.

use crate::bytes::{le_bytes, push_all, push_le};
use crate::compose::accounting::{next_id_model, state_id_for_len};
use crate::compose::disk_store::{
    insert_begin_model, insert_next_model, resolve_begin, resolve_begin_model, DiskStateStore,
    InsertM, Inserted, InsertedM, Inserting, Resolved, Resolving,
};
use crate::compose::failure::{StoreError, StoreFailure};
use crate::compose::memory_store::{possible_verdict, MemoryStateStore};
use crate::compose::migration::{
    migrate_begin_model, migrate_next_model, MigrateM, Migrated, MigratedM, Migrating,
};
use crate::compose::scratch::{Action, ActionM, Event, EventM};
use crate::compose::tuple::{StateCodec, StateTuple};
use crate::fst::tr::StateId;
use std::marker::PhantomData;
use vstd::prelude::*;

verus! {

/// Scratch and resident-memory policy for a table of state pairs.
#[derive(Debug)]
pub struct ComposeStateStoreConfig {
    /// Accounting ceiling for the in-memory tables.
    ///
    /// The accounting is conservative for the state tuples of a composition, but counts
    /// neither heap data that a tuple owns nor the short time during which both
    /// tables exist. Callers that need a process-wide allowance should leave some
    /// headroom.
    pub memory_cap_bytes: u64,
    /// Parent beneath which a scratch directory is created.
    pub scratch_dir: String,
}

impl ComposeStateStoreConfig {
    pub fn new(memory_cap_bytes: u64, scratch_dir: String) -> (r: Self)
        ensures
            r.memory_cap_bytes == memory_cap_bytes,
            r.scratch_dir == scratch_dir,
    {
        ComposeStateStoreConfig { memory_cap_bytes, scratch_dir }
    }
}

/// What the store says to a request or an answer.
#[derive(Debug)]
pub enum Reply<T> {
    /// Do this and hand the answer in.
    Ask(Action),
    /// The tuple has this id.
    State(StateId),
    /// The state has this tuple.
    Tuple(T),
    Error(StoreError),
}

/// The mathematical value of a reply.
pub enum ReplyM<M> {
    Ask(ActionM),
    State(StateId),
    Tuple(M),
    Error(StoreError),
}

impl<T: StateTuple> Reply<T> {
    pub open spec fn model(&self) -> ReplyM<T::M> {
        match *self {
            Reply::Ask(a) => ReplyM::Ask(a.model()),
            Reply::State(id) => ReplyM::State(id),
            Reply::Tuple(t) => ReplyM::Tuple(t.model()),
            Reply::Error(e) => ReplyM::Error(e),
        }
    }
}

/// What the store is waiting for.
#[derive(Debug)]
pub enum Pending<T> {
    Idle,
    /// The move to scratch storage, after which the tuple is named.
    Spill { tuple: T, migrating: Migrating<T> },
    Insert(Inserting<T>),
    Resolve { state: StateId, resolving: Resolving },
}

/// The mathematical value of what the store is waiting for.
pub enum PendingM<M> {
    Idle,
    Spill { tuple: M, migrating: MigrateM<M> },
    Insert(InsertM<M>),
    Resolve { state: StateId, resolving: Resolving },
}

impl<T: StateTuple> Pending<T> {
    pub open spec fn model(&self) -> PendingM<T::M> {
        match *self {
            Pending::Idle => PendingM::Idle,
            Pending::Spill { tuple, migrating } => PendingM::Spill {
                tuple: tuple.model(),
                migrating: migrating.model(),
            },
            Pending::Insert(i) => PendingM::Insert(i.model()),
            Pending::Resolve { state, resolving } => PendingM::Resolve { state, resolving },
        }
    }
}

/// Where the tuples are.
pub enum BackingM<M> {
    /// In memory, in the order of their ids.
    Memory(Seq<M>),
    /// On scratch storage.
    Disk(DiskStateStore),
}

/// The mathematical value of a store.
#[verifier::ext_equal]
pub struct StoreM<M> {
    pub cap: u64,
    pub backing: BackingM<M>,
    pub last_resolved: Option<(StateId, M)>,
    pub poisoned: Option<StoreFailure>,
    pub pending: PendingM<M>,
}

impl<M> StoreM<M> {
    /// An empty store in memory.
    pub open spec fn empty(cap: u64) -> Self {
        StoreM {
            cap,
            backing: BackingM::Memory(Seq::empty()),
            last_resolved: None,
            poisoned: None,
            pending: PendingM::Idle,
        }
    }

    /// The store, waiting for something else.
    pub open spec fn awaiting(self, pending: PendingM<M>) -> Self {
        StoreM { pending, ..self }
    }

    /// The store after a failure on scratch storage.
    pub open spec fn failed(self, f: StoreFailure) -> (Self, ReplyM<M>) {
        (
            StoreM { poisoned: Some(f), pending: PendingM::Idle, ..self },
            ReplyM::Error(StoreError::Failed(f)),
        )
    }

    /// What it waits for fits where the tuples are.
    pub open spec fn fits(self) -> bool {
        match self.pending {
            PendingM::Idle => true,
            PendingM::Spill { tuple, migrating } => self.backing matches BackingM::Memory(tuples)
                && migrating.within(tuples.len() as int),
            PendingM::Insert(i) => self.backing matches BackingM::Disk(d) && i.phase.within(d),
            PendingM::Resolve { state, resolving } => self.backing is Disk,
        }
    }
}

/// Beginning to name a tuple on scratch storage.
pub open spec fn insert_on_disk<T: StateTuple>(
    s: StoreM<T::M>,
    d: DiskStateStore,
    tuple: T::M,
) -> (StoreM<T::M>, ReplyM<T::M>) {
    let i = insert_begin_model::<T>(d, tuple);
    (
        StoreM { backing: BackingM::Disk(d), pending: PendingM::Insert(i), ..s },
        ReplyM::Ask(i.action_model(d)),
    )
}

/// A new tuple comes to a store in memory, and `verdict` says whether there is
/// room for it.
pub open spec fn take_in_model<T: StateTuple>(
    s: StoreM<T::M>,
    tuple: T::M,
    verdict: Result<bool, StoreFailure>,
) -> (StoreM<T::M>, ReplyM<T::M>) {
    let tuples = s.backing->Memory_0;
    match verdict {
        Err(f) => (s, ReplyM::Error(StoreError::Failed(f))),
        Ok(false) => (
            s.awaiting(PendingM::Spill { tuple, migrating: migrate_begin_model() }),
            ReplyM::Ask(migrate_begin_model::<T::M>().action_model()),
        ),
        Ok(true) => match next_id_model(tuples.len() as int) {
            Err(f) => (s, ReplyM::Error(StoreError::Failed(f))),
            Ok(id) => (
                StoreM { backing: BackingM::Memory(tuples.push(tuple)), ..s },
                ReplyM::State(id),
            ),
        },
    }
}

/// Whether `verdict` may be what the tables in memory answer when a tuple is to be
/// named; if the tuple is known, or the tables are not in use, they are not asked.
pub open spec fn verdict_fits<T: StateTuple>(
    s: StoreM<T::M>,
    tuple: T::M,
    verdict: Result<bool, StoreFailure>,
) -> bool {
    s.poisoned is None ==> (s.backing matches BackingM::Memory(tuples) ==> !tuples.contains(tuple)
        ==> possible_verdict::<T>(tuples, s.cap, verdict))
}

/// A tuple is to be named. `verdict` says whether there is room in memory, should
/// it matter.
pub open spec fn intern_model<T: StateTuple>(
    s: StoreM<T::M>,
    tuple: T::M,
    verdict: Result<bool, StoreFailure>,
) -> (StoreM<T::M>, ReplyM<T::M>) {
    match s.poisoned {
        Some(f) => (s, ReplyM::Error(StoreError::Unusable(f))),
        None => match s.backing {
            BackingM::Disk(d) => insert_on_disk::<T>(s, d, tuple),
            BackingM::Memory(tuples) => if tuples.contains(tuple) {
                (s, ReplyM::State(tuples.index_of(tuple) as StateId))
            } else {
                take_in_model::<T>(s, tuple, verdict)
            },
        },
    }
}

/// The tuple of a state is asked for.
pub open spec fn resolve_model<T: StateTuple>(s: StoreM<T::M>, state: StateId) -> (
    StoreM<T::M>,
    ReplyM<T::M>,
) {
    match s.poisoned {
        Some(f) => (s, ReplyM::Error(StoreError::Unusable(f))),
        None => if s.last_resolved matches Some(last) && last.0 == state {
            (s, ReplyM::Tuple((s.last_resolved->0).1))
        } else {
            match s.backing {
                BackingM::Disk(d) => match resolve_begin_model(d, state) {
                    Err(f) => s.failed(f),
                    Ok(resolving) => (
                        s.awaiting(PendingM::Resolve { state, resolving }),
                        ReplyM::Ask(resolving.action_model()),
                    ),
                },
                BackingM::Memory(tuples) => if state < tuples.len() {
                    (s, ReplyM::Tuple(tuples[state as int]))
                } else {
                    (
                        s,
                        ReplyM::Error(StoreError::Failed(StoreFailure::StateAbsent { state })),
                    )
                },
            }
        },
    }
}

/// An answer comes in.
pub open spec fn resume_model<T: StateTuple, C: StateCodec<T>>(s: StoreM<T::M>, e: EventM) -> (
    StoreM<T::M>,
    ReplyM<T::M>,
) {
    match s.pending {
        PendingM::Idle => (s, ReplyM::Error(StoreError::Failed(StoreFailure::UnexpectedAnswer))),
        PendingM::Spill { tuple, migrating } => match migrate_next_model::<T, C>(
            migrating,
            s.backing->Memory_0,
            e,
        ) {
            MigratedM::Failed(f) => (
                s.awaiting(PendingM::Idle),
                ReplyM::Error(StoreError::Failed(f)),
            ),
            MigratedM::More(m) => (
                s.awaiting(PendingM::Spill { tuple, migrating: m }),
                ReplyM::Ask(m.action_model()),
            ),
            MigratedM::Done(d) => insert_on_disk::<T>(s, d, tuple),
        },
        PendingM::Insert(i) => {
            let (d, r) = insert_next_model::<T, C>(s.backing->Disk_0, i, e);
            let moved = StoreM { backing: BackingM::Disk(d), ..s };
            match r {
                InsertedM::Failed(f) => moved.failed(f),
                InsertedM::More(i) => (
                    moved.awaiting(PendingM::Insert(i)),
                    ReplyM::Ask(i.action_model(d)),
                ),
                InsertedM::Done(id) => (moved.awaiting(PendingM::Idle), ReplyM::State(id)),
            }
        },
        PendingM::Resolve { state, resolving } => match resolving.next_model(e) {
            Resolved::Failed(f) => s.failed(f),
            Resolved::More(resolving) => (
                s.awaiting(PendingM::Resolve { state, resolving }),
                ReplyM::Ask(resolving.action_model()),
            ),
            Resolved::Got => match C::decode_model(e->Bytes_0) {
                Err(f) => s.failed(f),
                Ok(tuple) => (
                    StoreM {
                        last_resolved: Some((state, tuple)),
                        pending: PendingM::Idle,
                        ..s
                    },
                    ReplyM::Tuple(tuple),
                ),
            },
        },
    }
}

/// A store that begins in memory and moves to scratch storage when its tables
/// would become larger than allowed.
pub struct SpillableStateStore<T, C> {
    memory_cap_bytes: u64,
    /// Empty once the tuples have moved.
    memory: MemoryStateStore<T>,
    disk: Option<DiskStateStore>,
    last_resolved: Option<(StateId, T)>,
    poisoned: Option<StoreFailure>,
    pending: Pending<T>,
    codec: PhantomData<C>,
}

impl<T: StateTuple, C: StateCodec<T>> SpillableStateStore<T, C> {
    pub closed spec fn model(&self) -> StoreM<T::M> {
        StoreM {
            cap: self.memory_cap_bytes,
            backing: match self.disk {
                Some(d) => BackingM::Disk(d),
                None => BackingM::Memory(self.memory.tuples()),
            },
            last_resolved: match self.last_resolved {
                Some(r) => Some((r.0, r.1.model())),
                None => None,
            },
            poisoned: self.poisoned,
            pending: self.pending.model(),
        }
    }

    pub closed spec fn inv(&self) -> bool {
        &&& self.memory.inv()
        &&& self.disk matches Some(d) ==> d.sized()
        &&& self.model().fits()
    }

    /// An empty store in memory.
    pub fn new(memory_cap_bytes: u64) -> (r: Self)
        ensures
            r.inv(),
            r.model() == StoreM::<T::M>::empty(memory_cap_bytes),
    {
        SpillableStateStore {
            memory_cap_bytes,
            memory: MemoryStateStore::new(),
            disk: None,
            last_resolved: None,
            poisoned: None,
            pending: Pending::Idle,
            codec: PhantomData,
        }
    }

    /// Whether the tuples are on scratch storage.
    pub fn is_spilled(&self) -> (r: bool)
        ensures
            r == (self.model().backing is Disk),
    {
        self.disk.is_some()
    }

    /// The table on scratch storage, if the tuples are there.
    pub fn disk(&self) -> (r: Option<DiskStateStore>)
        ensures
            match r {
                Some(d) => self.model().backing == BackingM::<T::M>::Disk(d),
                None => self.model().backing is Memory,
            },
    {
        self.disk
    }

    /// Changes what the tables in memory may take.
    pub fn set_memory_cap_bytes(&mut self, memory_cap_bytes: u64)
        ensures
            final(self).inv() == old(self).inv(),
            final(self).model() == (StoreM { cap: memory_cap_bytes, ..old(self).model() }),
    {
        self.memory_cap_bytes = memory_cap_bytes;
    }

    fn insert_on_disk(&mut self, d: DiskStateStore, tuple: T) -> (r: Reply<T>)
        requires
            old(self).memory.inv(),
            d.sized(),
        ensures
            final(self).inv(),
            (final(self).model(), r.model()) == insert_on_disk::<T>(
                old(self).model(),
                d,
                tuple.model(),
            ),
    {
        let i: Inserting<T> = Inserting::begin(&d, tuple);
        let action: Action = i.action(&d);
        self.disk = Some(d);
        self.pending = Pending::Insert(i);
        Reply::Ask(action)
    }

    /// Takes a new tuple into a store in memory, given whether there is room for it.
    pub fn take_in(&mut self, tuple: T, verdict: Result<bool, StoreFailure>) -> (r: Reply<T>)
        requires
            old(self).inv(),
            old(self).model().pending is Idle,
            old(self).model().backing matches BackingM::Memory(tuples) && !tuples.contains(
                tuple.model(),
            ),
        ensures
            final(self).inv(),
            (final(self).model(), r.model()) == take_in_model::<T>(
                old(self).model(),
                tuple.model(),
                verdict,
            ),
    {
        match verdict {
            Err(f) => Reply::Error(StoreError::Failed(f)),
            Ok(fits) => {
                if !fits {
                    let migrating: Migrating<T> = Migrating::begin();
                    let action: Action = migrating.action();
                    self.pending = Pending::Spill { tuple, migrating };
                    return Reply::Ask(action);
                }
                proof {
                    self.memory.lemma_inv();
                }
                match state_id_for_len(self.memory.len() as u64) {
                    Err(f) => Reply::Error(StoreError::Failed(f)),
                    Ok(id) => {
                        let _ = self.memory.add(tuple);
                        Reply::State(id)
                    },
                }
            },
        }
    }

    /// Asks for the id of a tuple, which is given the next one if it has none.
    ///
    /// Whether a new tuple still fits into memory is up to how much room the
    /// tables have and what is charged for it; `take_in` says what follows from
    /// either verdict.
    pub fn intern(&mut self, tuple: T) -> (r: Reply<T>)
        requires
            old(self).inv(),
            old(self).model().pending is Idle,
        ensures
            final(self).inv(),
            exists|verdict: Result<bool, StoreFailure>|
                (final(self).model(), r.model()) == #[trigger] intern_model::<T>(
                    old(self).model(),
                    tuple.model(),
                    verdict,
                ) && verdict_fits::<T>(old(self).model(), tuple.model(), verdict) && (verdict == Ok::<
                    bool,
                    StoreFailure,
                >(true) ==> old(self).model().cap > 0),
    {
        let ghost before = self.model();
        let ghost m = tuple.model();
        let ghost no_verdict: Result<bool, StoreFailure> = Ok(false);
        if let Some(f) = self.poisoned {
            assert((self.model(), ReplyM::<T::M>::Error(StoreError::Unusable(f))) == intern_model::<
                T,
            >(before, m, no_verdict));
            return Reply::Error(StoreError::Unusable(f));
        }
        if let Some(d) = self.disk {
            let r = self.insert_on_disk(d, tuple);
            assert((self.model(), r.model()) == intern_model::<T>(before, m, no_verdict));
            return r;
        }
        if let Some(id) = self.memory.find(&tuple) {
            proof {
                self.memory.lemma_inv();
                let tuples = self.memory.tuples();
                assert(tuples.contains(m)) by {
                    assert(tuples[id as int] == m);
                }
                let i = tuples.index_of(m);
                assert(tuples[i] == m);
                assert(i == id);
                assert((self.model(), ReplyM::<T::M>::State(id)) == intern_model::<T>(
                    before,
                    m,
                    no_verdict,
                ));
            }
            return Reply::State(id);
        }
        let verdict: Result<bool, StoreFailure> = self.memory.reserve_one_within(
            self.memory_cap_bytes,
        );
        assert(self.model() == before);
        let r = self.take_in(tuple, verdict);
        assert((self.model(), r.model()) == intern_model::<T>(before, m, verdict));
        r
    }

    /// Asks for the tuple of a state.
    pub fn resolve(&mut self, state: StateId) -> (r: Reply<T>)
        requires
            old(self).inv(),
            old(self).model().pending is Idle,
        ensures
            final(self).inv(),
            (final(self).model(), r.model()) == resolve_model::<T>(old(self).model(), state),
    {
        if let Some(f) = self.poisoned {
            return Reply::Error(StoreError::Unusable(f));
        }
        if let Some((cached, tuple)) = &self.last_resolved {
            if *cached == state {
                return Reply::Tuple(tuple.duplicate());
            }
        }
        match self.disk {
            Some(d) => match resolve_begin(&d, state) {
                Err(f) => {
                    self.poisoned = Some(f);
                    Reply::Error(StoreError::Failed(f))
                },
                Ok(resolving) => {
                    self.pending = Pending::Resolve { state, resolving };
                    Reply::Ask(resolving.action())
                },
            },
            None => match self.memory.get(state) {
                Some(tuple) => Reply::Tuple(tuple.duplicate()),
                None => Reply::Error(StoreError::Failed(StoreFailure::StateAbsent { state })),
            },
        }
    }

    fn fail(&mut self, f: StoreFailure) -> (r: Reply<T>)
        requires
            old(self).memory.inv(),
            old(self).disk matches Some(d) ==> d.sized(),
        ensures
            final(self).inv(),
            (final(self).model(), r.model()) == old(self).model().failed(f),
    {
        self.poisoned = Some(f);
        self.pending = Pending::Idle;
        Reply::Error(StoreError::Failed(f))
    }

    /// Takes an answer of scratch storage in.
    pub fn resume(&mut self, e: &Event) -> (r: Reply<T>)
        requires
            old(self).inv(),
        ensures
            final(self).inv(),
            (final(self).model(), r.model()) == resume_model::<T, C>(
                old(self).model(),
                e.model(),
            ),
    {
        let mut pending: Pending<T> = Pending::Idle;
        std::mem::swap(&mut pending, &mut self.pending);
        match pending {
            Pending::Idle => Reply::Error(StoreError::Failed(StoreFailure::UnexpectedAnswer)),
            Pending::Spill { tuple, migrating } => match migrating.next::<C>(&self.memory, e) {
                Migrated::Failed(f) => Reply::Error(StoreError::Failed(f)),
                Migrated::More(m) => {
                    let action: Action = m.action();
                    self.pending = Pending::Spill { tuple, migrating: m };
                    Reply::Ask(action)
                },
                Migrated::Done(d) => {
                    self.memory = MemoryStateStore::new();
                    self.insert_on_disk(d, tuple)
                },
            },
            Pending::Insert(i) => {
                let mut d: DiskStateStore = match self.disk {
                    Some(d) => d,
                    None => {
                        return Reply::Error(StoreError::Failed(StoreFailure::UnexpectedAnswer));
                    },
                };
                let next: Inserted<T> = i.next::<C>(&mut d, e);
                self.disk = Some(d);
                match next {
                    Inserted::Failed(f) => self.fail(f),
                    Inserted::More(i) => {
                        let action: Action = i.action(&d);
                        self.pending = Pending::Insert(i);
                        Reply::Ask(action)
                    },
                    Inserted::Done(id) => Reply::State(id),
                }
            },
            Pending::Resolve { state, resolving } => match resolving.next(e) {
                Resolved::Failed(f) => self.fail(f),
                Resolved::More(resolving) => {
                    self.pending = Pending::Resolve { state, resolving };
                    Reply::Ask(resolving.action())
                },
                Resolved::Got => match e {
                    Event::Bytes(b) => match C::decode(b) {
                        Err(f) => self.fail(f),
                        Ok(tuple) => {
                            self.last_resolved = Some((state, tuple.duplicate()));
                            Reply::Tuple(tuple)
                        },
                    },
                    _ => Reply::Error(StoreError::Failed(StoreFailure::UnexpectedAnswer)),
                },
            },
        }
    }
}

/// The bytes of a list of tuples, one behind the other.
pub open spec fn encoded_all<T: StateTuple, C: StateCodec<T>>(tuples: Seq<T::M>) -> Result<
    Seq<u8>,
    StoreFailure,
>
    decreases tuples.len(),
{
    if tuples.len() == 0 {
        Ok(Seq::empty())
    } else {
        match encoded_all::<T, C>(tuples.drop_last()) {
            Err(f) => Err(f),
            Ok(before) => match C::encode_model(tuples.last()) {
                Err(f) => Err(f),
                Ok(bytes) => Ok(before + bytes),
            },
        }
    }
}

proof fn lemma_encoded_fails<T: StateTuple, C: StateCodec<T>>(tuples: Seq<T::M>, i: int)
    requires
        0 <= i <= tuples.len(),
    ensures
        encoded_all::<T, C>(tuples.take(i)) matches Err(f) ==> encoded_all::<T, C>(tuples)
            == Err::<Seq<u8>, StoreFailure>(f),
    decreases tuples.len() - i,
{
    if i < tuples.len() {
        assert(tuples.take(i + 1).drop_last() =~= tuples.take(i));
        lemma_encoded_fails::<T, C>(tuples, i + 1);
    } else {
        assert(tuples.take(i) =~= tuples);
    }
}

/// A tuple is to be named by a table that stays in memory.
pub open spec fn memory_intern_model<M>(tuples: Seq<M>, tuple: M) -> (Seq<M>, ReplyM<M>) {
    if tuples.contains(tuple) {
        (tuples, ReplyM::State(tuples.index_of(tuple) as StateId))
    } else {
        match next_id_model(tuples.len() as int) {
            Err(f) => (tuples, ReplyM::Error(StoreError::Failed(f))),
            Ok(id) => (tuples.push(tuple), ReplyM::State(id)),
        }
    }
}

/// The table of state pairs of a composition.
pub enum ComposeStateStore<T, C> {
    /// Always in memory.
    Memory(MemoryStateStore<T>),
    /// In memory until it becomes too large.
    Spillable(SpillableStateStore<T, C>),
}

impl<T: StateTuple, C: StateCodec<T>> ComposeStateStore<T, C> {
    pub open spec fn inv(&self) -> bool {
        match *self {
            ComposeStateStore::Memory(table) => table.inv(),
            ComposeStateStore::Spillable(store) => store.inv(),
        }
    }

    /// No request is waiting for an answer.
    pub open spec fn idle(&self) -> bool {
        match *self {
            ComposeStateStore::Memory(_) => true,
            ComposeStateStore::Spillable(store) => store.model().pending is Idle,
        }
    }

    /// An empty table that stays in memory.
    pub fn memory() -> (r: Self)
        ensures
            r.inv(),
            r.idle(),
            r matches ComposeStateStore::Memory(table) && table.tuples() == Seq::<T::M>::empty(),
    {
        ComposeStateStore::Memory(MemoryStateStore::new())
    }

    /// An empty table that moves to scratch storage when it becomes too large.
    pub fn spillable(config: &ComposeStateStoreConfig) -> (r: Self)
        ensures
            r.inv(),
            r.idle(),
            r matches ComposeStateStore::Spillable(store) && store.model() == StoreM::<
                T::M,
            >::empty(config.memory_cap_bytes),
    {
        ComposeStateStore::Spillable(SpillableStateStore::new(config.memory_cap_bytes))
    }

    /// Asks for the id of a tuple, which is given the next one if it has none.
    pub fn intern(&mut self, tuple: T) -> (r: Reply<T>)
        requires
            old(self).inv(),
            old(self).idle(),
        ensures
            match *old(self) {
                ComposeStateStore::Memory(before) => {
                    &&& final(self).inv()
                    &&& *final(self) matches ComposeStateStore::Memory(after)
                    &&& (after.tuples(), r.model()) == memory_intern_model(
                        before.tuples(),
                        tuple.model(),
                    )
                },
                ComposeStateStore::Spillable(before) => {
                    &&& *final(self) matches ComposeStateStore::Spillable(after)
                    &&& after.inv()
                    &&& exists|verdict: Result<bool, StoreFailure>|
                        (after.model(), r.model()) == #[trigger] intern_model::<T>(
                            before.model(),
                            tuple.model(),
                            verdict,
                        ) && verdict_fits::<T>(before.model(), tuple.model(), verdict) && (verdict
                            == Ok::<bool, StoreFailure>(true) ==> before.model().cap > 0)
                },
            },
    {
        match self {
            ComposeStateStore::Memory(table) => {
                proof {
                    table.lemma_inv();
                }
                if let Some(id) = table.find(&tuple) {
                    proof {
                        let tuples = table.tuples();
                        assert(tuples[id as int] == tuple.model());
                        assert(tuples.contains(tuple.model()));
                        let i = tuples.index_of(tuple.model());
                        assert(tuples[i] == tuple.model());
                        assert(i == id);
                    }
                    return Reply::State(id);
                }
                match state_id_for_len(table.len() as u64) {
                    Err(f) => Reply::Error(StoreError::Failed(f)),
                    Ok(_) => Reply::State(table.add(tuple)),
                }
            },
            ComposeStateStore::Spillable(store) => store.intern(tuple),
        }
    }

    /// Asks for the tuple of a state.
    pub fn resolve(&mut self, state: StateId) -> (r: Reply<T>)
        requires
            old(self).inv(),
            old(self).idle(),
            *old(self) matches ComposeStateStore::Memory(table) ==> state < table.tuples().len(),
        ensures
            match *old(self) {
                ComposeStateStore::Memory(before) => {
                    &&& *final(self) == *old(self)
                    &&& r.model() == ReplyM::<T::M>::Tuple(before.tuples()[state as int])
                },
                ComposeStateStore::Spillable(before) => {
                    &&& *final(self) matches ComposeStateStore::Spillable(after)
                    &&& after.inv()
                    &&& (after.model(), r.model()) == resolve_model::<T>(before.model(), state)
                },
            },
    {
        match self {
            ComposeStateStore::Memory(table) => match table.get(state) {
                Some(tuple) => Reply::Tuple(tuple.duplicate()),
                None => Reply::Error(StoreError::Failed(StoreFailure::StateAbsent { state })),
            },
            ComposeStateStore::Spillable(store) => store.resolve(state),
        }
    }

    /// Takes an answer of scratch storage in.
    pub fn resume(&mut self, e: &Event) -> (r: Reply<T>)
        requires
            old(self).inv(),
        ensures
            final(self).inv(),
            match *old(self) {
                ComposeStateStore::Memory(_) => *final(self) == *old(self) && r.model() == ReplyM::<
                    T::M,
                >::Error(StoreError::Failed(StoreFailure::UnexpectedAnswer)),
                ComposeStateStore::Spillable(before) => {
                    &&& *final(self) matches ComposeStateStore::Spillable(after)
                    &&& (after.model(), r.model()) == resume_model::<T, C>(
                        before.model(),
                        e.model(),
                    )
                },
            },
    {
        match self {
            ComposeStateStore::Memory(_) => Reply::Error(
                StoreError::Failed(StoreFailure::UnexpectedAnswer),
            ),
            ComposeStateStore::Spillable(store) => store.resume(e),
        }
    }

    /// Whether the tuples are on scratch storage.
    pub fn is_spilled(&self) -> (r: bool)
        ensures
            r == (*self matches ComposeStateStore::Spillable(store)
                && store.model().backing is Disk),
    {
        match self {
            ComposeStateStore::Memory(_) => false,
            ComposeStateStore::Spillable(store) => store.is_spilled(),
        }
    }

    /// The table as bytes: the number of tuples, then the tuples in the order of
    /// their ids. A table that may move to scratch storage has no such form.
    pub fn write_binary(&self) -> (r: Result<Vec<u8>, StoreError>)
        requires
            self.inv(),
        ensures
            match *self {
                ComposeStateStore::Memory(table) => match r {
                    Ok(bytes) => encoded_all::<T, C>(table.tuples()) matches Ok(all) && bytes@
                        == le_bytes(table.tuples().len() as int, 8) + all,
                    Err(e) => encoded_all::<T, C>(table.tuples()) matches Err(f) && e
                        == StoreError::Failed(f),
                },
                ComposeStateStore::Spillable(_) => r is Err && r->Err_0
                    == StoreError::NotSerializable,
            },
    {
        match self {
            ComposeStateStore::Spillable(_) => Err(StoreError::NotSerializable),
            ComposeStateStore::Memory(table) => {
                let ghost m = table.tuples();
                let n: usize = table.len();
                let mut out: Vec<u8> = Vec::new();
                push_le(&mut out, n as u64, 8);
                let ghost head = le_bytes(n as int, 8);
                proof {
                    assert(m.take(0) =~= Seq::empty());
                    assert(out@ =~= head + Seq::<u8>::empty());
                }
                for i in 0..n
                    invariant
                        *self == ComposeStateStore::<T, C>::Memory(*table),
                        n == table.tuples().len(),
                        m == table.tuples(),
                        encoded_all::<T, C>(m.take(i as int)) is Ok,
                        out@ == head + encoded_all::<T, C>(m.take(i as int))->Ok_0,
                {
                    proof {
                        assert(m.take(i + 1).drop_last() =~= m.take(i as int));
                        lemma_encoded_fails::<T, C>(m, i + 1);
                    }
                    let tuple: T = table.copy_at(i);
                    let bytes: Vec<u8> = match C::encode(&tuple) {
                        Ok(bytes) => bytes,
                        Err(f) => {
                            return Err(StoreError::Failed(f));
                        },
                    };
                    let ghost before = encoded_all::<T, C>(m.take(i as int))->Ok_0;
                    push_all(&mut out, &bytes);
                    assert(out@ =~= head + (before + bytes@));
                }
                assert(m.take(n as int) =~= m);
                Ok(out)
            },
        }
    }
}

} // verus!
