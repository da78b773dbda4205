//! What a store answers to any number of requests.

use crate::compose::compose_state_store::{
    intern_model, memory_intern_model, resolve_model, resume_model, BackingM, ReplyM, StoreM,
};
use crate::compose::disk_laws::{
    can_name, drive_growth, encodable, encodings_fit, file_slots, law_growth_keeps_slots,
    taken_slots, with_tuple,
};
use crate::compose::disk_store::{grow_begin_model, MAX_SLOT_COUNT};
use crate::compose::scratch::{ActionM, Disk};
use crate::compose::store_laws::{
    drive_store, law_store_names_rightly, law_store_names_tuples, law_store_resolves_tuples,
    lemma_records_push, records_len, store_holds, written_once,
};
use crate::compose::tuple::{codec_exact, StateCodec, StateTuple};
use crate::fst::tr::{StateId, NO_STATE_ID};
use vstd::prelude::*;

verus! {

/// A request to a store.
pub enum RequestM<M> {
    /// The id of a tuple is asked for; `fits` says what the tables in memory answer
    /// when they are asked for room.
    Intern { tuple: M, fits: bool },
    /// The tuple of a state is asked for.
    Resolve { state: StateId },
}

/// The different tuples that are named, in the order in which they first come.
pub open spec fn named_tuples<M>(requests: Seq<RequestM<M>>) -> Seq<M>
    decreases requests.len(),
{
    if requests.len() == 0 {
        Seq::empty()
    } else {
        let before = named_tuples(requests.drop_last());
        match requests.last() {
            RequestM::Intern { tuple, fits } => with_tuple(before, tuple),
            RequestM::Resolve { state } => before,
        }
    }
}

/// A new tuple did not fit into memory, so that the tuples moved to scratch storage.
pub open spec fn moved_out<M>(requests: Seq<RequestM<M>>) -> bool
    decreases requests.len(),
{
    requests.len() > 0 && (moved_out(requests.drop_last()) || (
    requests.last() matches RequestM::Intern { tuple, fits } && !fits && !named_tuples(
        requests.drop_last(),
    ).contains(tuple)))
}

/// The tuples can be written down, and there is room for them on scratch storage.
pub open spec fn writable<T: StateTuple, C: StateCodec<T>>(tuples: Seq<T::M>) -> bool {
    &&& records_len::<T, C>(tuples) <= u64::MAX
    &&& forall|i: int| 0 <= i < tuples.len() ==> encodable::<T, C>(#[trigger] tuples[i])
}

/// The reply once storage that works has answered everything that was asked of it.
pub open spec fn settled<T: StateTuple, C: StateCodec<T>>(
    s: StoreM<T::M>,
    disk: Disk,
    r: ReplyM<T::M>,
) -> (StoreM<T::M>, Disk, ReplyM<T::M>) {
    let n = choose|n: nat| !((#[trigger] drive_store::<T, C>(s, disk, r, n)).2 is Ask);
    drive_store::<T, C>(s, disk, r, n)
}

/// What a store says to the requests one after the other.
pub open spec fn served<T: StateTuple, C: StateCodec<T>>(
    s: StoreM<T::M>,
    disk: Disk,
    requests: Seq<RequestM<T::M>>,
) -> (StoreM<T::M>, Disk, Seq<ReplyM<T::M>>)
    decreases requests.len(),
{
    if requests.len() == 0 {
        (s, disk, Seq::empty())
    } else {
        let (s1, disk1, replies) = served::<T, C>(s, disk, requests.drop_last());
        let (s2, r) = match requests.last() {
            RequestM::Intern { tuple, fits } => intern_model::<T>(s1, tuple, Ok(fits)),
            RequestM::Resolve { state } => resolve_model::<T>(s1, state),
        };
        let (s3, disk3, reply) = settled::<T, C>(s2, disk1, r);
        (s3, disk3, replies.push(reply))
    }
}

/// Only states that exist by then are asked for.
pub open spec fn known_when_asked<M>(requests: Seq<RequestM<M>>) -> bool {
    forall|k: int|
        0 <= k < requests.len() ==> ((#[trigger] requests[k]) matches RequestM::Resolve {
            state,
        } ==> state < named_tuples(requests.take(k)).len())
}

/// More answers change nothing once the reply is there.
proof fn lemma_drive_more<T: StateTuple, C: StateCodec<T>>(
    s: StoreM<T::M>,
    disk: Disk,
    r: ReplyM<T::M>,
    m: nat,
    n: nat,
)
    requires
        m <= n,
        !(drive_store::<T, C>(s, disk, r, m).2 is Ask),
    ensures
        drive_store::<T, C>(s, disk, r, n) == drive_store::<T, C>(s, disk, r, m),
    decreases n,
{
    if let ReplyM::Ask(action) = r {
        if m > 0 {
            let (after, e) = disk.perform(action);
            let (s1, r1) = resume_model::<T, C>(s, e);
            lemma_drive_more::<T, C>(s1, after, r1, (m - 1) as nat, (n - 1) as nat);
        }
    }
}

proof fn lemma_settled<T: StateTuple, C: StateCodec<T>>(
    s: StoreM<T::M>,
    disk: Disk,
    r: ReplyM<T::M>,
    n: nat,
)
    requires
        !(drive_store::<T, C>(s, disk, r, n).2 is Ask),
    ensures
        settled::<T, C>(s, disk, r) == drive_store::<T, C>(s, disk, r, n),
{
    let m = choose|n: nat| !((#[trigger] drive_store::<T, C>(s, disk, r, n)).2 is Ask);
    if m <= n {
        lemma_drive_more::<T, C>(s, disk, r, m, n);
    } else {
        lemma_drive_more::<T, C>(s, disk, r, n, m);
    }
}

/// Naming goes on where it stands: earlier names stay, and nothing is named twice.
pub proof fn lemma_named_grow<M>(requests: Seq<RequestM<M>>, k: int)
    requires
        0 <= k <= requests.len(),
    ensures
        named_tuples(requests.take(k)).len() <= named_tuples(requests).len(),
        forall|i: int|
            0 <= i < named_tuples(requests.take(k)).len() ==> #[trigger] named_tuples(requests)[i]
                == named_tuples(requests.take(k))[i],
        named_tuples(requests).no_duplicates(),
    decreases requests.len(),
{
    if requests.len() == 0 {
        assert(requests.take(k) =~= requests);
    } else {
        let shorter = requests.drop_last();
        let before = named_tuples(shorter);
        let all = named_tuples(requests);
        if k < requests.len() {
            assert(requests.take(k) =~= shorter.take(k));
            lemma_named_grow(shorter, k);
        } else {
            assert(requests.take(k) =~= requests);
            lemma_named_grow(shorter, 0);
        }
        if let RequestM::Intern { tuple, fits } = requests.last() {
            if !before.contains(tuple) {
                assert forall|i: int, j: int|
                    0 <= i < all.len() && 0 <= j < all.len() && i != j implies all[i]
                    != all[j] by {
                    if i == before.len() {
                        assert(before[j] != tuple);
                    } else if j == before.len() {
                        assert(before[i] != tuple);
                    }
                }
            }
        }
    }
}

/// The tuples that were named before take no more room than all of them.
proof fn lemma_records_prefix<T: StateTuple, C: StateCodec<T>>(tuples: Seq<T::M>, k: int)
    requires
        0 <= k <= tuples.len(),
    ensures
        records_len::<T, C>(tuples.take(k)) <= records_len::<T, C>(tuples),
    decreases tuples.len() - k,
{
    if k < tuples.len() {
        lemma_records_prefix::<T, C>(tuples, k + 1);
        assert(tuples.take(k + 1) =~= tuples.take(k).push(tuples[k]));
        lemma_records_push::<T, C>(tuples.take(k), tuples[k]);
    } else {
        assert(tuples.take(k) =~= tuples);
    }
}

/// Where a store stands after the requests, and what it said to the last.
proof fn lemma_served<T: StateTuple, C: StateCodec<T>>(
    s: StoreM<T::M>,
    disk: Disk,
    requests: Seq<RequestM<T::M>>,
)
    requires
        codec_exact::<T, C>(),
        store_holds::<T, C>(s, disk, Seq::empty()),
        s.backing is Memory,
        known_when_asked(requests),
        named_tuples(requests).len() <= NO_STATE_ID,
        moved_out(requests) ==> writable::<T, C>(named_tuples(requests)),
    ensures
        ({
            let (s1, disk1, replies) = served::<T, C>(s, disk, requests);
            &&& store_holds::<T, C>(s1, disk1, named_tuples(requests))
            &&& written_once::<T, C>(s1, disk1, named_tuples(requests))
            &&& s1.backing is Disk <==> moved_out(requests)
            &&& replies.len() == requests.len()
            &&& forall|k: int|
                0 <= k < requests.len() ==> #[trigger] replies[k] == due_reply(
                    requests[k],
                    named_tuples(requests),
                )
        }),
    decreases requests.len(),
{
    if requests.len() > 0 {
        let shorter = requests.drop_last();
        let last = requests.last();
        let before = named_tuples(shorter);
        let all = named_tuples(requests);
        assert(requests.take(requests.len() - 1) =~= shorter);
        lemma_named_grow(requests, requests.len() - 1);
        assert(before =~= all.take(before.len() as int));
        lemma_records_prefix::<T, C>(all, before.len() as int);
        if moved_out(requests) {
            assert forall|i: int| 0 <= i < before.len() implies encodable::<T, C>(
                #[trigger] before[i],
            ) by {
                assert(encodable::<T, C>(all[i]));
            }
        }
        assert forall|k: int| 0 <= k < shorter.len() implies ((
        #[trigger] shorter[k]) matches RequestM::Resolve { state } ==> state < named_tuples(
            shorter.take(k),
        ).len()) by {
            assert(shorter.take(k) =~= requests.take(k));
            assert(shorter[k] == requests[k]);
        }
        lemma_served::<T, C>(s, disk, shorter);
        let (s1, disk1, replies) = served::<T, C>(s, disk, shorter);
        match last {
            RequestM::Intern { tuple, fits } => {
                if !before.contains(tuple) {
                    assert(all[before.len() as int] == tuple);
                    lemma_records_push::<T, C>(before, tuple);
                } else {
                    let i = before.index_of(tuple);
                    assert(before[i] == tuple);
                }
                assert(moved_out(requests) ==> encodable::<T, C>(tuple));
                let n = law_store_names_tuples::<T, C>(s1, disk1, before, tuple, fits);
                let (s2, r) = intern_model::<T>(s1, tuple, Ok(fits));
                lemma_settled::<T, C>(s2, disk1, r, n);
            },
            RequestM::Resolve { state } => {
                assert(requests[requests.len() - 1] == last);
                let n = law_store_resolves_tuples::<T, C>(s1, disk1, before, state);
                let (s2, r) = resolve_model::<T>(s1, state);
                lemma_settled::<T, C>(s2, disk1, r, n);
            },
        }
        let (s3, disk3, longer) = served::<T, C>(s, disk, requests);
        assert forall|k: int| 0 <= k < requests.len() implies #[trigger] longer[k] == due_reply(
            requests[k],
            all,
        ) by {
            if k < shorter.len() {
                assert(longer[k] == replies[k]);
                assert(shorter[k] == requests[k]);
                lemma_due_stays(requests, k);
            }
        }
    }
}

/// The reply that is due when the tuples have the given ids.
pub open spec fn due_reply<M>(request: RequestM<M>, tuples: Seq<M>) -> ReplyM<M> {
    match request {
        RequestM::Intern { tuple, fits } => ReplyM::State(tuples.index_of(tuple) as StateId),
        RequestM::Resolve { state } => ReplyM::Tuple(tuples[state as int]),
    }
}

/// A tuple that was asked for is named.
proof fn lemma_asked_is_named<M>(requests: Seq<RequestM<M>>, k: int)
    requires
        0 <= k < requests.len(),
    ensures
        requests[k] matches RequestM::Intern { tuple, fits } ==> named_tuples(requests).contains(
            tuple,
        ),
    decreases requests.len(),
{
    let shorter = requests.drop_last();
    let before = named_tuples(shorter);
    let all = named_tuples(requests);
    if let RequestM::Intern { tuple, fits } = requests[k] {
        if k < shorter.len() {
            lemma_asked_is_named(shorter, k);
            assert(shorter[k] == requests[k]);
            let i = before.index_of(tuple);
            assert(before[i] == tuple);
            assert(all[i] == tuple);
        } else if !before.contains(tuple) {
            assert(all[before.len() as int] == tuple);
        }
    }
}

/// What was due before the last request is due after it.
proof fn lemma_due_stays<M>(requests: Seq<RequestM<M>>, k: int)
    requires
        0 <= k < requests.len() - 1,
        known_when_asked(requests),
    ensures
        due_reply(requests[k], named_tuples(requests)) == due_reply(
            requests[k],
            named_tuples(requests.drop_last()),
        ),
{
    let shorter = requests.drop_last();
    let before = named_tuples(shorter);
    let all = named_tuples(requests);
    assert(requests.take(requests.len() - 1) =~= shorter);
    lemma_named_grow(requests, requests.len() - 1);
    lemma_named_grow(shorter, k);
    assert(shorter.take(k) =~= requests.take(k));
    match requests[k] {
        RequestM::Intern { tuple, fits } => {
            lemma_asked_is_named(shorter, k);
            assert(shorter[k] == requests[k]);
            let i = before.index_of(tuple);
            assert(before[i] == tuple);
            assert(all[i] == tuple);
            assert(all.contains(tuple));
            let j = all.index_of(tuple);
            assert(all[j] == tuple);
            assert(i == j);
        },
        RequestM::Resolve { state } => {
            assert(all[state as int] == before[state as int]);
        },
    }
}

/// The reply that is due to request `k`: a tuple gets the number of different tuples
/// that were named before it, and the same id each time it is asked for; the tuple of
/// an id is the one that it was given to.
pub open spec fn reply_due<M>(requests: Seq<RequestM<M>>, k: int) -> ReplyM<M> {
    let before = named_tuples(requests.take(k));
    match requests[k] {
        RequestM::Intern { tuple, fits } => ReplyM::State(
            (if before.contains(tuple) {
                before.index_of(tuple)
            } else {
                before.len() as int
            }) as StateId,
        ),
        RequestM::Resolve { state } => ReplyM::Tuple(before[state as int]),
    }
}

/// What is due at the time is what is due once all tuples are named.
proof fn lemma_reply_due<M>(requests: Seq<RequestM<M>>, k: int)
    requires
        0 <= k < requests.len(),
        known_when_asked(requests),
    ensures
        reply_due(requests, k) == due_reply(requests[k], named_tuples(requests)),
{
    let all = named_tuples(requests);
    let before = named_tuples(requests.take(k));
    lemma_named_grow(requests, k);
    match requests[k] {
        RequestM::Intern { tuple, fits } => {
            lemma_named_grow(requests, k + 1);
            assert(requests.take(k + 1).drop_last() =~= requests.take(k));
            let next = named_tuples(requests.take(k + 1));
            assert(next == with_tuple(before, tuple));
            let i = if before.contains(tuple) {
                before.index_of(tuple)
            } else {
                before.len() as int
            };
            assert(next[i] == tuple);
            assert(all[i] == tuple);
            assert(all.contains(tuple));
            let j = all.index_of(tuple);
            assert(all[j] == tuple);
            assert(i == j);
        },
        RequestM::Resolve { state } => {},
    }
}

/// Whatever a fresh store is asked, in whatever order, and however much of it fits
/// into memory: as long as storage works, a tuple is given the number of different
/// tuples that were named before it, and the same id each time it is asked for; and
/// the tuple of an id is the one that it was given to. Ids do not depend on how much
/// memory the store may take, nor on when its tuples move to scratch storage. They move
/// once a new tuple does not fit into memory; only then does it matter whether they can
/// be written down.
pub proof fn law_store_serves_requests<T: StateTuple, C: StateCodec<T>>(
    cap: u64,
    disk: Disk,
    requests: Seq<RequestM<T::M>>,
)
    requires
        codec_exact::<T, C>(),
        known_when_asked(requests),
        named_tuples(requests).len() <= NO_STATE_ID,
        moved_out(requests) ==> writable::<T, C>(named_tuples(requests)),
    ensures
        named_tuples(requests).no_duplicates(),
        ({
            let (s, _, replies) = served::<T, C>(StoreM::empty(cap), disk, requests);
            &&& s.backing is Disk <==> moved_out(requests)
            &&& replies.len() == requests.len()
            &&& forall|k: int|
                0 <= k < requests.len() ==> #[trigger] replies[k] == reply_due(requests, k)
        }),
{
    let s = StoreM::<T::M>::empty(cap);
    lemma_named_grow(requests, 0);
    assert(store_holds::<T, C>(s, disk, Seq::empty()));
    lemma_served::<T, C>(s, disk, requests);
    let replies = served::<T, C>(s, disk, requests).2;
    assert forall|k: int| 0 <= k < requests.len() implies #[trigger] replies[k] == reply_due(
        requests,
        k,
    ) by {
        lemma_reply_due(requests, k);
    }
}

/// The request was answered.
pub open spec fn answered<M>(r: ReplyM<M>) -> bool {
    r is State || r is Tuple
}

/// Where a store stands after requests that were all answered, and what it said.
proof fn lemma_answered<T: StateTuple, C: StateCodec<T>>(
    s: StoreM<T::M>,
    disk: Disk,
    requests: Seq<RequestM<T::M>>,
)
    requires
        codec_exact::<T, C>(),
        encodings_fit::<T, C>(),
        store_holds::<T, C>(s, disk, Seq::empty()),
        known_when_asked(requests),
        forall|k: int|
            0 <= k < requests.len() ==> answered(
                #[trigger] served::<T, C>(s, disk, requests).2[k],
            ),
    ensures
        ({
            let (s1, disk1, replies) = served::<T, C>(s, disk, requests);
            &&& store_holds::<T, C>(s1, disk1, named_tuples(requests))
            &&& replies.len() == requests.len()
            &&& forall|k: int|
                0 <= k < requests.len() ==> #[trigger] replies[k] == due_reply(
                    requests[k],
                    named_tuples(requests),
                )
        }),
    decreases requests.len(),
{
    if requests.len() > 0 {
        let shorter = requests.drop_last();
        let last = requests.last();
        let before = named_tuples(shorter);
        let all = named_tuples(requests);
        let (s1, disk1, replies) = served::<T, C>(s, disk, shorter);
        let (s3, disk3, longer) = served::<T, C>(s, disk, requests);
        lemma_served_len::<T, C>(s, disk, shorter);
        assert(requests.take(requests.len() - 1) =~= shorter);
        assert forall|k: int| 0 <= k < shorter.len() implies answered(#[trigger] replies[k]) by {
            assert(longer[k] == replies[k]);
        }
        assert forall|k: int| 0 <= k < shorter.len() implies ((
        #[trigger] shorter[k]) matches RequestM::Resolve { state } ==> state < named_tuples(
            shorter.take(k),
        ).len()) by {
            assert(shorter.take(k) =~= requests.take(k));
            assert(shorter[k] == requests[k]);
        }
        lemma_answered::<T, C>(s, disk, shorter);
        let m = shorter.len() as int;
        assert(answered(longer[m]));
        match last {
            RequestM::Intern { tuple, fits } => {
                let (s2, r) = intern_model::<T>(s1, tuple, Ok(fits));
                let n = choose|n: nat|
                    !((#[trigger] drive_store::<T, C>(s2, disk1, r, n)).2 is Ask);
                law_store_names_rightly::<T, C>(s1, disk1, before, tuple, Ok(fits), n);
            },
            RequestM::Resolve { state } => {
                assert(requests[requests.len() - 1] == last);
                let n = law_store_resolves_tuples::<T, C>(s1, disk1, before, state);
                let (s2, r) = resolve_model::<T>(s1, state);
                lemma_settled::<T, C>(s2, disk1, r, n);
            },
        }
        assert forall|k: int| 0 <= k < requests.len() implies #[trigger] longer[k] == due_reply(
            requests[k],
            all,
        ) by {
            if k < shorter.len() {
                assert(longer[k] == replies[k]);
                assert(shorter[k] == requests[k]);
                lemma_due_stays(requests, k);
            }
        }
    }
}

/// There is a reply to each request.
proof fn lemma_served_len<T: StateTuple, C: StateCodec<T>>(
    s: StoreM<T::M>,
    disk: Disk,
    requests: Seq<RequestM<T::M>>,
)
    ensures
        served::<T, C>(s, disk, requests).2.len() == requests.len(),
    decreases requests.len(),
{
    if requests.len() > 0 {
        lemma_served_len::<T, C>(s, disk, requests.drop_last());
    }
}

/// Whatever a fresh store on storage that works is asked, if it is all answered, a tuple
/// is given the number of different tuples that were named before it, and the same id
/// each time it is asked for; and the tuple of an id is the one that it was given to. It
/// does not matter how much memory the store may take, when its tuples move to scratch
/// storage, nor whether those that stay in memory could be written down.
pub proof fn law_answers_are_right<T: StateTuple, C: StateCodec<T>>(
    cap: u64,
    disk: Disk,
    requests: Seq<RequestM<T::M>>,
)
    requires
        codec_exact::<T, C>(),
        encodings_fit::<T, C>(),
        known_when_asked(requests),
        forall|k: int|
            0 <= k < requests.len() ==> answered(
                #[trigger] served::<T, C>(StoreM::empty(cap), disk, requests).2[k],
            ),
    ensures
        named_tuples(requests).no_duplicates(),
        ({
            let replies = served::<T, C>(StoreM::empty(cap), disk, requests).2;
            &&& replies.len() == requests.len()
            &&& forall|k: int|
                0 <= k < requests.len() ==> #[trigger] replies[k] == reply_due(requests, k)
        }),
{
    let s = StoreM::<T::M>::empty(cap);
    lemma_named_grow(requests, 0);
    assert(store_holds::<T, C>(s, disk, Seq::empty()));
    lemma_answered::<T, C>(s, disk, requests);
    let replies = served::<T, C>(s, disk, requests).2;
    assert forall|k: int| 0 <= k < requests.len() implies #[trigger] replies[k] == reply_due(
        requests,
        k,
    ) by {
        lemma_reply_due(requests, k);
    }
}

/// What a table that stays in memory says to the requests one after the other.
pub open spec fn memory_served<M>(requests: Seq<RequestM<M>>) -> (Seq<M>, Seq<ReplyM<M>>)
    decreases requests.len(),
{
    if requests.len() == 0 {
        (Seq::empty(), Seq::empty())
    } else {
        let (tuples, replies) = memory_served(requests.drop_last());
        let (after, reply) = match requests.last() {
            RequestM::Intern { tuple, fits } => memory_intern_model(tuples, tuple),
            RequestM::Resolve { state } => (tuples, ReplyM::Tuple(tuples[state as int])),
        };
        (after, replies.push(reply))
    }
}

/// A table that stays in memory gives the replies that a store does, which may move
/// its tuples to scratch storage.
pub proof fn law_memory_serves_requests<M>(requests: Seq<RequestM<M>>)
    requires
        known_when_asked(requests),
        named_tuples(requests).len() <= NO_STATE_ID,
    ensures
        memory_served(requests).0 == named_tuples(requests),
        memory_served(requests).1.len() == requests.len(),
        forall|k: int|
            0 <= k < requests.len() ==> #[trigger] memory_served(requests).1[k] == reply_due(
                requests,
                k,
            ),
    decreases requests.len(),
{
    if requests.len() > 0 {
        let shorter = requests.drop_last();
        assert(requests.take(requests.len() - 1) =~= shorter);
        lemma_named_grow(requests, requests.len() - 1);
        assert forall|k: int| 0 <= k < shorter.len() implies ((
        #[trigger] shorter[k]) matches RequestM::Resolve { state } ==> state < named_tuples(
            shorter.take(k),
        ).len()) by {
            assert(shorter.take(k) =~= requests.take(k));
            assert(shorter[k] == requests[k]);
        }
        law_memory_serves_requests(shorter);
        let replies = memory_served(requests).1;
        assert forall|k: int| 0 <= k < requests.len() implies #[trigger] replies[k] == reply_due(
            requests,
            k,
        ) by {
            if k < shorter.len() {
                assert(replies[k] == memory_served(shorter).1[k]);
                assert(shorter.take(k) =~= requests.take(k));
                assert(shorter[k] == requests[k]);
            }
        }
    }
}

/// What a store says when it is asked for the id of a tuple, once storage that works has
/// answered everything that was asked of it.
pub open spec fn intern_answer<T: StateTuple, C: StateCodec<T>>(
    s: StoreM<T::M>,
    disk: Disk,
    tuple: T::M,
) -> ReplyM<T::M> {
    let (s1, r) = intern_model::<T>(s, tuple, Ok(true));
    settled::<T, C>(s1, disk, r).2
}

/// What a store says when it is asked for the tuple of a state, once storage that works
/// has answered everything that was asked of it.
pub open spec fn resolve_answer<T: StateTuple, C: StateCodec<T>>(
    s: StoreM<T::M>,
    disk: Disk,
    state: StateId,
) -> ReplyM<T::M> {
    let (s1, r) = resolve_model::<T>(s, state);
    settled::<T, C>(s1, disk, r).2
}

/// A store that holds the tuples on scratch storage answers so.
pub open spec fn answers_for<T: StateTuple, C: StateCodec<T>>(
    s: StoreM<T::M>,
    disk: Disk,
    tuples: Seq<T::M>,
) -> bool {
    &&& forall|i: int|
        0 <= i < tuples.len() ==> intern_answer::<T, C>(s, disk, #[trigger] tuples[i])
            == ReplyM::<T::M>::State(i as StateId)
    &&& forall|state: StateId|
        state < tuples.len() ==> #[trigger] resolve_answer::<T, C>(s, disk, state)
            == ReplyM::Tuple(tuples[state as int])
    &&& forall|tuple: T::M|
        !tuples.contains(tuple) && can_name::<T, C>(disk, tuples, tuple)
            ==> #[trigger] intern_answer::<T, C>(s, disk, tuple) == ReplyM::<T::M>::State(
            tuples.len() as StateId,
        )
}

proof fn lemma_answers_for<T: StateTuple, C: StateCodec<T>>(
    s: StoreM<T::M>,
    disk: Disk,
    tuples: Seq<T::M>,
)
    requires
        codec_exact::<T, C>(),
        store_holds::<T, C>(s, disk, tuples),
        s.backing is Disk,
    ensures
        answers_for::<T, C>(s, disk, tuples),
{
    assert forall|tuple: T::M| can_name::<T, C>(disk, tuples, tuple) implies (
    #[trigger] intern_answer::<T, C>(s, disk, tuple)) == ReplyM::<T::M>::State(
        with_tuple(tuples, tuple).index_of(tuple) as StateId,
    ) by {
        let n = law_store_names_tuples::<T, C>(s, disk, tuples, tuple, true);
        let (s1, r) = intern_model::<T>(s, tuple, Ok(true));
        lemma_settled::<T, C>(s1, disk, r, n);
    }
    assert forall|i: int| 0 <= i < tuples.len() implies intern_answer::<T, C>(
        s,
        disk,
        #[trigger] tuples[i],
    ) == ReplyM::<T::M>::State(i as StateId) by {
        assert(tuples.contains(tuples[i]));
        let j = tuples.index_of(tuples[i]);
        assert(tuples[j] == tuples[i]);
    }
    assert forall|state: StateId| state < tuples.len() implies (#[trigger] resolve_answer::<T, C>(
        s,
        disk,
        state,
    )) == ReplyM::Tuple(tuples[state as int]) by {
        let n = law_store_resolves_tuples::<T, C>(s, disk, tuples, state);
        let (s1, r) = resolve_model::<T>(s, state);
        lemma_settled::<T, C>(s1, disk, r, n);
    }
    assert forall|tuple: T::M|
        !tuples.contains(tuple) && can_name::<T, C>(disk, tuples, tuple) implies (
    #[trigger] intern_answer::<T, C>(s, disk, tuple)) == ReplyM::<T::M>::State(
        tuples.len() as StateId,
    ) by {
        let named = tuples.push(tuple);
        assert(named[tuples.len() as int] == tuple);
        assert(named.contains(tuple));
        let j = named.index_of(tuple);
        assert(named[j] == tuple);
        assert(j == tuples.len()) by {
            if j < tuples.len() {
                assert(tuples[j] == tuple);
            }
        }
    }
}

/// Making the table on scratch storage larger doubles its slots, in a file of the next
/// generation, of which the same are taken by the same ids, and changes no answer: as
/// before, every tuple is found under its id, every id gives its tuple, and a tuple that
/// was not there is not there, and would get the next id.
pub proof fn law_growth_changes_no_answer<T: StateTuple, C: StateCodec<T>>(
    s: StoreM<T::M>,
    disk: Disk,
    tuples: Seq<T::M>,
) -> (n: nat)
    requires
        codec_exact::<T, C>(),
        store_holds::<T, C>(s, disk, tuples),
        s.backing matches BackingM::Disk(d) && 2 * d.slot_count <= MAX_SLOT_COUNT,
    ensures
        ({
            let d = s.backing->Disk_0;
            let bigger = d.grown();
            let (full, done) = drive_growth(d, disk, grow_begin_model(d)->Ok_0, n);
            let (after, e) = full.perform(ActionM::Remove { file: d.slots_file() });
            let grown = StoreM { backing: BackingM::Disk(bigger), ..s };
            &&& grow_begin_model(d) is Ok
            &&& done is Done
            &&& e is Done
            &&& bigger.slot_count == 2 * d.slot_count
            &&& bigger.slot_generation == d.slot_generation + 1
            &&& bigger.len == d.len
            &&& taken_slots(file_slots(after, bigger.slots_file(), bigger.slot_count as int))
                == taken_slots(file_slots(disk, d.slots_file(), d.slot_count as int))
            &&& store_holds::<T, C>(grown, after, tuples)
            &&& answers_for::<T, C>(s, disk, tuples)
            &&& answers_for::<T, C>(grown, after, tuples)
            &&& forall|tuple: T::M| #[trigger]
                can_name::<T, C>(after, tuples, tuple) == can_name::<T, C>(disk, tuples, tuple)
        }),
{
    let d = s.backing->Disk_0;
    let n = law_growth_keeps_slots::<T, C>(d, disk, tuples);
    let (full, done) = drive_growth(d, disk, grow_begin_model(d)->Ok_0, n);
    let (after, e) = full.perform(ActionM::Remove { file: d.slots_file() });
    lemma_answers_for::<T, C>(s, disk, tuples);
    lemma_answers_for::<T, C>(StoreM { backing: BackingM::Disk(d.grown()), ..s }, after, tuples);
    n
}

} // verus!
