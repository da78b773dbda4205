//! What a walk over the known states of a lazy machine passes.

use crate::error::FstError;
use crate::fst::tr::{StateId, TrM, EPS_LABEL};
use crate::lazy::cache::{
    count_input_epsilons, count_output_epsilons, destination_bound, lemma_total_trs, total_trs,
    CacheM, CacheStatus, FstCache,
};
use crate::lazy::fst_op::FstOp;
use crate::lazy::laws::named_by;
use crate::lazy::lazy_fst::{lazy_final_weight, lazy_start, lazy_trs, LazyM};
use crate::semirings::semiring::Semiring;
use vstd::prelude::*;

verus! {

/// Every destination lies below the bound, and unless there is none, one lies just below
/// it.
pub proof fn law_destination_bound<M>(trs: Seq<TrM<M>>)
    ensures
        forall|i: int|
            0 <= i < trs.len() ==> (#[trigger] trs[i]).nextstate < destination_bound(trs),
        trs.len() == 0 ==> destination_bound(trs) == 0,
        trs.len() > 0 ==> exists|i: int|
            0 <= i < trs.len() && (#[trigger] trs[i]).nextstate == destination_bound(trs) - 1,
    decreases trs.len(),
{
    if trs.len() > 0 {
        let init = trs.drop_last();
        law_destination_bound(init);
        assert(trs[trs.len() - 1] == trs.last());
        assert forall|i: int| 0 <= i < trs.len() implies (#[trigger] trs[i]).nextstate
            < destination_bound(trs) by {
            if i < init.len() {
                assert(init[i] == trs[i]);
            }
        }
        if destination_bound(trs) != trs.last().nextstate + 1 {
            let i = choose|i: int|
                0 <= i < init.len() && (#[trigger] init[i]).nextstate == destination_bound(init) - 1;
            assert(trs[i] == init[i]);
        }
    }
}

/// The counts of transitions that read, or write, nothing are the numbers of such
/// transitions.
pub proof fn law_epsilons_are_counted<M>(trs: Seq<TrM<M>>)
    ensures
        count_input_epsilons(trs) == trs.filter(|tr: TrM<M>| tr.ilabel == EPS_LABEL).len(),
        count_output_epsilons(trs) == trs.filter(|tr: TrM<M>| tr.olabel == EPS_LABEL).len(),
    decreases trs.len(),
{
    reveal(Seq::filter);
    if trs.len() > 0 {
        law_epsilons_are_counted(trs.drop_last());
    }
}

/// What is counted as kept is the sum over the states: nothing is counted where nothing is
/// kept, and the transitions of a state count once, in place of those that it had before.
pub proof fn law_kept_transitions_are_counted<M>(
    m: Map<StateId, Seq<TrM<M>>>,
    id: StateId,
    trs: Seq<TrM<M>>,
)
    requires
        m.dom().finite(),
    ensures
        total_trs(Map::<StateId, Seq<TrM<M>>>::empty()) == 0,
        total_trs(m.insert(id, trs)) == total_trs(m) + trs.len() - (if m.contains_key(id) {
            m[id].len() as int
        } else {
            0
        }),
{
    let after = m.insert(id, trs);
    assert(Map::<StateId, Seq<TrM<M>>>::empty().dom() =~= Set::empty());
    assert(after.dom() =~= m.dom().insert(id));
    lemma_total_trs(after, id);
    if m.contains_key(id) {
        lemma_total_trs(m, id);
        assert(after.remove(id) =~= m.remove(id));
    } else {
        assert(after.remove(id) =~= m);
    }
}

/// Every state that the cache names is below the number of states that it says are known.
pub open spec fn covers<M>(cache: CacheM<M>) -> bool {
    &&& 0 <= cache.known_states
    &&& cache.start matches CacheStatus::Computed(Some(s)) ==> s < cache.known_states
    &&& forall|id: StateId, i: int|
        cache.trs.contains_key(id) && 0 <= i < cache.trs[id].len() ==> (
        #[trigger] cache.trs[id][i]).nextstate < cache.known_states
    &&& forall|id: StateId| #[trigger]
        cache.final_weights.contains_key(id) ==> id < cache.known_states
}

/// A cache knows as many states as its largest one needs, and no more: it begins with
/// none, and whatever is inserted, every state that it names is known; and what becomes
/// known was named.
pub proof fn law_cache_knows_what_it_names<M>(
    cache: CacheM<M>,
    start: Option<StateId>,
    id: StateId,
    trs: Seq<TrM<M>>,
    weight: Option<M>,
)
    requires
        covers(cache),
    ensures
        covers(CacheM::<M>::empty()),
        CacheM::<M>::empty().known_states == 0,
        covers(cache.with_start(start)),
        covers(cache.with_trs(id, trs)),
        covers(cache.with_final_weight(id, weight)),
        cache.with_start(start).known_states >= cache.known_states,
        cache.with_trs(id, trs).known_states >= cache.known_states,
        cache.with_final_weight(id, weight).known_states >= cache.known_states,
        cache.with_start(start).known_states > cache.known_states ==> start is Some
            && start->Some_0 == cache.with_start(start).known_states - 1,
        cache.with_trs(id, trs).known_states > cache.known_states ==> exists|i: int|
            0 <= i < trs.len() && (#[trigger] trs[i]).nextstate == cache.with_trs(
                id,
                trs,
            ).known_states - 1,
        cache.with_final_weight(id, weight).known_states > cache.known_states ==> id
            == cache.with_final_weight(id, weight).known_states - 1,
{
    law_destination_bound(trs);
    let after = cache.with_trs(id, trs);
    if after.known_states > cache.known_states {
        let i = choose|i: int|
            0 <= i < trs.len() && (#[trigger] trs[i]).nextstate == destination_bound(trs) - 1;
        assert(trs[i].nextstate == after.known_states - 1);
    }
    assert forall|other: StateId, i: int|
        after.trs.contains_key(other) && 0 <= i < after.trs[other].len() implies (
    #[trigger] after.trs[other][i]).nextstate < after.known_states by {
        if other == id {
            assert(after.trs[other][i] == trs[i]);
        } else {
            assert(after.trs[other][i] == cache.trs[other][i]);
        }
    }
    let started = cache.with_start(start);
    assert forall|other: StateId, i: int|
        started.trs.contains_key(other) && 0 <= i < started.trs[other].len() implies (
    #[trigger] started.trs[other][i]).nextstate < started.known_states by {
        assert(started.trs[other][i] == cache.trs[other][i]);
    }
    let ended = cache.with_final_weight(id, weight);
    assert forall|other: StateId, i: int|
        ended.trs.contains_key(other) && 0 <= i < ended.trs[other].len() implies (
    #[trigger] ended.trs[other][i]).nextstate < ended.known_states by {
        assert(ended.trs[other][i] == cache.trs[other][i]);
    }
}

/// Passing the state at the position: its transitions are asked for, and its final weight
/// too if everything about it is wanted.
pub open spec fn passed<W: Semiring, Op: FstOp<W>, Cache: FstCache<W>>(
    l: LazyM<W::M, Op::S>,
    id: StateId,
    whole: bool,
) -> LazyM<W::M, Op::S> {
    let l1 = lazy_trs::<W, Op, Cache>(l, id).0;
    if whole {
        lazy_final_weight::<W, Op, Cache>(l1, id).0
    } else {
        l1
    }
}

/// The machine and the position after `n` requests for the next state.
pub open spec fn walked<W: Semiring, Op: FstOp<W>, Cache: FstCache<W>>(
    l: LazyM<W::M, Op::S>,
    whole: bool,
    n: nat,
) -> (LazyM<W::M, Op::S>, int)
    decreases n,
{
    if n == 0 {
        (lazy_start::<W, Op, Cache>(l).0, 0)
    } else {
        let (m, at) = walked::<W, Op, Cache>(l, whole, (n - 1) as nat);
        if at < m.cache.known_states {
            (passed::<W, Op, Cache>(m, at as StateId, whole), at + 1)
        } else {
            (m, at)
        }
    }
}

/// Each state that was passed could be computed.
pub open spec fn walks<W: Semiring, Op: FstOp<W>, Cache: FstCache<W>>(
    l: LazyM<W::M, Op::S>,
    whole: bool,
    n: nat,
) -> bool {
    &&& lazy_start::<W, Op, Cache>(l).1 is Ok
    &&& forall|k: nat|
        k < n ==> {
            let (m, at) = #[trigger] walked::<W, Op, Cache>(l, whole, k);
            at < m.cache.known_states ==> at <= u32::MAX && lazy_trs::<W, Op, Cache>(
                m,
                at as StateId,
            ).1 is Ok
        }
}

proof fn lemma_walked<W: Semiring, Op: FstOp<W>, Cache: FstCache<W>>(
    l: LazyM<W::M, Op::S>,
    whole: bool,
    n: nat,
)
    requires
        Cache::keeps(),
        covers(l.cache),
        walks::<W, Op, Cache>(l, whole, n),
    ensures
        ({
            let (m, at) = walked::<W, Op, Cache>(l, whole, n);
            &&& covers(m.cache)
            &&& m.cache.start == CacheStatus::Computed(lazy_start::<W, Op, Cache>(l).1->Ok_0)
            &&& 0 <= at <= n
            &&& forall|id: StateId| id < at ==> #[trigger] m.cache.trs.contains_key(id)
            &&& at < n ==> at >= m.cache.known_states
        }),
    decreases n,
{
    if n == 0 {
        let start = lazy_start::<W, Op, Cache>(l).1->Ok_0;
        law_cache_knows_what_it_names(l.cache, start, 0, Seq::empty(), None);
    } else {
        let k = (n - 1) as nat;
        lemma_walked::<W, Op, Cache>(l, whole, k);
        let (m, at) = walked::<W, Op, Cache>(l, whole, k);
        assert(walks::<W, Op, Cache>(l, whole, k));
        if at < m.cache.known_states {
            let id = at as StateId;
            let (m1, r) = lazy_trs::<W, Op, Cache>(m, id);
            law_cache_knows_what_it_names(m.cache, None, id, r->Ok_0, None);
            let (m2, f) = lazy_final_weight::<W, Op, Cache>(m1, id);
            law_cache_knows_what_it_names(m1.cache, None, id, Seq::empty(), f->Ok_0);
        }
    }
}

/// Each state of the path is among the destinations of the one before it.
pub open spec fn leads_on<M>(trs: Map<StateId, Seq<TrM<M>>>, path: Seq<StateId>) -> bool {
    forall|i: int|
        0 <= i < path.len() - 1 ==> trs.contains_key(#[trigger] path[i]) && named_by(
            trs[path[i]],
            path[i + 1],
        )
}

/// A walk over a machine that keeps what it computed ends only when every state that the
/// start state leads to has been passed: each of them has its transitions computed, and
/// is below the position where the walk ends, which is the number of states that it has
/// returned, one after the other. Until then it goes on by one state each time.
pub proof fn law_walk_passes_every_state<W: Semiring, Op: FstOp<W>, Cache: FstCache<W>>(
    l: LazyM<W::M, Op::S>,
    whole: bool,
    n: nat,
    path: Seq<StateId>,
)
    requires
        Cache::keeps(),
        covers(l.cache),
        walks::<W, Op, Cache>(l, whole, n),
    ensures
        ({
            let (m, at) = walked::<W, Op, Cache>(l, whole, n);
            let start = lazy_start::<W, Op, Cache>(l).1;
            &&& covers(m.cache)
            &&& at <= n
            &&& at < n ==> at >= m.cache.known_states
            &&& at >= m.cache.known_states && path.len() > 0 && start == Ok::<
                Option<StateId>,
                FstError,
            >(Some(path[0])) && leads_on(m.cache.trs, path) ==> path.last() < at
                && m.cache.trs.contains_key(path.last())
        }),
    decreases path.len(),
{
    lemma_walked::<W, Op, Cache>(l, whole, n);
    let (m, at) = walked::<W, Op, Cache>(l, whole, n);
    let start = lazy_start::<W, Op, Cache>(l).1;
    if at >= m.cache.known_states && path.len() > 1 && start == Ok::<Option<StateId>, FstError>(
        Some(path[0]),
    ) && leads_on(m.cache.trs, path) {
        let init = path.drop_last();
        assert forall|i: int| 0 <= i < init.len() - 1 implies m.cache.trs.contains_key(
            #[trigger] init[i],
        ) && named_by(m.cache.trs[init[i]], init[i + 1]) by {
            assert(init[i] == path[i]);
            assert(init[i + 1] == path[i + 1]);
        }
        law_walk_passes_every_state::<W, Op, Cache>(l, whole, n, init);
        let last = init.last();
        assert(path[path.len() - 2] == last);
        let trs = m.cache.trs[last];
        assert(named_by(trs, path[path.len() - 2 + 1]));
        let j = choose|j: int| 0 <= j < trs.len() && (#[trigger] trs[j]).nextstate == path.last();
        assert(m.cache.trs[last][j].nextstate < m.cache.known_states);
    }
}

} // verus!
