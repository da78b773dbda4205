//! What is written out of a machine whose operation answers the same question in the
//! same way each time.

use crate::error::FstError;
use crate::fst::properties::FstProperties;
use crate::fst::symbol_table::SymbolTable;
use crate::fst::tr::{StateId, TrM, NO_STATE_ID};
use crate::fst::vector_fst::StateM;
use crate::lazy::cache::{CacheM, CacheStatus, FstCache};
use crate::lazy::fst_op::FstOp;
use crate::lazy::laws::{
    allowed, can_begin, count_trs, kept_by_operation, law_bounds_decide, lemma_discover_unbounded,
    lemma_step_sound, lemma_walk_sound, lemma_walk_starts, lemma_walk_stops, named_by,
};
use crate::lazy::lazy_fst::{
    compute_model, lazy_final_weight, lazy_start, lazy_trs, lazy_valid, lemma_discover_extends,
    lemma_lazy_final_weight, lemma_lazy_start, lemma_lazy_trs, lemma_walk_end, walk, walk_begin,
    LazyM, WalkM,
};
use crate::semirings::semiring::Semiring;
use std::sync::Arc;
use vstd::prelude::*;

verus! {

/// What an operation answers, whenever it is asked.
pub struct AnswersM<M> {
    pub start: Result<Option<StateId>, FstError>,
    pub trs: spec_fn(StateId) -> Result<Seq<TrM<M>>, FstError>,
    pub final_weights: spec_fn(StateId) -> Result<Option<M>, FstError>,
    pub properties: FstProperties,
}

/// The operation gives these answers in every state that it goes through, of which
/// `good` holds.
pub open spec fn answers_steadily<W: Semiring, Op: FstOp<W>>(
    good: spec_fn(Op::S) -> bool,
    a: AnswersM<W::M>,
) -> bool {
    &&& kept_by_operation::<W, Op>(good)
    &&& forall|s: Op::S|
        Op::valid(s) && #[trigger] good(s) ==> Op::start_model(s).1 == a.start
            && Op::properties_model(s) == a.properties
    &&& forall|s: Op::S, id: StateId|
        Op::valid(s) && good(s) && Op::known(s, id) ==> (#[trigger] Op::trs_model(s, id)).1 == (
        a.trs)(id)
    &&& forall|s: Op::S, id: StateId|
        Op::valid(s) && good(s) && Op::known(s, id) ==> (#[trigger] Op::final_weight_model(
            s,
            id,
        )).1 == (a.final_weights)(id)
}

/// Whatever is cached is one of the answers.
pub open spec fn told_by<M>(cache: CacheM<M>, a: AnswersM<M>) -> bool {
    &&& cache.start matches CacheStatus::Computed(start) ==> a.start == Ok::<
        Option<StateId>,
        FstError,
    >(start)
    &&& forall|id: StateId| #[trigger]
        cache.trs.contains_key(id) ==> (a.trs)(id) == Ok::<Seq<TrM<M>>, FstError>(cache.trs[id])
    &&& forall|id: StateId| #[trigger]
        cache.final_weights.contains_key(id) ==> (a.final_weights)(id) == Ok::<
            Option<M>,
            FstError,
        >(cache.final_weights[id])
}

/// A machine whose operation answers steadily, and whose cache, however much it holds,
/// holds some of the answers.
pub open spec fn steady<W: Semiring, Op: FstOp<W>>(
    l: LazyM<W::M, Op::S>,
    good: spec_fn(Op::S) -> bool,
    a: AnswersM<W::M>,
) -> bool {
    &&& lazy_valid::<W, Op>(l)
    &&& good(l.op)
    &&& answers_steadily::<W, Op>(good, a)
    &&& told_by(l.cache, a)
}

/// A machine is steady before anything is cached.
pub proof fn law_fresh_machine_is_steady<W: Semiring, Op: FstOp<W>>(
    begin: Op::S,
    good: spec_fn(Op::S) -> bool,
    a: AnswersM<W::M>,
)
    requires
        Op::valid(begin),
        good(begin),
        answers_steadily::<W, Op>(good, a),
    ensures
        steady::<W, Op>(LazyM { cache: CacheM::empty(), op: begin }, good, a),
{
}

/// A steady machine gives the answers, and stays steady.
pub proof fn law_steady_machine_answers<W: Semiring, Op: FstOp<W>, Cache: FstCache<W>>(
    l: LazyM<W::M, Op::S>,
    good: spec_fn(Op::S) -> bool,
    a: AnswersM<W::M>,
    id: StateId,
)
    requires
        steady::<W, Op>(l, good, a),
    ensures
        lazy_start::<W, Op, Cache>(l).1 == a.start,
        steady::<W, Op>(lazy_start::<W, Op, Cache>(l).0, good, a),
        Op::known(l.op, id) ==> {
            &&& lazy_trs::<W, Op, Cache>(l, id).1 == (a.trs)(id)
            &&& steady::<W, Op>(lazy_trs::<W, Op, Cache>(l, id).0, good, a)
            &&& lazy_final_weight::<W, Op, Cache>(l, id).1 == (a.final_weights)(id)
            &&& steady::<W, Op>(lazy_final_weight::<W, Op, Cache>(l, id).0, good, a)
        },
{
    lemma_lazy_start::<W, Op, Cache>(l);
    if Op::known(l.op, id) {
        lemma_lazy_trs::<W, Op, Cache>(l, id);
        lemma_lazy_final_weight::<W, Op, Cache>(l, id);
        assert(good(Op::trs_model(l.op, id).0));
        assert(good(Op::final_weight_model(l.op, id).0));
    }
}

/// The state is among the destinations of the other.
pub open spec fn goes_on<M>(a: AnswersM<M>, from: StateId, to: StateId) -> bool {
    (a.trs)(from) matches Ok(trs) && named_by(trs, to)
}

/// The path begins at the start state, and each state leads to the next.
pub open spec fn answered_path<M>(a: AnswersM<M>, path: Seq<StateId>) -> bool {
    &&& path.len() > 0
    &&& a.start == Ok::<Option<StateId>, FstError>(Some(path[0]))
    &&& forall|i: int|
        0 <= i < path.len() - 1 ==> #[trigger] goes_on(a, path[i], path[i + 1])
}

/// The start state leads to the state.
pub open spec fn reached<M>(a: AnswersM<M>, id: StateId) -> bool {
    exists|path: Seq<StateId>| #[trigger] answered_path(a, path) && path.last() == id
}

/// The states that the start state leads to.
pub open spec fn reached_states<M>(a: AnswersM<M>) -> Set<StateId> {
    Set::new(|id: StateId| reached(a, id))
}

/// How many transitions leave those of them that are below `n`.
pub open spec fn reached_trs<M>(a: AnswersM<M>, n: int) -> nat
    decreases n,
{
    if n <= 0 {
        0
    } else {
        reached_trs(a, n - 1) + (if n - 1 <= u32::MAX && reached(a, (n - 1) as StateId) {
            (a.trs)((n - 1) as StateId)->Ok_0.len()
        } else {
            0
        })
    }
}

/// The transitions and the final weight of the state can be computed.
pub open spec fn computable<M>(a: AnswersM<M>, id: StateId) -> bool {
    (a.trs)(id) is Ok && (a.final_weights)(id) is Ok
}

/// What the answers say of a state.
pub open spec fn answered_state<M>(a: AnswersM<M>, id: StateId) -> StateM<M> {
    StateM { trs: (a.trs)(id)->Ok_0, final_weight: (a.final_weights)(id)->Ok_0 }
}

/// A walk has met only states that the start state leads to, and has written down what
/// the answers say of those it has expanded.
spec fn walk_told<M, S>(b: WalkM<M, S>, a: AnswersM<M>) -> bool {
    &&& forall|i: int| 0 <= i < b.discovered.len() ==> reached(a, #[trigger] b.discovered[i])
    &&& forall|i: int|
        0 <= i < b.expanded && i < b.discovered.len() ==> computable(a, #[trigger] b.discovered[i])
            && b.states[b.discovered[i] as int] == answered_state(a, b.discovered[i])
}

proof fn lemma_reached_start<M>(a: AnswersM<M>, start: StateId)
    requires
        a.start == Ok::<Option<StateId>, FstError>(Some(start)),
    ensures
        reached(a, start),
{
    let path = seq![start];
    assert(answered_path(a, path) && path.last() == start);
}

proof fn lemma_reached_on<M>(a: AnswersM<M>, from: StateId, to: StateId)
    requires
        reached(a, from),
        goes_on(a, from, to),
    ensures
        reached(a, to),
{
    let path = choose|path: Seq<StateId>| #[trigger]
        answered_path(a, path) && path.last() == from;
    let longer = path.push(to);
    assert forall|i: int| 0 <= i < longer.len() - 1 implies #[trigger] goes_on(
        a,
        longer[i],
        longer[i + 1],
    ) by {
        if i < path.len() - 1 {
            assert(goes_on(a, path[i], path[i + 1]));
        }
    }
    assert(answered_path(a, longer) && longer.last() == to);
}

/// Walks over steady machines stay steady; they agree but for the machines; and they
/// are told what the answers say. Without bounds only a state that cannot be computed
/// makes them fail.
proof fn lemma_walk_steady<W: Semiring, Op: FstOp<W>, A: FstCache<W>, B: FstCache<W>>(
    l: LazyM<W::M, Op::S>,
    m: LazyM<W::M, Op::S>,
    good: spec_fn(Op::S) -> bool,
    a: AnswersM<W::M>,
    start: StateId,
    max_states: Option<usize>,
    max_trs: Option<usize>,
    n: nat,
)
    requires
        steady::<W, Op>(l, good, a),
        steady::<W, Op>(m, good, a),
        can_begin::<W, Op>(l, start),
        can_begin::<W, Op>(m, start),
        a.start == Ok::<Option<StateId>, FstError>(Some(start)),
    ensures
        ({
            let b = walk::<W, Op, A>(walk_begin::<W, Op>(l, start), max_states, max_trs, n);
            let c = walk::<W, Op, B>(walk_begin::<W, Op>(m, start), max_states, max_trs, n);
            &&& steady::<W, Op>(b.lazy, good, a)
            &&& steady::<W, Op>(c.lazy, good, a)
            &&& b == (WalkM { lazy: b.lazy, ..c })
            &&& walk_told(b, a)
            &&& b.error is Some && max_states is None && max_trs is None ==> exists|id: StateId|
                reached(a, id) && !(#[trigger] computable(a, id))
        }),
    decreases n,
{
    let lb = walk_begin::<W, Op>(l, start);
    let mb = walk_begin::<W, Op>(m, start);
    if n == 0 {
        lemma_reached_start(a, start);
    } else {
        let k = (n - 1) as nat;
        lemma_walk_steady::<W, Op, A, B>(l, m, good, a, start, max_states, max_trs, k);
        lemma_walk_sound::<W, Op, A>(l, start, max_states, max_trs, k);
        lemma_walk_sound::<W, Op, B>(m, start, max_states, max_trs, k);
        let b = walk::<W, Op, A>(lb, max_states, max_trs, k);
        let c = walk::<W, Op, B>(mb, max_states, max_trs, k);
        if !b.stopped() {
            let id = b.discovered[b.expanded];
            lemma_step_sound::<W, Op, A>(b, max_states, max_trs);
            law_steady_machine_answers::<W, Op, A>(b.lazy, good, a, id);
            law_steady_machine_answers::<W, Op, B>(c.lazy, good, a, id);
            lemma_lazy_trs::<W, Op, A>(b.lazy, id);
            lemma_lazy_trs::<W, Op, B>(c.lazy, id);
            let lb1 = lazy_trs::<W, Op, A>(b.lazy, id).0;
            let mb1 = lazy_trs::<W, Op, B>(c.lazy, id).0;
            law_steady_machine_answers::<W, Op, A>(lb1, good, a, id);
            law_steady_machine_answers::<W, Op, B>(mb1, good, a, id);
            let after = walk::<W, Op, A>(lb, max_states, max_trs, n);
            assert(reached(a, id));
            if after.error is Some && max_states is None && max_trs is None {
                if computable(a, id) {
                    lemma_discover_unbounded(
                        b.discovered,
                        (a.trs)(id)->Ok_0,
                        None,
                    );
                }
                assert(!computable(a, id));
            }
            if after.error is None {
                let trs = (a.trs)(id)->Ok_0;
                lemma_discover_extends(b.discovered, trs, max_states);
                assert forall|i: int| 0 <= i < after.discovered.len() implies reached(
                    a,
                    #[trigger] after.discovered[i],
                ) by {
                    if i < b.discovered.len() {
                        assert(after.discovered[i] == b.discovered[i]);
                    } else {
                        let j = choose|j: int|
                            0 <= j < trs.len() && (#[trigger] trs[j]).nextstate
                                == after.discovered[i];
                        assert(named_by(trs, after.discovered[i]));
                        lemma_reached_on(a, id, after.discovered[i]);
                    }
                }
                assert forall|i: int|
                    0 <= i < after.expanded && i < after.discovered.len() implies computable(
                    a,
                    #[trigger] after.discovered[i],
                ) && after.states[after.discovered[i] as int] == answered_state(
                    a,
                    after.discovered[i],
                ) by {
                    assert(after.discovered[i] == b.discovered[i]);
                    if i < b.expanded {
                        assert(b.discovered[i] != b.discovered[b.expanded]);
                        assert(computable(a, b.discovered[i]));
                        assert((b.discovered[i] as int) < b.states.len());
                    }
                }
            }
        }
    }
}

/// A walk that is done has met every state that the start state leads to.
proof fn lemma_walk_reaches<M>(
    a: AnswersM<M>,
    met: Seq<StateId>,
    path: Seq<StateId>,
    i: int,
)
    requires
        answered_path(a, path),
        0 <= i < path.len(),
        met.contains(path[0]),
        forall|id: StateId, to: StateId|
            met.contains(id) && #[trigger] goes_on(a, id, to) ==> met.contains(to),
    ensures
        met.contains(path[i]),
    decreases i,
{
    if i > 0 {
        lemma_walk_reaches(a, met, path, i - 1);
        assert(goes_on(a, path[i - 1], path[i - 1 + 1]));
    }
}

/// The transitions that are written out are those that leave the states met.
proof fn lemma_reached_trs<M>(a: AnswersM<M>, states: Seq<StateM<M>>)
    requires
        states.len() <= NO_STATE_ID,
        forall|i: int|
            0 <= i < states.len() ==> (#[trigger] states[i]).trs.len() == (if reached(
                a,
                i as StateId,
            ) {
                (a.trs)(i as StateId)->Ok_0.len()
            } else {
                0
            }),
    ensures
        count_trs(states) == reached_trs(a, states.len() as int),
    decreases states.len(),
{
    if states.len() > 0 {
        lemma_reached_trs(a, states.drop_last());
        let n = states.len() - 1;
        assert(states[n].trs.len() == states.last().trs.len());
    }
}

/// Ids above those that are reached add no transitions.
proof fn lemma_reached_trs_above<M>(a: AnswersM<M>, m: int, n: int)
    requires
        0 <= m <= n,
        forall|id: StateId| #[trigger] reached(a, id) ==> id < m,
    ensures
        reached_trs(a, n) == reached_trs(a, m),
    decreases n,
{
    if m < n {
        lemma_reached_trs_above(a, m, n - 1);
    }
}

/// A machine whose operation answers steadily is written out exactly when every state
/// that the start state leads to can be computed, these states are no more than
/// `max_states`, and no more than `max_trs` transitions leave them; the largest number
/// there is allows any number of transitions. What is written out is what the answers
/// say, the same as without bounds. It does not matter how much is cached. The machine
/// stays steady, whether or not this fails.
pub proof fn law_steady_machine_is_written_out<W: Semiring, Op: FstOp<W>, Cache: FstCache<W>>(
    l: LazyM<W::M, Op::S>,
    isymt: Option<Arc<SymbolTable>>,
    osymt: Option<Arc<SymbolTable>>,
    max_states: Option<usize>,
    max_trs: Option<usize>,
    good: spec_fn(Op::S) -> bool,
    a: AnswersM<W::M>,
)
    requires
        steady::<W, Op>(l, good, a),
    ensures
        reached_states(a).finite(),
        ({
            let (after, r) = compute_model::<W, Op, Cache>(l, isymt, osymt, max_states, max_trs);
            &&& r is Ok <==> {
                &&& a.start is Ok
                &&& forall|id: StateId| #[trigger] reached(a, id) ==> computable(a, id)
                &&& allowed(
                    reached_states(a).len(),
                    reached_trs(a, NO_STATE_ID as int),
                    max_states,
                    max_trs,
                )
            }
            &&& r matches Ok(fst) ==> {
                &&& fst.start == a.start->Ok_0
                &&& forall|id: StateId| #[trigger]
                    reached(a, id) ==> id < fst.states.len() && fst.states[id as int]
                        == answered_state(a, id)
                &&& r == compute_model::<W, Op, Cache>(l, isymt, osymt, None, None).1
            }
            &&& steady::<W, Op>(after, good, a)
        }),
{
    law_bounds_decide::<W, Op, Cache>(l, isymt, osymt, max_states, max_trs);
    law_steady_machine_answers::<W, Op, Cache>(l, good, a, 0);
    lemma_lazy_start::<W, Op, Cache>(l);
    let (l1, r) = lazy_start::<W, Op, Cache>(l);
    let reach = reached_states(a);
    if let Ok(Some(start)) = r {
        let n = lemma_walk_stops::<W, Op, Cache>(l1, start, None, None);
        lemma_walk_end::<W, Op, Cache>(l1, start, None, None, n);
        lemma_walk_sound::<W, Op, Cache>(l1, start, None, None, n);
        lemma_walk_starts::<W, Op, Cache>(l1, start, None, None, n);
        lemma_walk_steady::<W, Op, Cache, Cache>(l1, l1, good, a, start, None, None, n);
        let k = lemma_walk_stops::<W, Op, Cache>(l1, start, max_states, max_trs);
        lemma_walk_end::<W, Op, Cache>(l1, start, max_states, max_trs, k);
        lemma_walk_steady::<W, Op, Cache, Cache>(
            l1,
            l1,
            good,
            a,
            start,
            max_states,
            max_trs,
            k,
        );
        let end = walk::<W, Op, Cache>(walk_begin::<W, Op>(l1, start), None, None, n);
        let met = end.discovered;
        lemma_reached_finite(a);
        if end.error is None {
            assert forall|id: StateId, to: StateId|
                met.contains(id) && #[trigger] goes_on(a, id, to) implies met.contains(to) by {
                let i = choose|i: int| 0 <= i < met.len() && met[i] == id;
                assert(computable(a, met[i]));
                let trs = (a.trs)(id)->Ok_0;
                let j = choose|j: int| 0 <= j < trs.len() && (#[trigger] trs[j]).nextstate == to;
                assert(end.states[id as int].trs[j].nextstate == to);
            }
            assert forall|id: StateId| #[trigger] reached(a, id) implies met.contains(id)
                && computable(a, id) && id < end.states.len() && end.states[id as int]
                == answered_state(a, id) by {
                let path = choose|path: Seq<StateId>| #[trigger]
                    answered_path(a, path) && path.last() == id;
                assert(met[0] == start);
                lemma_walk_reaches(a, met, path, path.len() - 1);
                let i = choose|i: int| 0 <= i < met.len() && met[i] == id;
                assert(computable(a, met[i]));
            }
            assert(reach =~= met.to_set()) by {
                assert forall|id: StateId| met.to_set().contains(id) implies reach.contains(
                    id,
                ) by {
                    let i = choose|i: int| 0 <= i < met.len() && met[i] == id;
                    assert(reached(a, met[i]));
                }
            }
            met.unique_seq_to_set();
            assert forall|i: int| 0 <= i < end.states.len() implies (
            #[trigger] end.states[i]).trs.len() == (if reached(a, i as StateId) {
                (a.trs)(i as StateId)->Ok_0.len()
            } else {
                0
            }) by {
                if !reached(a, i as StateId) {
                    assert(!met.contains(i as StateId)) by {
                        if met.contains(i as StateId) {
                            let j = choose|j: int| 0 <= j < met.len() && met[j] == i as StateId;
                            assert(reached(a, met[j]));
                        }
                    }
                    assert(end.states[i] == StateM::<W::M>::fresh());
                }
            }
            lemma_reached_trs(a, end.states);
            lemma_reached_trs_above(a, end.states.len() as int, NO_STATE_ID as int);
        }
    } else {
        assert forall|id: StateId| !#[trigger] reached(a, id) by {}
        assert(reach =~= Set::empty());
        lemma_reached_trs_above(a, 0, NO_STATE_ID as int);
    }
}

/// There are only so many ids.
proof fn lemma_reached_finite<M>(a: AnswersM<M>)
    ensures
        reached_states(a).finite(),
{
    let ids = vstd::set_lib::set_int_range(0, u32::MAX + 1).map(|x: int| x as StateId);
    vstd::set_lib::lemma_int_range(0, u32::MAX + 1);
    assert forall|id: StateId| reached_states(a).contains(id) implies ids.contains(id) by {
        assert(vstd::set_lib::set_int_range(0, u32::MAX + 1).contains(id as int));
        assert((id as int) as StateId == id);
    }
    vstd::set_lib::set_int_range(0, u32::MAX + 1).lemma_map_finite(|x: int| x as StateId);
    vstd::set_lib::lemma_set_subset_finite(ids, reached_states(a));
}

/// Two machines with the same answers are written out alike, or fail alike, whatever
/// they have been asked before, and whatever and however much they have cached. So do
/// the same machine asked twice, and one asked with no bounds in either way.
pub proof fn law_steady_machines_agree<
    W: Semiring,
    Op: FstOp<W>,
    A: FstCache<W>,
    B: FstCache<W>,
>(
    l: LazyM<W::M, Op::S>,
    m: LazyM<W::M, Op::S>,
    isymt: Option<Arc<SymbolTable>>,
    osymt: Option<Arc<SymbolTable>>,
    max_states: Option<usize>,
    max_trs: Option<usize>,
    good: spec_fn(Op::S) -> bool,
    a: AnswersM<W::M>,
)
    requires
        steady::<W, Op>(l, good, a),
        steady::<W, Op>(m, good, a),
    ensures
        compute_model::<W, Op, A>(l, isymt, osymt, max_states, max_trs).1 == compute_model::<
            W,
            Op,
            B,
        >(m, isymt, osymt, max_states, max_trs).1,
{
    law_steady_machine_answers::<W, Op, A>(l, good, a, 0);
    law_steady_machine_answers::<W, Op, B>(m, good, a, 0);
    lemma_lazy_start::<W, Op, A>(l);
    lemma_lazy_start::<W, Op, B>(m);
    let l1 = lazy_start::<W, Op, A>(l).0;
    let m1 = lazy_start::<W, Op, B>(m).0;
    if let Ok(Some(start)) = a.start {
        let n = lemma_walk_stops::<W, Op, A>(l1, start, max_states, max_trs);
        lemma_walk_steady::<W, Op, A, B>(l1, m1, good, a, start, max_states, max_trs, n);
        lemma_walk_end::<W, Op, A>(l1, start, max_states, max_trs, n);
        lemma_walk_end::<W, Op, B>(m1, start, max_states, max_trs, n);
    }
}

} // verus!
