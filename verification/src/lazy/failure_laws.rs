//! What becomes of a machine of which some state cannot be computed.

use crate::error::FstError;
use crate::fst::symbol_table::SymbolTable;
use crate::fst::tr::StateId;
use crate::fst::vector_fst::{FstM, StateM};
use crate::lazy::cache::{CacheM, FstCache};
use crate::lazy::fst_op::FstOp;
use crate::lazy::laws::{
    kept_by_expansion, law_cache_is_transparent, law_output_follows_operation, named_by, op_expand,
    states_met,
};
use crate::lazy::lazy_fst::{compute_model, LazyM};
use crate::lazy::null_cache::NullCache;
use crate::semirings::semiring::Semiring;
use std::sync::Arc;
use vstd::prelude::*;

verus! {

/// Whenever the operation is asked for state `a`, and answers, some transition leads
/// to state `b`.
pub open spec fn leads<W: Semiring, Op: FstOp<W>>(
    good: spec_fn(Op::S) -> bool,
    a: StateId,
    b: StateId,
) -> bool {
    forall|s: Op::S|
        Op::valid(s) && good(s) && Op::known(s, a) ==> ((#[trigger] op_expand::<W, Op>(
            s,
            a,
        )).1 matches Ok(state) ==> named_by(state.trs, b))
}

/// Whenever the operation is asked for the state, its transitions or its final weight
/// cannot be computed.
pub open spec fn cannot_be_computed<W: Semiring, Op: FstOp<W>>(
    good: spec_fn(Op::S) -> bool,
    id: StateId,
) -> bool {
    forall|s: Op::S|
        Op::valid(s) && good(s) && Op::known(s, id) ==> (#[trigger] op_expand::<W, Op>(
            s,
            id,
        )).1 is Err
}

/// Each state of the path leads to the next.
pub open spec fn is_path<W: Semiring, Op: FstOp<W>>(
    good: spec_fn(Op::S) -> bool,
    path: Seq<StateId>,
) -> bool {
    forall|i: int|
        0 <= i < path.len() - 1 ==> #[trigger] leads::<W, Op>(good, path[i], path[i + 1])
}

/// The operation has answered so when it was asked for the state.
spec fn answered<W: Semiring, Op: FstOp<W>>(
    good: spec_fn(Op::S) -> bool,
    id: StateId,
    state: StateM<W::M>,
) -> bool {
    exists|s: Op::S|
        Op::valid(s) && good(s) && Op::known(s, id) && (#[trigger] op_expand::<W, Op>(s, id)).1
            == Ok::<StateM<W::M>, FstError>(state)
}

/// A machine cannot be written out when some state that the start state leads to
/// cannot be computed, whatever the bounds are and whichever cache is used. The
/// operation must say so each time it is asked; `good` holds of the states that the
/// operation goes through.
pub proof fn law_failing_state_fails<W: Semiring, Op: FstOp<W>, Cache: FstCache<W>>(
    begin: Op::S,
    isymt: Option<Arc<SymbolTable>>,
    osymt: Option<Arc<SymbolTable>>,
    max_states: Option<usize>,
    max_trs: Option<usize>,
    good: spec_fn(Op::S) -> bool,
    path: Seq<StateId>,
)
    requires
        Op::valid(begin),
        kept_by_expansion::<W, Op>(begin, good),
        path.len() > 0,
        Op::start_model(begin).1 == Ok::<Option<StateId>, FstError>(Some(path[0])),
        is_path::<W, Op>(good, path),
        cannot_be_computed::<W, Op>(good, path.last()),
    ensures
        compute_model::<W, Op, Cache>(
            LazyM { cache: CacheM::empty(), op: begin },
            isymt,
            osymt,
            max_states,
            max_trs,
        ).1 is Err,
{
    let l = LazyM { cache: CacheM::<W::M>::empty(), op: begin };
    law_cache_is_transparent::<W, Op, Cache, NullCache<W>>(
        begin,
        isymt,
        osymt,
        max_states,
        max_trs,
    );
    let holds = |s: Op::S, id: StateId, state: StateM<W::M>| answered::<W, Op>(good, id, state);
    law_output_follows_operation::<W, Op>(
        begin,
        isymt,
        osymt,
        max_states,
        max_trs,
        good,
        holds,
    );
    let (after, r) = compute_model::<W, Op, NullCache<W>>(l, isymt, osymt, max_states, max_trs);
    if let Ok(fst) = r {
        let met = states_met::<W, Op, NullCache<W>>(l, max_states, max_trs);
        lemma_path_is_met::<W, Op>(good, fst, met, path, path.len() - 1);
        assert(met.contains(path.last()));
        assert(holds(after.op, path.last(), fst.states[path.last() as int]));
        let s = choose|s: Op::S|
            Op::valid(s) && good(s) && Op::known(s, path.last()) && (#[trigger] op_expand::<W, Op>(
                s,
                path.last(),
            )).1 == Ok::<StateM<W::M>, FstError>(fst.states[path.last() as int]);
        assert(op_expand::<W, Op>(s, path.last()).1 is Err);
    }
}

/// A walk that has met the start of a path has met every state of it.
proof fn lemma_path_is_met<W: Semiring, Op: FstOp<W>>(
    good: spec_fn(Op::S) -> bool,
    fst: FstM<W::M>,
    met: Seq<StateId>,
    path: Seq<StateId>,
    i: int,
)
    requires
        0 <= i < path.len(),
        is_path::<W, Op>(good, path),
        met.contains(path[0]),
        forall|id: StateId| #[trigger]
            met.contains(id) ==> {
                &&& id < fst.states.len()
                &&& answered::<W, Op>(good, id, fst.states[id as int])
                &&& forall|j: int|
                    0 <= j < fst.states[id as int].trs.len() ==> met.contains(
                        (#[trigger] fst.states[id as int].trs[j]).nextstate,
                    )
            },
    ensures
        met.contains(path[i]),
    decreases i,
{
    if i > 0 {
        lemma_path_is_met::<W, Op>(good, fst, met, path, i - 1);
        let a = path[i - 1];
        let state = fst.states[a as int];
        assert(leads::<W, Op>(good, path[i - 1], path[i - 1 + 1]));
        let s = choose|s: Op::S|
            Op::valid(s) && good(s) && Op::known(s, a) && (#[trigger] op_expand::<W, Op>(s, a)).1
                == Ok::<StateM<W::M>, FstError>(state);
        assert(op_expand::<W, Op>(s, a).1 is Ok);
        assert(named_by(state.trs, path[i]));
        let j = choose|j: int| 0 <= j < state.trs.len() && (#[trigger] state.trs[j]).nextstate == path[i];
        assert(met.contains(fst.states[a as int].trs[j].nextstate));
    }
}

} // verus!
