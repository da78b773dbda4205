//! What a machine that is written out consists of, and why writing it out fails.

use crate::error::FstError;
use crate::fst::property_laws::{extends, from_start, lemma_path_extends};
use crate::fst::symbol_table::SymbolTable;
use crate::fst::tr::{StateId, TrM};
use crate::fst::vector_fst::{FstM, StateM};
use crate::lazy::cache::FstCache;
use crate::lazy::fst_op::FstOp;
use crate::lazy::laws::{
    can_begin, kept_by_operation, lemma_discover_unbounded, lemma_states_needed, lemma_walk_sound,
    lemma_walk_stops, names_bound, states_met,
};
use crate::lazy::lazy_fst::{
    compute_model, lazy_start, lazy_trs, lazy_valid, lemma_discover_extends,
    lemma_lazy_final_weight, lemma_lazy_start, lemma_lazy_trs, lemma_walk_end, walk, walk_begin,
    LazyM, WalkM,
};
use crate::paths::{is_path, lemma_path_concat, lemma_path_one, path_end};
use crate::semirings::semiring::Semiring;
use std::sync::Arc;
use vstd::prelude::*;

verus! {

/// The states of a walk as a machine.
spec fn walked_machine<M>(states: Seq<StateM<M>>, start: StateId) -> FstM<M> {
    FstM { start: Some(start), states, ..FstM::empty() }
}

/// Every state that the walk has met can be reached from the start over what it has
/// written.
spec fn all_reached<M, S>(b: WalkM<M, S>, start: StateId) -> bool {
    forall|i: int|
        0 <= i < b.discovered.len() ==> from_start(
            walked_machine(b.states, start),
            (#[trigger] b.discovered[i]) as int,
        )
}

proof fn lemma_walk_reaches<W: Semiring, Op: FstOp<W>, Cache: FstCache<W>>(
    l: LazyM<W::M, Op::S>,
    start: StateId,
    max_states: Option<usize>,
    max_trs: Option<usize>,
    n: nat,
)
    requires
        can_begin::<W, Op>(l, start),
    ensures
        ({
            let b = walk::<W, Op, Cache>(walk_begin::<W, Op>(l, start), max_states, max_trs, n);
            b.error is None ==> all_reached(b, start)
        }),
    decreases n,
{
    let begin = walk_begin::<W, Op>(l, start);
    lemma_walk_sound::<W, Op, Cache>(l, start, max_states, max_trs, n);
    if n == 0 {
        let f = walked_machine(begin.states, start);
        let none = Seq::<TrM<W::M>>::empty();
        assert(is_path(f, start as int, none) && path_end(start as int, none) == start);
        let s = f.start->0 as int;
        assert(is_path(f, s, none) && path_end(s, none) == start);
        assert(from_start(f, start as int));
        assert forall|i: int| 0 <= i < begin.discovered.len() implies from_start(
            f,
            (#[trigger] begin.discovered[i]) as int,
        ) by {
            assert(begin.discovered[i] == start);
        }
    } else {
        let m = (n - 1) as nat;
        lemma_walk_reaches::<W, Op, Cache>(l, start, max_states, max_trs, m);
        lemma_walk_sound::<W, Op, Cache>(l, start, max_states, max_trs, m);
        let a = walk::<W, Op, Cache>(begin, max_states, max_trs, m);
        let b = walk::<W, Op, Cache>(begin, max_states, max_trs, n);
        if !a.stopped() && b.error is None {
            let s = a.discovered[a.expanded];
            let trs = lazy_trs::<W, Op, Cache>(a.lazy, s).1->Ok_0;
            lemma_discover_extends(a.discovered, trs, max_states);
            lemma_states_needed(a.states.len() as int, trs);
            let f = walked_machine(a.states, start);
            let g = walked_machine(b.states, start);
            assert(extends(f, g)) by {
                assert forall|v: int, j: int|
                    0 <= v < f.states.len() && 0 <= j
                        < f.states[v].trs.len() implies g.states[v].trs.contains(
                    #[trigger] f.states[v].trs[j],
                ) by {
                    assert(f.states[s as int].trs.len() == 0);
                    assert(g.states[v].trs[j] == f.states[v].trs[j]);
                }
            }
            assert forall|i: int| 0 <= i < b.discovered.len() implies from_start(
                g,
                (#[trigger] b.discovered[i]) as int,
            ) by {
                let q = if i < a.discovered.len() {
                    a.discovered[i] as int
                } else {
                    s as int
                };
                assert(from_start(f, q)) by {
                    assert(from_start(f, a.discovered[a.expanded] as int));
                    if i < a.discovered.len() {
                        assert(from_start(f, a.discovered[i] as int));
                    }
                }
                let path = choose|path: Seq<TrM<W::M>>| #[trigger]
                    is_path(f, start as int, path) && path_end(start as int, path) == q;
                lemma_path_extends(f, g, start as int, path);
                if i >= a.discovered.len() {
                    let k = choose|k: int|
                        0 <= k < trs.len() && (#[trigger] trs[k]).nextstate == b.discovered[i];
                    assert(g.states[s as int].trs == trs);
                    assert(g.states[s as int].trs.contains(trs[k]));
                    lemma_path_one(g, s as int, trs[k]);
                    lemma_path_concat(g, start as int, path, seq![trs[k]]);
                }
            }
        }
    }
}

/// Every state that is met when a machine is written out can be reached from its start
/// state, over what is written out.
pub proof fn law_output_is_reached<W: Semiring, Op: FstOp<W>, Cache: FstCache<W>>(
    l: LazyM<W::M, Op::S>,
    isymt: Option<Arc<SymbolTable>>,
    osymt: Option<Arc<SymbolTable>>,
    max_states: Option<usize>,
    max_trs: Option<usize>,
)
    requires
        lazy_valid::<W, Op>(l),
    ensures
        compute_model::<W, Op, Cache>(l, isymt, osymt, max_states, max_trs).1 matches Ok(out) ==> {
            let met = states_met::<W, Op, Cache>(l, max_states, max_trs);
            forall|i: int| 0 <= i < met.len() ==> from_start(out, (#[trigger] met[i]) as int)
        },
{
    lemma_lazy_start::<W, Op, Cache>(l);
    let (l1, r) = lazy_start::<W, Op, Cache>(l);
    let whole = compute_model::<W, Op, Cache>(l, isymt, osymt, max_states, max_trs).1;
    if let (Ok(Some(start)), Ok(out)) = (r, whole) {
        let n = lemma_walk_stops::<W, Op, Cache>(l1, start, max_states, max_trs);
        lemma_walk_end::<W, Op, Cache>(l1, start, max_states, max_trs, n);
        lemma_walk_reaches::<W, Op, Cache>(l1, start, max_states, max_trs, n);
        let met = states_met::<W, Op, Cache>(l, max_states, max_trs);
        let f = walked_machine(out.states, start);
        assert forall|i: int| 0 <= i < met.len() implies from_start(
            out,
            (#[trigger] met[i]) as int,
        ) by {
            assert(from_start(f, met[i] as int));
            let path = choose|path: Seq<TrM<W::M>>| #[trigger]
                is_path(f, start as int, path) && path_end(start as int, path) == met[i];
            lemma_path_extends(f, out, start as int, path);
        }
    }
}

/// Every error that an operation answers with, as long as `good` holds of it, is one of
/// those allowed.
pub open spec fn fails_only_with<W: Semiring, Op: FstOp<W>>(
    good: spec_fn(Op::S) -> bool,
    allowed: spec_fn(FstError) -> bool,
) -> bool {
    &&& forall|s: Op::S|
        Op::valid(s) && #[trigger] good(s) ==> (Op::start_model(s).1 matches Err(e) ==> allowed(e))
    &&& forall|s: Op::S, id: StateId|
        #![trigger good(s), Op::trs_model(s, id)]
        Op::valid(s) && good(s) && Op::known(s, id) ==> (Op::trs_model(s, id).1 matches Err(e)
            ==> allowed(e))
    &&& forall|s: Op::S, id: StateId|
        #![trigger good(s), Op::final_weight_model(s, id)]
        Op::valid(s) && good(s) && Op::known(s, id) ==> (Op::final_weight_model(
            s,
            id,
        ).1 matches Err(e) ==> allowed(e))
}

proof fn lemma_walk_fails_only_with<W: Semiring, Op: FstOp<W>, Cache: FstCache<W>>(
    l: LazyM<W::M, Op::S>,
    start: StateId,
    max_states: Option<usize>,
    max_trs: Option<usize>,
    good: spec_fn(Op::S) -> bool,
    allowed: spec_fn(FstError) -> bool,
    n: nat,
)
    requires
        can_begin::<W, Op>(l, start),
        kept_by_operation::<W, Op>(good),
        fails_only_with::<W, Op>(good, allowed),
        good(l.op),
    ensures
        ({
            let b = walk::<W, Op, Cache>(walk_begin::<W, Op>(l, start), max_states, max_trs, n);
            &&& b.error is None ==> good(b.lazy.op)
            &&& b.error matches Some(e) ==> allowed(e) || names_bound(e, max_states, max_trs)
        }),
    decreases n,
{
    if n > 0 {
        let m = (n - 1) as nat;
        lemma_walk_fails_only_with::<W, Op, Cache>(
            l,
            start,
            max_states,
            max_trs,
            good,
            allowed,
            m,
        );
        lemma_walk_sound::<W, Op, Cache>(l, start, max_states, max_trs, m);
        let a = walk::<W, Op, Cache>(walk_begin::<W, Op>(l, start), max_states, max_trs, m);
        if !a.stopped() {
            let s = a.discovered[a.expanded];
            assert(Op::known(a.lazy.op, s));
            lemma_lazy_trs::<W, Op, Cache>(a.lazy, s);
            let (l1, r) = lazy_trs::<W, Op, Cache>(a.lazy, s);
            assert(good(Op::trs_model(a.lazy.op, s).0));
            assert(good(l1.op));
            if let Ok(trs) = r {
                lemma_discover_unbounded(a.discovered, trs, max_states);
                assert(good(Op::final_weight_model(l1.op, s).0));
                lemma_lazy_final_weight::<W, Op, Cache>(l1, s);
            }
        }
    }
}

/// Writing out a machine fails only where its operation does, or when a bound is exceeded:
/// if every error that the operation can answer with is of a certain kind, so is every
/// other error.
pub proof fn law_failure_has_a_reason<W: Semiring, Op: FstOp<W>, Cache: FstCache<W>>(
    l: LazyM<W::M, Op::S>,
    isymt: Option<Arc<SymbolTable>>,
    osymt: Option<Arc<SymbolTable>>,
    max_states: Option<usize>,
    max_trs: Option<usize>,
    good: spec_fn(Op::S) -> bool,
    allowed: spec_fn(FstError) -> bool,
)
    requires
        lazy_valid::<W, Op>(l),
        kept_by_operation::<W, Op>(good),
        fails_only_with::<W, Op>(good, allowed),
        good(l.op),
    ensures
        compute_model::<W, Op, Cache>(l, isymt, osymt, max_states, max_trs).1 matches Err(e)
            ==> allowed(e) || names_bound(e, max_states, max_trs),
{
    lemma_lazy_start::<W, Op, Cache>(l);
    let (l1, r) = lazy_start::<W, Op, Cache>(l);
    assert(good(l1.op));
    if let Ok(Some(start)) = r {
        let n = lemma_walk_stops::<W, Op, Cache>(l1, start, max_states, max_trs);
        lemma_walk_end::<W, Op, Cache>(l1, start, max_states, max_trs, n);
        lemma_walk_fails_only_with::<W, Op, Cache>(
            l1,
            start,
            max_states,
            max_trs,
            good,
            allowed,
            n,
        );
    }
}

} // verus!
