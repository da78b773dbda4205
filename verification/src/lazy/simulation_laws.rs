//! Operations of which one does all that another does.

use crate::error::FstError;
use crate::fst::symbol_table::SymbolTable;
use crate::fst::tr::StateId;
use crate::lazy::cache::{CacheM, FstCache};
use crate::lazy::fst_op::FstOp;
use crate::lazy::laws::{can_begin, lemma_walk_sound, lemma_walk_stops};
use crate::lazy::lazy_fst::{
    compute_model, lazy_start, lazy_trs, lazy_valid, lemma_lazy_start, lemma_lazy_trs,
    lemma_walk_end, lemma_walk_stopped, walk, walk_begin, walk_step, LazyM, WalkM,
};
use crate::semirings::semiring::Semiring;
use std::sync::Arc;
use vstd::prelude::*;

verus! {

/// Whatever an operation computes in a state, it computes in every state that is
/// related to it, and the states after that are related again.
pub open spec fn does_the_same<W: Semiring, Op: FstOp<W>>(
    related: spec_fn(Op::S, Op::S) -> bool,
) -> bool {
    &&& forall|a: Op::S, b: Op::S| #[trigger]
        related(a, b) && Op::valid(a) ==> Op::valid(b) && Op::properties_model(a)
            == Op::properties_model(b) && (Op::start_model(a).1 is Ok ==> Op::start_model(b).1
            == Op::start_model(a).1 && related(Op::start_model(a).0, Op::start_model(b).0))
    &&& forall|a: Op::S, b: Op::S, id: StateId|
        #![trigger related(a, b), Op::trs_model(a, id)]
        related(a, b) && Op::valid(a) && Op::known(a, id) && Op::trs_model(a, id).1 is Ok
            ==> Op::trs_model(b, id).1 == Op::trs_model(a, id).1 && related(
            Op::trs_model(a, id).0,
            Op::trs_model(b, id).0,
        )
    &&& forall|a: Op::S, b: Op::S, id: StateId|
        #![trigger related(a, b), Op::final_weight_model(a, id)]
        related(a, b) && Op::valid(a) && Op::known(a, id) && Op::final_weight_model(a, id).1 is Ok
            ==> Op::final_weight_model(b, id).1 == Op::final_weight_model(a, id).1 && related(
            Op::final_weight_model(a, id).0,
            Op::final_weight_model(b, id).0,
        )
}

/// Two walks that differ at most in the state of the operation.
spec fn same_but_operation<M, S>(
    a: WalkM<M, S>,
    b: WalkM<M, S>,
    related: spec_fn(S, S) -> bool,
) -> bool {
    &&& b == WalkM { lazy: LazyM { op: b.lazy.op, ..a.lazy }, ..a }
    &&& related(a.lazy.op, b.lazy.op)
}

proof fn lemma_walks_alike<W: Semiring, Op: FstOp<W>, Cache: FstCache<W>>(
    a: LazyM<W::M, Op::S>,
    b: LazyM<W::M, Op::S>,
    related: spec_fn(Op::S, Op::S) -> bool,
    start: StateId,
    max_states: Option<usize>,
    max_trs: Option<usize>,
    n: nat,
)
    requires
        does_the_same::<W, Op>(related),
        can_begin::<W, Op>(a, start),
        b == (LazyM { op: b.op, ..a }),
        related(a.op, b.op),
    ensures
        ({
            let x = walk::<W, Op, Cache>(walk_begin::<W, Op>(a, start), max_states, max_trs, n);
            let y = walk::<W, Op, Cache>(walk_begin::<W, Op>(b, start), max_states, max_trs, n);
            x.error is None ==> same_but_operation(x, y, related)
        }),
    decreases n,
{
    if n > 0 {
        let m = (n - 1) as nat;
        lemma_walks_alike::<W, Op, Cache>(a, b, related, start, max_states, max_trs, m);
        lemma_walk_sound::<W, Op, Cache>(a, start, max_states, max_trs, m);
        let x = walk::<W, Op, Cache>(walk_begin::<W, Op>(a, start), max_states, max_trs, m);
        let y = walk::<W, Op, Cache>(walk_begin::<W, Op>(b, start), max_states, max_trs, m);
        if !x.stopped() {
            let s = x.discovered[x.expanded];
            assert(Op::known(x.lazy.op, s));
            lemma_lazy_trs::<W, Op, Cache>(x.lazy, s);
            let (l1, r) = lazy_trs::<W, Op, Cache>(x.lazy, s);
            let (k1, q) = lazy_trs::<W, Op, Cache>(y.lazy, s);
            if r is Ok {
                if !x.lazy.cache.trs.contains_key(s) {
                    assert(Op::trs_model(x.lazy.op, s).1 is Ok);
                }
                assert(q == r && k1 == (LazyM { op: k1.op, ..l1 }) && related(l1.op, k1.op));
                let x2 = walk_step::<W, Op, Cache>(x, max_states, max_trs);
                let y2 = walk_step::<W, Op, Cache>(y, max_states, max_trs);
                if x2.error is None {
                    if !l1.cache.final_weights.contains_key(s) {
                        assert(Op::final_weight_model(l1.op, s).1 is Ok);
                    }
                    assert(same_but_operation(x2, y2, related));
                }
            }
        }
    }
}

/// When an operation does all that another does, and the machine of the other can be
/// written out, the same machine comes out.
pub proof fn law_same_operation_gives_same_machine<
    W: Semiring,
    Op: FstOp<W>,
    Cache: FstCache<W>,
>(
    a: Op::S,
    b: Op::S,
    related: spec_fn(Op::S, Op::S) -> bool,
    isymt: Option<Arc<SymbolTable>>,
    osymt: Option<Arc<SymbolTable>>,
    max_states: Option<usize>,
    max_trs: Option<usize>,
)
    requires
        does_the_same::<W, Op>(related),
        Op::valid(a),
        related(a, b),
    ensures
        ({
            let (l, r) = compute_model::<W, Op, Cache>(
                LazyM { cache: CacheM::empty(), op: a },
                isymt,
                osymt,
                max_states,
                max_trs,
            );
            let (k, q) = compute_model::<W, Op, Cache>(
                LazyM { cache: CacheM::empty(), op: b },
                isymt,
                osymt,
                max_states,
                max_trs,
            );
            r is Ok ==> q == r && related(l.op, k.op)
        }),
{
    let la = LazyM { cache: CacheM::<W::M>::empty(), op: a };
    let lb = LazyM { cache: CacheM::<W::M>::empty(), op: b };
    assert(lazy_valid::<W, Op>(la));
    lemma_lazy_start::<W, Op, Cache>(la);
    let (a1, r) = lazy_start::<W, Op, Cache>(la);
    let (b1, q) = lazy_start::<W, Op, Cache>(lb);
    if let Ok(Some(start)) = r {
        let n = lemma_walk_stops::<W, Op, Cache>(a1, start, max_states, max_trs);
        lemma_walks_alike::<W, Op, Cache>(a1, b1, related, start, max_states, max_trs, n);
        lemma_walk_end::<W, Op, Cache>(a1, start, max_states, max_trs, n);
        let x = walk::<W, Op, Cache>(walk_begin::<W, Op>(a1, start), max_states, max_trs, n);
        let y = walk::<W, Op, Cache>(walk_begin::<W, Op>(b1, start), max_states, max_trs, n);
        if x.error is None {
            lemma_walk_sound::<W, Op, Cache>(a1, start, max_states, max_trs, n);
            assert(y.stopped());
            lemma_walk_end::<W, Op, Cache>(b1, start, max_states, max_trs, n);
        }
    }
}

/// Where the first of two related states of an operation gives an error, the second does
/// too, or the error is one of those allowed.
pub open spec fn fails_with_it<W: Semiring, Op: FstOp<W>>(
    related: spec_fn(Op::S, Op::S) -> bool,
    allowed: spec_fn(FstError) -> bool,
) -> bool {
    &&& forall|a: Op::S, b: Op::S| #[trigger]
        related(a, b) && Op::valid(a) ==> (Op::start_model(a).1 matches Err(e) ==> allowed(e)
            || Op::start_model(b).1 is Err)
    &&& forall|a: Op::S, b: Op::S, id: StateId|
        #![trigger related(a, b), Op::trs_model(a, id)]
        related(a, b) && Op::valid(a) && Op::known(a, id) ==> (Op::trs_model(a, id).1 matches Err(e)
            ==> allowed(e) || Op::trs_model(b, id).1 is Err)
    &&& forall|a: Op::S, b: Op::S, id: StateId|
        #![trigger related(a, b), Op::final_weight_model(a, id)]
        related(a, b) && Op::valid(a) && Op::known(a, id) ==> (Op::final_weight_model(
            a,
            id,
        ).1 matches Err(e) ==> allowed(e) || Op::final_weight_model(b, id).1 is Err)
}

proof fn lemma_walks_fail_alike<W: Semiring, Op: FstOp<W>, Cache: FstCache<W>>(
    a: LazyM<W::M, Op::S>,
    b: LazyM<W::M, Op::S>,
    related: spec_fn(Op::S, Op::S) -> bool,
    allowed: spec_fn(FstError) -> bool,
    start: StateId,
    max_states: Option<usize>,
    max_trs: Option<usize>,
    n: nat,
)
    requires
        does_the_same::<W, Op>(related),
        fails_with_it::<W, Op>(related, allowed),
        can_begin::<W, Op>(a, start),
        b == (LazyM { op: b.op, ..a }),
        related(a.op, b.op),
    ensures
        ({
            let x = walk::<W, Op, Cache>(walk_begin::<W, Op>(a, start), max_states, max_trs, n);
            let y = walk::<W, Op, Cache>(walk_begin::<W, Op>(b, start), max_states, max_trs, n);
            x.error matches Some(e) ==> allowed(e) || y.error is Some
        }),
    decreases n,
{
    if n > 0 {
        let m = (n - 1) as nat;
        lemma_walks_fail_alike::<W, Op, Cache>(
            a,
            b,
            related,
            allowed,
            start,
            max_states,
            max_trs,
            m,
        );
        lemma_walks_alike::<W, Op, Cache>(a, b, related, start, max_states, max_trs, m);
        lemma_walk_sound::<W, Op, Cache>(a, start, max_states, max_trs, m);
        let x = walk::<W, Op, Cache>(walk_begin::<W, Op>(a, start), max_states, max_trs, m);
        let y = walk::<W, Op, Cache>(walk_begin::<W, Op>(b, start), max_states, max_trs, m);
        if !x.stopped() {
            let s = x.discovered[x.expanded];
            assert(Op::known(x.lazy.op, s));
            lemma_lazy_trs::<W, Op, Cache>(x.lazy, s);
            let (l1, r) = lazy_trs::<W, Op, Cache>(x.lazy, s);
            let (k1, q) = lazy_trs::<W, Op, Cache>(y.lazy, s);
            assert(related(x.lazy.op, y.lazy.op));
            if !x.lazy.cache.trs.contains_key(s) {
                let answer = Op::trs_model(x.lazy.op, s).1;
                assert(answer is Err ==> allowed(answer->Err_0) || q is Err);
            }
            if r is Ok {
                assert(q == r && k1 == (LazyM { op: k1.op, ..l1 }) && related(l1.op, k1.op));
                if !l1.cache.final_weights.contains_key(s) {
                    let answer = Op::final_weight_model(l1.op, s).1;
                    assert(answer is Err ==> allowed(answer->Err_0)
                        || Op::final_weight_model(k1.op, s).1 is Err);
                }
            }
        }
    }
}

/// When an operation fails only where another does, or with an error that is allowed, and
/// the machine of the other can be written out, nothing but an error that is allowed keeps
/// the machine of the first from being written out.
pub proof fn law_failure_is_owed<W: Semiring, Op: FstOp<W>, Cache: FstCache<W>>(
    a: Op::S,
    b: Op::S,
    related: spec_fn(Op::S, Op::S) -> bool,
    allowed: spec_fn(FstError) -> bool,
    isymt: Option<Arc<SymbolTable>>,
    osymt: Option<Arc<SymbolTable>>,
    max_states: Option<usize>,
    max_trs: Option<usize>,
)
    requires
        does_the_same::<W, Op>(related),
        fails_with_it::<W, Op>(related, allowed),
        Op::valid(a),
        related(a, b),
        compute_model::<W, Op, Cache>(
            LazyM { cache: CacheM::empty(), op: b },
            isymt,
            osymt,
            max_states,
            max_trs,
        ).1 is Ok,
    ensures
        compute_model::<W, Op, Cache>(
            LazyM { cache: CacheM::empty(), op: a },
            isymt,
            osymt,
            max_states,
            max_trs,
        ).1 matches Err(e) ==> allowed(e),
{
    let la = LazyM { cache: CacheM::<W::M>::empty(), op: a };
    let lb = LazyM { cache: CacheM::<W::M>::empty(), op: b };
    assert(lazy_valid::<W, Op>(la));
    assert(lazy_valid::<W, Op>(lb));
    lemma_lazy_start::<W, Op, Cache>(la);
    lemma_lazy_start::<W, Op, Cache>(lb);
    let (a1, r) = lazy_start::<W, Op, Cache>(la);
    let (b1, q) = lazy_start::<W, Op, Cache>(lb);
    if let Ok(Some(start)) = r {
        let n = lemma_walk_stops::<W, Op, Cache>(a1, start, max_states, max_trs);
        lemma_walk_end::<W, Op, Cache>(a1, start, max_states, max_trs, n);
        let k = lemma_walk_stops::<W, Op, Cache>(b1, start, max_states, max_trs);
        let most = if n > k {
            n
        } else {
            k
        };
        lemma_walk_stopped::<W, Op, Cache>(
            walk_begin::<W, Op>(a1, start),
            max_states,
            max_trs,
            n,
            most,
        );
        lemma_walk_stopped::<W, Op, Cache>(
            walk_begin::<W, Op>(b1, start),
            max_states,
            max_trs,
            k,
            most,
        );
        lemma_walk_end::<W, Op, Cache>(b1, start, max_states, max_trs, k);
        lemma_walks_fail_alike::<W, Op, Cache>(
            a1,
            b1,
            related,
            allowed,
            start,
            max_states,
            max_trs,
            most,
        );
    }
}

} // verus!
