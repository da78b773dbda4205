//! What holds of every machine that is written out.

use crate::error::FstError;
use crate::fst::symbol_table::SymbolTable;
use crate::fst::tr::{StateId, TrM, NO_STATE_ID};
use crate::fst::vector_fst::{FstM, StateM};
use crate::lazy::cache::{CacheM, FstCache};
use crate::lazy::fst_op::FstOp;
use crate::lazy::lazy_fst::{
    compute_model, discover, fresh_states, lazy_start, lazy_trs, lazy_valid, lemma_discover_extends,
    lemma_ids_bound, lemma_lazy_final_weight, lemma_lazy_start, lemma_lazy_trs, lemma_walk_end,
    saturating, states_needed, walk, walk_begin, walk_end, walk_shape, walk_step, LazyM, WalkM,
};
use crate::lazy::null_cache::NullCache;
use crate::semirings::semiring::Semiring;
use std::sync::Arc;
use vstd::prelude::*;

verus! {

/// How many transitions the states have in all.
pub open spec fn count_trs<M>(states: Seq<StateM<M>>) -> nat
    decreases states.len(),
{
    if states.len() == 0 {
        0
    } else {
        count_trs(states.drop_last()) + states.last().trs.len()
    }
}

proof fn lemma_count_append_fresh<M>(states: Seq<StateM<M>>, n: int)
    ensures
        count_trs(states + fresh_states::<M>(n)) == count_trs(states),
    decreases n,
{
    let all = states + fresh_states::<M>(n);
    if n <= 0 {
        assert(all =~= states);
    } else {
        lemma_count_append_fresh(states, n - 1);
        assert(all.drop_last() =~= states + fresh_states::<M>(n - 1));
        assert(all.last().trs.len() == 0);
    }
}

proof fn lemma_count_update<M>(states: Seq<StateM<M>>, i: int, state: StateM<M>)
    requires
        0 <= i < states.len(),
    ensures
        count_trs(states.update(i, state)) == count_trs(states) - states[i].trs.len()
            + state.trs.len(),
    decreases states.len(),
{
    let after = states.update(i, state);
    if i == states.len() - 1 {
        assert(after.drop_last() =~= states.drop_last());
    } else {
        lemma_count_update(states.drop_last(), i, state);
        assert(after.drop_last() =~= states.drop_last().update(i, state));
    }
}

/// What holds all along a walk.
pub open spec fn walk_sound<W: Semiring, Op: FstOp<W>>(b: WalkM<W::M, Op::S>) -> bool {
    &&& lazy_valid::<W, Op>(b.lazy)
    &&& walk_shape(b.discovered, b.expanded, b.states)
    &&& b.discovered.len() >= 1
    &&& 1 <= b.states.len() <= NO_STATE_ID
    &&& b.discovered.contains((b.states.len() - 1) as StateId)
    &&& forall|i: int|
        0 <= i < b.discovered.len() ==> Op::known(b.lazy.op, #[trigger] b.discovered[i])
    &&& forall|i: int, j: int|
        0 <= i < b.states.len() && 0 <= j < b.states[i].trs.len() ==> (
        #[trigger] b.states[i].trs[j]).nextstate < b.states.len()
    &&& forall|i: int, j: int|
        0 <= i < b.states.len() && 0 <= j < b.states[i].trs.len() ==> b.discovered.contains(
            (#[trigger] b.states[i].trs[j]).nextstate,
        )
}

proof fn lemma_discover_distinct<M>(
    discovered: Seq<StateId>,
    trs: Seq<TrM<M>>,
    max_states: Option<usize>,
)
    requires
        discovered.no_duplicates(),
    ensures
        discover(discovered, trs, max_states) matches Ok(d) ==> {
            &&& d.no_duplicates()
            &&& forall|k: int| 0 <= k < trs.len() ==> d.contains((#[trigger] trs[k]).nextstate)
            &&& max_states matches Some(bound) ==> d.len() <= bound || d.len() == discovered.len()
        },
    decreases trs.len(),
{
    if trs.len() > 0 {
        lemma_discover_distinct(discovered, trs.drop_last(), max_states);
        lemma_discover_extends(discovered, trs.drop_last(), max_states);
        if let Ok(d) = discover(discovered, trs, max_states) {
            let p = discover(discovered, trs.drop_last(), max_states)->Ok_0;
            let last = trs.last().nextstate;
            assert(d.contains(last)) by {
                if !p.contains(last) {
                    assert(d[p.len() as int] == last);
                }
            }
            assert forall|k: int| 0 <= k < trs.len() implies d.contains(
                (#[trigger] trs[k]).nextstate,
            ) by {
                if k < trs.len() - 1 {
                    assert(trs.drop_last()[k] == trs[k]);
                    let w = choose|w: int| 0 <= w < p.len() && p[w] == trs[k].nextstate;
                    assert(d[w] == p[w]);
                }
            }
        }
    }
}

pub proof fn lemma_states_needed<M>(n: int, trs: Seq<TrM<M>>)
    ensures
        states_needed(n, trs) >= n,
        forall|k: int|
            0 <= k < trs.len() ==> (#[trigger] trs[k]).nextstate < states_needed(n, trs),
        states_needed(n, trs) == n || exists|k: int|
            0 <= k < trs.len() && (#[trigger] trs[k]).nextstate + 1 == states_needed(n, trs),
    decreases trs.len(),
{
    if trs.len() > 0 {
        lemma_states_needed(n, trs.drop_last());
        let before = states_needed(n, trs.drop_last());
        if trs.last().nextstate >= before {
            assert(trs[trs.len() - 1].nextstate + 1 == states_needed(n, trs));
        } else if before != n {
            let k = choose|k: int|
                0 <= k < trs.drop_last().len() && (#[trigger] trs.drop_last()[k]).nextstate + 1
                    == before;
            assert(trs[k].nextstate + 1 == states_needed(n, trs));
        }
        assert forall|k: int| 0 <= k < trs.len() implies (#[trigger] trs[k]).nextstate
            < states_needed(n, trs) by {
            if k < trs.len() - 1 {
                assert(trs.drop_last()[k] == trs[k]);
            }
        }
    }
}

/// One more step keeps a walk sound.
pub proof fn lemma_step_sound<W: Semiring, Op: FstOp<W>, Cache: FstCache<W>>(
    b: WalkM<W::M, Op::S>,
    max_states: Option<usize>,
    max_trs: Option<usize>,
)
    requires
        walk_sound::<W, Op>(b),
        !b.stopped(),
    ensures
        ({
            let after = walk_step::<W, Op, Cache>(b, max_states, max_trs);
            &&& after.error is None ==> walk_sound::<W, Op>(after) && after.expanded == b.expanded
                + 1 && count_trs(after.states) == count_trs(b.states)
                + lazy_trs::<W, Op, Cache>(b.lazy, b.discovered[b.expanded]).1->Ok_0.len()
            &&& lazy_valid::<W, Op>(after.lazy)
        }),
{
    let s = b.discovered[b.expanded];
    lemma_lazy_trs::<W, Op, Cache>(b.lazy, s);
    let (l1, r) = lazy_trs::<W, Op, Cache>(b.lazy, s);
    if let Ok(trs) = r {
        lemma_lazy_final_weight::<W, Op, Cache>(l1, s);
        lemma_discover_distinct(b.discovered, trs, max_states);
        lemma_discover_extends(b.discovered, trs, max_states);
        lemma_states_needed(b.states.len() as int, trs);
        let after = walk_step::<W, Op, Cache>(b, max_states, max_trs);
        if after.error is None {
            let d = after.discovered;
            let more = states_needed(b.states.len() as int, trs) - b.states.len();
            let grown = b.states + fresh_states::<W::M>(more);
            lemma_count_append_fresh(b.states, more);
            assert(grown[s as int] == b.states[s as int]);
            lemma_count_update(grown, s as int, after.states[s as int]);
            assert(d.contains((after.states.len() - 1) as StateId) && after.states.len()
                <= NO_STATE_ID) by {
                if more == 0 {
                    let t = (b.states.len() - 1) as StateId;
                    let w = choose|w: int| 0 <= w < b.discovered.len() && b.discovered[w] == t;
                    assert(d[w] == t);
                } else {
                    let k = choose|k: int|
                        0 <= k < trs.len() && (#[trigger] trs[k]).nextstate + 1
                            == after.states.len();
                    assert(d.contains(trs[k].nextstate));
                    assert(trs[k].nextstate < NO_STATE_ID);
                }
            }
            assert forall|i: int| 0 <= i < d.len() implies (#[trigger] d[i]) < NO_STATE_ID && d[i]
                < after.states.len() && Op::known(after.lazy.op, d[i]) by {
                if i < b.discovered.len() {
                    assert(d[i] == b.discovered[i]);
                } else {
                    let k = choose|k: int|
                        0 <= k < trs.len() && (#[trigger] trs[k]).nextstate == d[i];
                    assert(trs[k].nextstate == d[i]);
                }
            }
            assert forall|i: int| after.expanded <= i < d.len() implies after.states[(
            #[trigger] d[i]) as int] == StateM::<W::M>::fresh() by {
                assert(d[i] != d[b.expanded]);
                if i < b.discovered.len() {
                    assert(d[i] == b.discovered[i]);
                } else if (d[i] as int) < b.states.len() {
                    assert(!b.discovered.contains(d[i])) by {
                        if b.discovered.contains(d[i]) {
                            let w = choose|w: int|
                                0 <= w < b.discovered.len() && b.discovered[w] == d[i];
                            assert(d[w] == d[i]);
                        }
                    }
                    assert(b.states[d[i] as int] == StateM::<W::M>::fresh());
                }
            }
            assert forall|k: int|
                0 <= k < after.states.len() && (k > u32::MAX || !d.contains(
                    k as StateId,
                )) implies #[trigger] after.states[k] == StateM::<W::M>::fresh() by {
                if k == s {
                    assert(d[b.expanded] == s);
                } else if k < b.states.len() {
                    if k <= u32::MAX && b.discovered.contains(k as StateId) {
                        let w = choose|w: int|
                            0 <= w < b.discovered.len() && b.discovered[w] == k as StateId;
                        assert(d[w] == k as StateId);
                    }
                    assert(b.states[k] == StateM::<W::M>::fresh());
                }
            }
            assert forall|i: int, j: int|
                0 <= i < after.states.len() && 0 <= j < after.states[i].trs.len() implies ((
            #[trigger] after.states[i].trs[j]).nextstate < after.states.len() && d.contains(
                after.states[i].trs[j].nextstate,
            )) by {
                if i == s {
                    assert(after.states[i].trs[j] == trs[j]);
                } else if i < b.states.len() {
                    assert(after.states[i].trs[j] == b.states[i].trs[j]);
                    let t = b.states[i].trs[j].nextstate;
                    assert(b.discovered.contains(t));
                    let w = choose|w: int| 0 <= w < b.discovered.len() && b.discovered[w] == t;
                    assert(d[w] == t);
                }
            }
        }
    }
}

/// A walk can begin at `start`.
pub open spec fn can_begin<W: Semiring, Op: FstOp<W>>(
    l: LazyM<W::M, Op::S>,
    start: StateId,
) -> bool {
    lazy_valid::<W, Op>(l) && start < NO_STATE_ID && Op::known(l.op, start)
}

/// A walk stays sound as long as it does not fail.
pub proof fn lemma_walk_sound<W: Semiring, Op: FstOp<W>, Cache: FstCache<W>>(
    l: LazyM<W::M, Op::S>,
    start: StateId,
    max_states: Option<usize>,
    max_trs: Option<usize>,
    n: nat,
)
    requires
        can_begin::<W, Op>(l, start),
    ensures
        ({
            let b = walk::<W, Op, Cache>(
                walk_begin::<W, Op>(l, start),
                max_states,
                max_trs,
                n,
            );
            &&& b.error is None ==> walk_sound::<W, Op>(b)
            &&& !b.stopped() ==> b.expanded == n
        }),
    decreases n,
{
    let begin = walk_begin::<W, Op>(l, start);
    if n == 0 {
        assert(begin.discovered[0] == start);
    } else {
        lemma_walk_sound::<W, Op, Cache>(l, start, max_states, max_trs, (n - 1) as nat);
        let prev = walk::<W, Op, Cache>(begin, max_states, max_trs, (n - 1) as nat);
        if !prev.stopped() {
            lemma_step_sound::<W, Op, Cache>(prev, max_states, max_trs);
        }
    }
}

/// What holds of the state of an operation goes on to hold whatever is computed, even
/// when it fails.
pub open spec fn kept_by_operation<W: Semiring, Op: FstOp<W>>(
    good: spec_fn(Op::S) -> bool,
) -> bool {
    &&& forall|s: Op::S| Op::valid(s) && #[trigger] good(s) ==> good(Op::start_model(s).0)
    &&& forall|s: Op::S, id: StateId|
        #![trigger good(s), Op::trs_model(s, id)]
        Op::valid(s) && good(s) && Op::known(s, id) ==> good(Op::trs_model(s, id).0)
    &&& forall|s: Op::S, id: StateId|
        #![trigger good(s), Op::final_weight_model(s, id)]
        Op::valid(s) && good(s) && Op::known(s, id) ==> good(Op::final_weight_model(s, id).0)
}

/// A walk leaves the machine valid, even when it fails.
proof fn lemma_walk_valid<W: Semiring, Op: FstOp<W>, Cache: FstCache<W>>(
    l: LazyM<W::M, Op::S>,
    start: StateId,
    max_states: Option<usize>,
    max_trs: Option<usize>,
    good: spec_fn(Op::S) -> bool,
    n: nat,
)
    requires
        can_begin::<W, Op>(l, start),
        kept_by_operation::<W, Op>(good),
        good(l.op),
    ensures
        ({
            let b = walk::<W, Op, Cache>(walk_begin::<W, Op>(l, start), max_states, max_trs, n);
            lazy_valid::<W, Op>(b.lazy) && good(b.lazy.op)
        }),
    decreases n,
{
    if n > 0 {
        let m = (n - 1) as nat;
        lemma_walk_valid::<W, Op, Cache>(l, start, max_states, max_trs, good, m);
        lemma_walk_sound::<W, Op, Cache>(l, start, max_states, max_trs, m);
        let prev = walk::<W, Op, Cache>(walk_begin::<W, Op>(l, start), max_states, max_trs, m);
        if !prev.stopped() {
            lemma_step_sound::<W, Op, Cache>(prev, max_states, max_trs);
            let s = prev.discovered[prev.expanded];
            assert(Op::known(prev.lazy.op, s));
            lemma_lazy_trs::<W, Op, Cache>(prev.lazy, s);
            let (l1, r) = lazy_trs::<W, Op, Cache>(prev.lazy, s);
            if !prev.lazy.cache.trs.contains_key(s) {
                assert(good(Op::trs_model(prev.lazy.op, s).0));
            }
            assert(good(l1.op));
            if r is Ok {
                assert(good(Op::final_weight_model(l1.op, s).0));
            }
        }
    }
}

/// Writing out a lazy machine leaves it valid, and what its operation keeps goes on to
/// hold, whether or not it fails.
pub proof fn law_machine_stays_valid<W: Semiring, Op: FstOp<W>, Cache: FstCache<W>>(
    l: LazyM<W::M, Op::S>,
    isymt: Option<Arc<SymbolTable>>,
    osymt: Option<Arc<SymbolTable>>,
    max_states: Option<usize>,
    max_trs: Option<usize>,
    good: spec_fn(Op::S) -> bool,
)
    requires
        lazy_valid::<W, Op>(l),
        kept_by_operation::<W, Op>(good),
        good(l.op),
    ensures
        ({
            let after = compute_model::<W, Op, Cache>(l, isymt, osymt, max_states, max_trs).0;
            lazy_valid::<W, Op>(after) && good(after.op)
        }),
{
    lemma_lazy_start::<W, Op, Cache>(l);
    let (l1, r) = lazy_start::<W, Op, Cache>(l);
    if let Ok(Some(start)) = r {
        let n = lemma_walk_stops::<W, Op, Cache>(l1, start, max_states, max_trs);
        lemma_walk_end::<W, Op, Cache>(l1, start, max_states, max_trs, n);
        lemma_walk_valid::<W, Op, Cache>(l1, start, max_states, max_trs, good, n);
    }
}

/// Every walk comes to an end, because there are only so many state ids.
pub proof fn lemma_walk_stops<W: Semiring, Op: FstOp<W>, Cache: FstCache<W>>(
    l: LazyM<W::M, Op::S>,
    start: StateId,
    max_states: Option<usize>,
    max_trs: Option<usize>,
) -> (n: nat)
    requires
        can_begin::<W, Op>(l, start),
    ensures
        walk::<W, Op, Cache>(walk_begin::<W, Op>(l, start), max_states, max_trs, n).stopped(),
{
    let n: nat = (NO_STATE_ID + 1) as nat;
    lemma_walk_sound::<W, Op, Cache>(l, start, max_states, max_trs, n);
    let b = walk::<W, Op, Cache>(walk_begin::<W, Op>(l, start), max_states, max_trs, n);
    if !b.stopped() {
        lemma_ids_bound(b.discovered);
    }
    n
}

/// Whether `a` is the walk `b`, but for the count of transitions.
spec fn same_walk<M, S>(a: WalkM<M, S>, b: WalkM<M, S>) -> bool {
    a == WalkM { num_trs: a.num_trs, ..b }
}

pub proof fn lemma_discover_unbounded<M>(
    discovered: Seq<StateId>,
    trs: Seq<TrM<M>>,
    max_states: Option<usize>,
)
    ensures
        discover(discovered, trs, None) is Ok,
        discover(discovered, trs, max_states) is Ok ==> discover(discovered, trs, None) == discover(
            discovered,
            trs,
            max_states,
        ),
        max_states matches Some(bound) ==> (discover(discovered, trs, None)->Ok_0.len() <= bound
            ==> discover(discovered, trs, max_states) is Ok),
        discover(discovered, trs, max_states) matches Err(e) ==> max_states is Some && e
            == (FstError::StateBudgetExceeded { limit: max_states->0 }),
        discover(discovered, trs, None)->Ok_0.len() >= discovered.len(),
    decreases trs.len(),
{
    if trs.len() > 0 {
        lemma_discover_unbounded(discovered, trs.drop_last(), max_states);
    }
}

/// As long as a bounded walk does not fail, it does what the unbounded one does.
proof fn lemma_walk_bounded<W: Semiring, Op: FstOp<W>, Cache: FstCache<W>>(
    b: WalkM<W::M, Op::S>,
    max_states: Option<usize>,
    max_trs: Option<usize>,
    n: nat,
)
    requires
        walk::<W, Op, Cache>(b, max_states, max_trs, n).error is None,
    ensures
        same_walk(
            walk::<W, Op, Cache>(b, None, None, n),
            walk::<W, Op, Cache>(b, max_states, max_trs, n),
        ),
    decreases n,
{
    if n > 0 {
        let prev = walk::<W, Op, Cache>(b, max_states, max_trs, (n - 1) as nat);
        lemma_walk_bounded::<W, Op, Cache>(b, max_states, max_trs, (n - 1) as nat);
        if !prev.stopped() {
            let (l1, r) = lazy_trs::<W, Op, Cache>(prev.lazy, prev.discovered[prev.expanded]);
            if let Ok(trs) = r {
                lemma_discover_unbounded(prev.discovered, trs, max_states);
            }
        }
    }
}

/// A bound that is not exceeded changes nothing: whatever a bounded run writes
/// out, the unbounded run writes out too, and it meets the same states.
pub proof fn law_bounds_are_harmless<W: Semiring, Op: FstOp<W>, Cache: FstCache<W>>(
    l: LazyM<W::M, Op::S>,
    isymt: Option<Arc<SymbolTable>>,
    osymt: Option<Arc<SymbolTable>>,
    max_states: Option<usize>,
    max_trs: Option<usize>,
)
    requires
        lazy_valid::<W, Op>(l),
        compute_model::<W, Op, Cache>(l, isymt, osymt, max_states, max_trs).1 is Ok,
    ensures
        compute_model::<W, Op, Cache>(l, isymt, osymt, None, None) == compute_model::<W, Op, Cache>(
            l,
            isymt,
            osymt,
            max_states,
            max_trs,
        ),
        states_met::<W, Op, Cache>(l, None, None) == states_met::<W, Op, Cache>(
            l,
            max_states,
            max_trs,
        ),
{
    lemma_lazy_start::<W, Op, Cache>(l);
    let (l1, r) = lazy_start::<W, Op, Cache>(l);
    if let Ok(Some(start)) = r {
        let n = lemma_walk_stops::<W, Op, Cache>(l1, start, max_states, max_trs);
        lemma_walk_end::<W, Op, Cache>(l1, start, max_states, max_trs, n);
        let begin = walk_begin::<W, Op>(l1, start);
        lemma_walk_bounded::<W, Op, Cache>(begin, max_states, max_trs, n);
        assert(walk::<W, Op, Cache>(begin, None, None, n).stopped());
        lemma_walk_end::<W, Op, Cache>(l1, start, None, None, n);
    }
}

/// What the bounds promise of a walk that has not failed.
spec fn within_bounds<M, S>(
    b: WalkM<M, S>,
    max_states: Option<usize>,
    max_trs: Option<usize>,
) -> bool {
    &&& max_states matches Some(bound) ==> b.discovered.len() <= bound
    &&& max_trs matches Some(bound) ==> bound < usize::MAX ==> count_trs(b.states) <= bound
    &&& max_trs is Some ==> b.num_trs == saturating(count_trs(b.states) as int, 0)
}

proof fn lemma_walk_within<W: Semiring, Op: FstOp<W>, Cache: FstCache<W>>(
    l: LazyM<W::M, Op::S>,
    start: StateId,
    max_states: Option<usize>,
    max_trs: Option<usize>,
    n: nat,
)
    requires
        can_begin::<W, Op>(l, start),
        max_states != Some(0usize),
        walk::<W, Op, Cache>(
            walk_begin::<W, Op>(l, start),
            max_states,
            max_trs,
            n,
        ).error is None,
    ensures
        within_bounds(
            walk::<W, Op, Cache>(walk_begin::<W, Op>(l, start), max_states, max_trs, n),
            max_states,
            max_trs,
        ),
    decreases n,
{
    let begin = walk_begin::<W, Op>(l, start);
    if n == 0 {
        lemma_count_append_fresh(Seq::<StateM<W::M>>::empty(), start + 1);
        assert(Seq::<StateM<W::M>>::empty() + fresh_states::<W::M>(start + 1)
            =~= begin.states);
    } else {
        let prev = walk::<W, Op, Cache>(begin, max_states, max_trs, (n - 1) as nat);
        lemma_walk_within::<W, Op, Cache>(l, start, max_states, max_trs, (n - 1) as nat);
        lemma_walk_sound::<W, Op, Cache>(l, start, max_states, max_trs, (n - 1) as nat);
        if !prev.stopped() {
            lemma_step_sound::<W, Op, Cache>(prev, max_states, max_trs);
            let (l1, r) = lazy_trs::<W, Op, Cache>(prev.lazy, prev.discovered[prev.expanded]);
            if let Ok(trs) = r {
                lemma_discover_distinct(prev.discovered, trs, max_states);
            }
        }
    }
}

/// The machine that is written out hangs together: the start state and every
/// destination exist.
pub open spec fn closed_machine<M>(fst: FstM<M>) -> bool {
    &&& fst.start matches Some(s) ==> s < fst.states.len()
    &&& forall|i: int, j: int|
        0 <= i < fst.states.len() && 0 <= j < fst.states[i].trs.len() ==> (
        #[trigger] fst.states[i].trs[j]).nextstate < fst.states.len()
}

/// Whatever is written out hangs together and keeps the bounds: no more states
/// than there are ids, no more transitions than allowed, unless that is the largest
/// number there is, and no more states met than allowed.
pub proof fn law_output_keeps_bounds<W: Semiring, Op: FstOp<W>, Cache: FstCache<W>>(
    l: LazyM<W::M, Op::S>,
    isymt: Option<Arc<SymbolTable>>,
    osymt: Option<Arc<SymbolTable>>,
    max_states: Option<usize>,
    max_trs: Option<usize>,
)
    requires
        lazy_valid::<W, Op>(l),
    ensures
        compute_model::<W, Op, Cache>(l, isymt, osymt, max_states, max_trs).1 matches Ok(fst) ==> {
            &&& closed_machine(fst)
            &&& fst.states.len() <= NO_STATE_ID
            &&& max_trs matches Some(bound) ==> bound < usize::MAX ==> count_trs(fst.states)
                <= bound
            &&& max_states matches Some(bound) ==> states_met::<W, Op, Cache>(
                l,
                max_states,
                max_trs,
            ).len() <= bound
        },
{
    lemma_lazy_start::<W, Op, Cache>(l);
    let (l1, r) = lazy_start::<W, Op, Cache>(l);
    if let Ok(Some(start)) = r {
        let n = lemma_walk_stops::<W, Op, Cache>(l1, start, max_states, max_trs);
        lemma_walk_end::<W, Op, Cache>(l1, start, max_states, max_trs, n);
        let end = walk::<W, Op, Cache>(walk_begin::<W, Op>(l1, start), max_states, max_trs, n);
        if end.error is None && max_states != Some(0usize) {
            lemma_walk_sound::<W, Op, Cache>(l1, start, max_states, max_trs, n);
            lemma_walk_within::<W, Op, Cache>(l1, start, max_states, max_trs, n);
            lemma_walk_starts::<W, Op, Cache>(l1, start, max_states, max_trs, n);
        }
    }
}

/// The start state is the first that a walk meets.
pub proof fn lemma_walk_starts<W: Semiring, Op: FstOp<W>, Cache: FstCache<W>>(
    l: LazyM<W::M, Op::S>,
    start: StateId,
    max_states: Option<usize>,
    max_trs: Option<usize>,
    n: nat,
)
    requires
        can_begin::<W, Op>(l, start),
    ensures
        ({
            let b = walk::<W, Op, Cache>(
                walk_begin::<W, Op>(l, start),
                max_states,
                max_trs,
                n,
            );
            b.discovered.len() >= 1 && b.discovered[0] == start
        }),
    decreases n,
{
    if n > 0 {
        let begin = walk_begin::<W, Op>(l, start);
        lemma_walk_starts::<W, Op, Cache>(l, start, max_states, max_trs, (n - 1) as nat);
        let prev = walk::<W, Op, Cache>(begin, max_states, max_trs, (n - 1) as nat);
        if !prev.stopped() {
            let (l1, r) = lazy_trs::<W, Op, Cache>(prev.lazy, prev.discovered[prev.expanded]);
            if let Ok(trs) = r {
                lemma_discover_extends(prev.discovered, trs, max_states);
            }
        }
    }
}

/// As long as the unbounded walk keeps the bounds, the bounded one does the same.
proof fn lemma_walk_unbounded<W: Semiring, Op: FstOp<W>, Cache: FstCache<W>>(
    l: LazyM<W::M, Op::S>,
    start: StateId,
    max_states: Option<usize>,
    max_trs: Option<usize>,
    n: nat,
)
    requires
        can_begin::<W, Op>(l, start),
        walk::<W, Op, Cache>(walk_begin::<W, Op>(l, start), None, None, n).error is None,
        ({
            let b = walk::<W, Op, Cache>(walk_begin::<W, Op>(l, start), None, None, n);
            &&& max_states matches Some(bound) ==> b.discovered.len() <= bound
            &&& max_trs matches Some(bound) ==> bound == usize::MAX || count_trs(b.states) <= bound
        }),
    ensures
        walk::<W, Op, Cache>(
            walk_begin::<W, Op>(l, start),
            max_states,
            max_trs,
            n,
        ).error is None,
        same_walk(
            walk::<W, Op, Cache>(walk_begin::<W, Op>(l, start), None, None, n),
            walk::<W, Op, Cache>(walk_begin::<W, Op>(l, start), max_states, max_trs, n),
        ),
    decreases n,
{
    let begin = walk_begin::<W, Op>(l, start);
    lemma_walk_starts::<W, Op, Cache>(l, start, None, None, n);
    if n > 0 {
        let prev = walk::<W, Op, Cache>(begin, None, None, (n - 1) as nat);
        lemma_walk_sound::<W, Op, Cache>(l, start, None, None, (n - 1) as nat);
        if !prev.stopped() {
            let s = prev.discovered[prev.expanded];
            let (l1, r) = lazy_trs::<W, Op, Cache>(prev.lazy, s);
            lemma_step_sound::<W, Op, Cache>(prev, None, None);
            if let Ok(trs) = r {
                lemma_discover_unbounded(prev.discovered, trs, max_states);
                lemma_walk_unbounded::<W, Op, Cache>(
                    l,
                    start,
                    max_states,
                    max_trs,
                    (n - 1) as nat,
                );
                lemma_walk_within::<W, Op, Cache>(
                    l,
                    start,
                    max_states,
                    max_trs,
                    (n - 1) as nat,
                );
            }
        } else {
            lemma_walk_unbounded::<W, Op, Cache>(l, start, max_states, max_trs, (n - 1) as nat);
        }
    }
}

/// A bounded run fails only when it has to: if the unbounded run meets no more
/// states and writes out no more transitions than allowed, the bounded run ends
/// in the same machine. The largest number there is allows any number of transitions.
pub proof fn law_bounds_trip_only_when_exceeded<W: Semiring, Op: FstOp<W>, Cache: FstCache<W>>(
    l: LazyM<W::M, Op::S>,
    isymt: Option<Arc<SymbolTable>>,
    osymt: Option<Arc<SymbolTable>>,
    max_states: Option<usize>,
    max_trs: Option<usize>,
)
    requires
        lazy_valid::<W, Op>(l),
        compute_model::<W, Op, Cache>(l, isymt, osymt, None, None).1 is Ok,
        max_states matches Some(bound) ==> states_met::<W, Op, Cache>(l, None, None).len() <= bound,
        max_trs matches Some(bound) ==> bound == usize::MAX || count_trs(
            compute_model::<W, Op, Cache>(l, isymt, osymt, None, None).1->Ok_0.states,
        ) <= bound,
    ensures
        compute_model::<W, Op, Cache>(l, isymt, osymt, max_states, max_trs) == compute_model::<
            W,
            Op,
            Cache,
        >(l, isymt, osymt, None, None),
{
    lemma_lazy_start::<W, Op, Cache>(l);
    let (l1, r) = lazy_start::<W, Op, Cache>(l);
    if let Ok(Some(start)) = r {
        let n = lemma_walk_stops::<W, Op, Cache>(l1, start, None, None);
        lemma_walk_end::<W, Op, Cache>(l1, start, None, None, n);
        lemma_walk_starts::<W, Op, Cache>(l1, start, None, None, n);
        lemma_walk_unbounded::<W, Op, Cache>(l1, start, max_states, max_trs, n);
        let begin = walk_begin::<W, Op>(l1, start);
        assert(walk::<W, Op, Cache>(begin, max_states, max_trs, n).stopped());
        lemma_walk_end::<W, Op, Cache>(l1, start, max_states, max_trs, n);
    }
}

/// So many states and transitions are within the bounds; the largest number there is
/// allows any number of transitions.
pub open spec fn allowed(
    states: nat,
    trs: nat,
    max_states: Option<usize>,
    max_trs: Option<usize>,
) -> bool {
    &&& max_states matches Some(bound) ==> states <= bound
    &&& max_trs matches Some(bound) ==> bound == usize::MAX || trs <= bound
}

/// A bounded run ends in a machine exactly when the unbounded run does, and the states
/// it meets and the transitions it writes out are within the bounds. It is the same
/// machine.
pub proof fn law_bounds_decide<W: Semiring, Op: FstOp<W>, Cache: FstCache<W>>(
    l: LazyM<W::M, Op::S>,
    isymt: Option<Arc<SymbolTable>>,
    osymt: Option<Arc<SymbolTable>>,
    max_states: Option<usize>,
    max_trs: Option<usize>,
)
    requires
        lazy_valid::<W, Op>(l),
    ensures
        ({
            let bounded = compute_model::<W, Op, Cache>(l, isymt, osymt, max_states, max_trs);
            let unbounded = compute_model::<W, Op, Cache>(l, isymt, osymt, None, None);
            &&& bounded.1 is Ok <==> unbounded.1 is Ok && allowed(
                states_met::<W, Op, Cache>(l, None, None).len(),
                count_trs(unbounded.1->Ok_0.states),
                max_states,
                max_trs,
            )
            &&& bounded.1 is Ok ==> bounded == unbounded
        }),
{
    let bounded = compute_model::<W, Op, Cache>(l, isymt, osymt, max_states, max_trs);
    let unbounded = compute_model::<W, Op, Cache>(l, isymt, osymt, None, None);
    if bounded.1 is Ok {
        law_bounds_are_harmless::<W, Op, Cache>(l, isymt, osymt, max_states, max_trs);
        law_output_keeps_bounds::<W, Op, Cache>(l, isymt, osymt, max_states, max_trs);
    }
    if unbounded.1 is Ok && allowed(
        states_met::<W, Op, Cache>(l, None, None).len(),
        count_trs(unbounded.1->Ok_0.states),
        max_states,
        max_trs,
    ) {
        law_bounds_trip_only_when_exceeded::<W, Op, Cache>(l, isymt, osymt, max_states, max_trs);
    }
}

/// The error says that a bound was exceeded, and names it.
pub open spec fn names_bound(
    e: FstError,
    max_states: Option<usize>,
    max_trs: Option<usize>,
) -> bool {
    match e {
        FstError::StateBudgetExceeded { limit } => max_states == Some(limit),
        FstError::TrBudgetExceeded(excess) => max_trs == Some(excess.limit),
        _ => false,
    }
}

/// The error says that a bound was exceeded, and names it: so many states or
/// transitions are more than that.
pub open spec fn over_budget(
    e: FstError,
    states: nat,
    trs: nat,
    max_states: Option<usize>,
    max_trs: Option<usize>,
) -> bool {
    match e {
        FstError::StateBudgetExceeded { limit } => max_states == Some(limit) && states > limit,
        FstError::TrBudgetExceeded(excess) => max_trs == Some(excess.limit) && excess.limit
            < excess.attempted <= trs,
        _ => false,
    }
}

/// The bounded walk fails where the unbounded one does, or when a bound is exceeded.
proof fn lemma_walk_budget<W: Semiring, Op: FstOp<W>, Cache: FstCache<W>>(
    l: LazyM<W::M, Op::S>,
    start: StateId,
    max_states: Option<usize>,
    max_trs: Option<usize>,
    n: nat,
)
    requires
        can_begin::<W, Op>(l, start),
        max_states != Some(0usize),
    ensures
        ({
            let a = walk::<W, Op, Cache>(walk_begin::<W, Op>(l, start), None, None, n);
            let b = walk::<W, Op, Cache>(walk_begin::<W, Op>(l, start), max_states, max_trs, n);
            &&& b.error is None ==> same_walk(a, b)
            &&& b.error matches Some(e) ==> if a.error is None {
                over_budget(e, a.discovered.len(), count_trs(a.states), max_states, max_trs)
            } else {
                a.error == Some(e) || names_bound(e, max_states, max_trs)
            }
            &&& max_trs is None ==> (max_states matches Some(limit) ==> (a.discovered.len() > limit
                ==> b.error == Some(FstError::StateBudgetExceeded { limit })))
        }),
    decreases n,
{
    if n > 0 {
        let m = (n - 1) as nat;
        let begin = walk_begin::<W, Op>(l, start);
        let a = walk::<W, Op, Cache>(begin, None, None, m);
        let b = walk::<W, Op, Cache>(begin, max_states, max_trs, m);
        lemma_walk_sound::<W, Op, Cache>(l, start, None, None, m);
        if !a.stopped() {
            lemma_step_sound::<W, Op, Cache>(a, None, None);
            let (l1, r) = lazy_trs::<W, Op, Cache>(a.lazy, a.discovered[a.expanded]);
            if let Ok(trs) = r {
                lemma_discover_unbounded(a.discovered, trs, max_states);
            }
        }
        lemma_walk_budget::<W, Op, Cache>(l, start, max_states, max_trs, m);
        if b.error is None {
            lemma_walk_within::<W, Op, Cache>(l, start, max_states, max_trs, m);
            if walk::<W, Op, Cache>(begin, max_states, max_trs, n).error is None {
                lemma_walk_within::<W, Op, Cache>(l, start, max_states, max_trs, n);
            }
        }
    }
}

/// When the unbounded run ends in a machine and the bounded one fails, it says which bound
/// is too small: so many states are met, or so many transitions written out, without
/// bounds. When the unbounded run fails, so does the bounded one, in the same way, or
/// because a bound is exceeded before. If more states are met than are allowed, and there
/// is no bound on transitions, the run always says so.
pub proof fn law_bounds_are_named<W: Semiring, Op: FstOp<W>, Cache: FstCache<W>>(
    l: LazyM<W::M, Op::S>,
    isymt: Option<Arc<SymbolTable>>,
    osymt: Option<Arc<SymbolTable>>,
    max_states: Option<usize>,
    max_trs: Option<usize>,
)
    requires
        lazy_valid::<W, Op>(l),
    ensures
        ({
            let bounded = compute_model::<W, Op, Cache>(l, isymt, osymt, max_states, max_trs).1;
            let unbounded = compute_model::<W, Op, Cache>(l, isymt, osymt, None, None).1;
            let met = states_met::<W, Op, Cache>(l, None, None).len();
            &&& bounded matches Err(e) ==> match unbounded {
                Ok(out) => over_budget(e, met, count_trs(out.states), max_states, max_trs),
                Err(f) => f == e || names_bound(e, max_states, max_trs),
            }
            &&& max_trs is None ==> (max_states matches Some(limit) ==> (met > limit ==> bounded
                == Err::<FstM<W::M>, FstError>(FstError::StateBudgetExceeded { limit })))
        }),
{
    lemma_lazy_start::<W, Op, Cache>(l);
    let (l1, r) = lazy_start::<W, Op, Cache>(l);
    if let Ok(Some(start)) = r {
        let n = lemma_walk_stops::<W, Op, Cache>(l1, start, None, None);
        lemma_walk_end::<W, Op, Cache>(l1, start, None, None, n);
        lemma_walk_starts::<W, Op, Cache>(l1, start, None, None, n);
        if max_states != Some(0usize) {
            lemma_walk_budget::<W, Op, Cache>(l1, start, max_states, max_trs, n);
            let begin = walk_begin::<W, Op>(l1, start);
            assert(walk::<W, Op, Cache>(begin, max_states, max_trs, n).stopped());
            lemma_walk_end::<W, Op, Cache>(l1, start, max_states, max_trs, n);
        }
    }
}

/// The states that are met are different, and each of them is written out.
pub proof fn lemma_met_are_written<W: Semiring, Op: FstOp<W>, Cache: FstCache<W>>(
    l: LazyM<W::M, Op::S>,
    isymt: Option<Arc<SymbolTable>>,
    osymt: Option<Arc<SymbolTable>>,
    max_states: Option<usize>,
    max_trs: Option<usize>,
)
    requires
        lazy_valid::<W, Op>(l),
    ensures
        compute_model::<W, Op, Cache>(l, isymt, osymt, max_states, max_trs).1 matches Ok(out) ==> {
            let met = states_met::<W, Op, Cache>(l, max_states, max_trs);
            &&& met.no_duplicates()
            &&& forall|i: int| 0 <= i < met.len() ==> #[trigger] met[i] < out.states.len()
        },
{
    lemma_lazy_start::<W, Op, Cache>(l);
    let (l1, r) = lazy_start::<W, Op, Cache>(l);
    if let Ok(Some(start)) = r {
        let n = lemma_walk_stops::<W, Op, Cache>(l1, start, max_states, max_trs);
        lemma_walk_end::<W, Op, Cache>(l1, start, max_states, max_trs, n);
        lemma_walk_sound::<W, Op, Cache>(l1, start, max_states, max_trs, n);
    }
}

/// Whether two walks differ at most in what is cached, and nothing is cached of
/// the states that are still to be expanded.
spec fn same_but_cache<M, S>(a: WalkM<M, S>, b: WalkM<M, S>) -> bool {
    &&& a == WalkM { lazy: LazyM { cache: a.lazy.cache, op: b.lazy.op }, ..b }
    &&& forall|i: int|
        a.expanded <= i < a.discovered.len() ==> {
            &&& !a.lazy.cache.trs.contains_key(#[trigger] a.discovered[i])
            &&& !a.lazy.cache.final_weights.contains_key(a.discovered[i])
            &&& !b.lazy.cache.trs.contains_key(a.discovered[i])
            &&& !b.lazy.cache.final_weights.contains_key(a.discovered[i])
        }
    &&& forall|s: StateId|
        !a.discovered.contains(s) ==> {
            &&& !(#[trigger] a.lazy.cache.trs.contains_key(s))
            &&& !a.lazy.cache.final_weights.contains_key(s)
            &&& !b.lazy.cache.trs.contains_key(s)
            &&& !b.lazy.cache.final_weights.contains_key(s)
        }
}

proof fn lemma_walk_cache_free<
    W: Semiring,
    Op: FstOp<W>,
    CacheA: FstCache<W>,
    CacheB: FstCache<W>,
>(
    a: LazyM<W::M, Op::S>,
    b: LazyM<W::M, Op::S>,
    start: StateId,
    max_states: Option<usize>,
    max_trs: Option<usize>,
    n: nat,
)
    requires
        can_begin::<W, Op>(a, start),
        can_begin::<W, Op>(b, start),
        same_but_cache(walk_begin::<W, Op>(a, start), walk_begin::<W, Op>(b, start)),
    ensures
        ({
            let x = walk::<W, Op, CacheA>(walk_begin::<W, Op>(a, start), max_states, max_trs, n);
            let y = walk::<W, Op, CacheB>(walk_begin::<W, Op>(b, start), max_states, max_trs, n);
            &&& x.error == y.error
            &&& x.stopped() == y.stopped()
            &&& x.states == y.states
            &&& x.lazy.op == y.lazy.op
            &&& x.error is None ==> same_but_cache(x, y)
        }),
    decreases n,
{
    if n > 0 {
        lemma_walk_cache_free::<W, Op, CacheA, CacheB>(
            a,
            b,
            start,
            max_states,
            max_trs,
            (n - 1) as nat,
        );
        let begin_a = walk_begin::<W, Op>(a, start);
        let begin_b = walk_begin::<W, Op>(b, start);
        let x = walk::<W, Op, CacheA>(begin_a, max_states, max_trs, (n - 1) as nat);
        let y = walk::<W, Op, CacheB>(begin_b, max_states, max_trs, (n - 1) as nat);
        lemma_walk_sound::<W, Op, CacheA>(a, start, max_states, max_trs, (n - 1) as nat);
        if !x.stopped() {
            let s = x.discovered[x.expanded];
            assert(!x.lazy.cache.trs.contains_key(s));
            let (l1, r) = lazy_trs::<W, Op, CacheA>(x.lazy, s);
            if let Ok(trs) = r {
                lemma_discover_extends(x.discovered, trs, max_states);
                lemma_discover_distinct(x.discovered, trs, max_states);
                let x2 = walk_step::<W, Op, CacheA>(x, max_states, max_trs);
                let y2 = walk_step::<W, Op, CacheB>(y, max_states, max_trs);
                if x2.error is None {
                    let d = x2.discovered;
                    assert forall|i: int| x2.expanded <= i < d.len() implies {
                        &&& !x2.lazy.cache.trs.contains_key(#[trigger] d[i])
                        &&& !x2.lazy.cache.final_weights.contains_key(d[i])
                        &&& !y2.lazy.cache.trs.contains_key(d[i])
                        &&& !y2.lazy.cache.final_weights.contains_key(d[i])
                    } by {
                        assert(d[x.expanded] == s);
                        assert(d[i] != d[x.expanded]);
                        if i < x.discovered.len() {
                            assert(d[i] == x.discovered[i]);
                        } else {
                            if x.discovered.contains(d[i]) {
                                let w = choose|w: int|
                                    0 <= w < x.discovered.len() && x.discovered[w] == d[i];
                                assert(d[w] == d[i]);
                            }
                            assert(!x.lazy.cache.trs.contains_key(d[i]));
                        }
                    }
                    assert forall|t: StateId| !d.contains(t) implies {
                        &&& !(#[trigger] x2.lazy.cache.trs.contains_key(t))
                        &&& !x2.lazy.cache.final_weights.contains_key(t)
                        &&& !y2.lazy.cache.trs.contains_key(t)
                        &&& !y2.lazy.cache.final_weights.contains_key(t)
                    } by {
                        assert(d[x.expanded] == s);
                        if x.discovered.contains(t) {
                            let w = choose|w: int|
                                0 <= w < x.discovered.len() && x.discovered[w] == t;
                            assert(d[w] == t);
                        }
                        assert(!x.lazy.cache.trs.contains_key(t));
                    }
                }
            }
        }
    }
}

/// Which cache is used makes no difference to the machine that is written out:
/// a walk asks for everything once, so nothing is ever read back.
pub proof fn law_cache_is_transparent<
    W: Semiring,
    Op: FstOp<W>,
    CacheA: FstCache<W>,
    CacheB: FstCache<W>,
>(
    op: Op::S,
    isymt: Option<Arc<SymbolTable>>,
    osymt: Option<Arc<SymbolTable>>,
    max_states: Option<usize>,
    max_trs: Option<usize>,
)
    requires
        Op::valid(op),
    ensures
        compute_model::<W, Op, CacheA>(
            LazyM { cache: CacheM::empty(), op },
            isymt,
            osymt,
            max_states,
            max_trs,
        ).1 == compute_model::<W, Op, CacheB>(
            LazyM { cache: CacheM::empty(), op },
            isymt,
            osymt,
            max_states,
            max_trs,
        ).1,
{
    let l = LazyM { cache: CacheM::<W::M>::empty(), op };
    assert(lazy_valid::<W, Op>(l));
    lemma_lazy_start::<W, Op, CacheA>(l);
    lemma_lazy_start::<W, Op, CacheB>(l);
    let (a, r) = lazy_start::<W, Op, CacheA>(l);
    let (b, q) = lazy_start::<W, Op, CacheB>(l);
    if let Ok(Some(start)) = r {
        let n = lemma_walk_stops::<W, Op, CacheA>(a, start, max_states, max_trs);
        lemma_walk_cache_free::<W, Op, CacheA, CacheB>(a, b, start, max_states, max_trs, n);
        lemma_walk_end::<W, Op, CacheA>(a, start, max_states, max_trs, n);
        lemma_walk_end::<W, Op, CacheB>(b, start, max_states, max_trs, n);
    }
}

/// The states that are met when a machine is written out, in order.
pub open spec fn states_met<W: Semiring, Op: FstOp<W>, Cache: FstCache<W>>(
    l: LazyM<W::M, Op::S>,
    max_states: Option<usize>,
    max_trs: Option<usize>,
) -> Seq<StateId> {
    match lazy_start::<W, Op, Cache>(l).1 {
        Ok(Some(start)) => walk_end::<W, Op, Cache>(
            lazy_start::<W, Op, Cache>(l).0,
            start,
            max_states,
            max_trs,
        ).discovered,
        _ => Seq::empty(),
    }
}

/// Asking an operation for everything about one state.
pub open spec fn op_expand<W: Semiring, Op: FstOp<W>>(s: Op::S, id: StateId) -> (
    Op::S,
    Result<StateM<W::M>, FstError>,
) {
    let (s1, r) = Op::trs_model(s, id);
    match r {
        Err(e) => (s1, Err(e)),
        Ok(trs) => {
            let (s2, f) = Op::final_weight_model(s1, id);
            match f {
                Err(e) => (s2, Err(e)),
                Ok(final_weight) => (s2, Ok(StateM { final_weight, trs })),
            }
        },
    }
}

/// `good` holds of the operation once the start state is known, and stays true
/// as states are expanded.
pub open spec fn kept_by_expansion<W: Semiring, Op: FstOp<W>>(
    begin: Op::S,
    good: spec_fn(Op::S) -> bool,
) -> bool {
    &&& Op::start_model(begin).1 is Ok ==> good(Op::start_model(begin).0)
    &&& forall|s: Op::S, id: StateId|
        Op::valid(s) && good(s) && Op::known(s, id) && (#[trigger] op_expand::<W, Op>(
            s,
            id,
        )).1 is Ok ==> good(op_expand::<W, Op>(s, id).0)
}

/// `holds` relates each state to what was computed for it, and stays true as
/// further states are expanded.
pub open spec fn true_of_expansion<W: Semiring, Op: FstOp<W>>(
    good: spec_fn(Op::S) -> bool,
    holds: spec_fn(Op::S, StateId, StateM<W::M>) -> bool,
) -> bool {
    &&& forall|s: Op::S, id: StateId|
        Op::valid(s) && good(s) && Op::known(s, id) && (#[trigger] op_expand::<W, Op>(
            s,
            id,
        )).1 is Ok ==> holds(op_expand::<W, Op>(s, id).0, id, op_expand::<W, Op>(s, id).1->Ok_0)
    &&& forall|s: Op::S, id: StateId, other: StateId, state: StateM<W::M>|
        Op::valid(s) && good(s) && Op::known(s, id) && (#[trigger] op_expand::<W, Op>(
            s,
            id,
        )).1 is Ok && (#[trigger] holds(s, other, state)) ==> holds(
            op_expand::<W, Op>(s, id).0,
            other,
            state,
        )
}

proof fn lemma_walk_keeps<W: Semiring, Op: FstOp<W>>(
    begin: Op::S,
    start: StateId,
    max_states: Option<usize>,
    max_trs: Option<usize>,
    n: nat,
    good: spec_fn(Op::S) -> bool,
    holds: spec_fn(Op::S, StateId, StateM<W::M>) -> bool,
)
    requires
        Op::valid(begin),
        Op::start_model(begin).1 == Ok::<Option<StateId>, FstError>(Some(start)),
        kept_by_expansion::<W, Op>(begin, good),
        true_of_expansion::<W, Op>(good, holds),
    ensures
        ({
            let l = LazyM { cache: CacheM::empty(), op: Op::start_model(begin).0 };
            let b = walk::<W, Op, NullCache<W>>(
                walk_begin::<W, Op>(l, start),
                max_states,
                max_trs,
                n,
            );
            b.error is None ==> {
                &&& b.lazy.cache == CacheM::<W::M>::empty()
                &&& good(b.lazy.op)
                &&& forall|i: int|
                    0 <= i < b.expanded ==> holds(
                        b.lazy.op,
                        #[trigger] b.discovered[i],
                        b.states[b.discovered[i] as int],
                    )
            }
        }),
    decreases n,
{
    Op::lemma_start(begin);
    let l = LazyM { cache: CacheM::<W::M>::empty(), op: Op::start_model(begin).0 };
    let first = walk_begin::<W, Op>(l, start);
    if n > 0 {
        lemma_walk_keeps::<W, Op>(begin, start, max_states, max_trs, (n - 1) as nat, good, holds);
        lemma_walk_sound::<W, Op, NullCache<W>>(l, start, max_states, max_trs, (n - 1) as nat);
        let prev = walk::<W, Op, NullCache<W>>(first, max_states, max_trs, (n - 1) as nat);
        if !prev.stopped() {
            let s = prev.discovered[prev.expanded];
            let b = walk_step::<W, Op, NullCache<W>>(prev, max_states, max_trs);
            let (l1, r) = lazy_trs::<W, Op, NullCache<W>>(prev.lazy, s);
            if let Ok(trs) = r {
                lemma_discover_extends(prev.discovered, trs, max_states);
                lemma_discover_distinct(prev.discovered, trs, max_states);
                lemma_states_needed(prev.states.len() as int, trs);
            }
            if b.error is None {
                let x = op_expand::<W, Op>(prev.lazy.op, s);
                assert(x.1 == Ok::<StateM<W::M>, FstError>(b.states[s as int]));
                assert(b.lazy.op == x.0);
                assert forall|i: int| 0 <= i < b.expanded implies holds(
                    b.lazy.op,
                    #[trigger] b.discovered[i],
                    b.states[b.discovered[i] as int],
                ) by {
                    if i < prev.expanded {
                        assert(b.discovered[i] == prev.discovered[i]);
                        assert(prev.discovered[i] != s);
                        assert(holds(
                            prev.lazy.op,
                            prev.discovered[i],
                            prev.states[prev.discovered[i] as int],
                        ));
                    }
                }
            }
        }
    }
}

/// What holds of every expansion holds of the machine that is written out.
///
/// Whatever relation ties a state to what the operation computes for it, and is
/// not lost when the operation goes on, ties every state that was met to what is
/// written out for it; and the states that were met contain the start state and
/// every destination.
pub proof fn law_output_follows_operation<W: Semiring, Op: FstOp<W>>(
    begin: Op::S,
    isymt: Option<Arc<SymbolTable>>,
    osymt: Option<Arc<SymbolTable>>,
    max_states: Option<usize>,
    max_trs: Option<usize>,
    good: spec_fn(Op::S) -> bool,
    holds: spec_fn(Op::S, StateId, StateM<W::M>) -> bool,
)
    requires
        Op::valid(begin),
        kept_by_expansion::<W, Op>(begin, good),
        true_of_expansion::<W, Op>(good, holds),
    ensures
        ({
            let (l, r) = compute_model::<W, Op, NullCache<W>>(
                LazyM { cache: CacheM::empty(), op: begin },
                isymt,
                osymt,
                max_states,
                max_trs,
            );
            let met = states_met::<W, Op, NullCache<W>>(
                LazyM { cache: CacheM::empty(), op: begin },
                max_states,
                max_trs,
            );
            r matches Ok(fst) ==> {
                &&& Op::valid(l.op)
                &&& good(l.op)
                &&& Op::start_model(begin).1 == Ok::<Option<StateId>, FstError>(fst.start)
                &&& fst.start matches Some(start) ==> met.contains(start)
                &&& fst.start is Some ==> 1 <= fst.states.len() <= NO_STATE_ID && met.contains(
                    (fst.states.len() - 1) as StateId,
                )
                &&& fst.start is None ==> fst.states.len() == 0
                &&& fst.start is None ==> l.op == Op::start_model(begin).0
                &&& forall|id: StateId| #[trigger]
                    met.contains(id) ==> {
                        &&& id < fst.states.len()
                        &&& Op::known(l.op, id)
                        &&& holds(l.op, id, fst.states[id as int])
                        &&& forall|j: int|
                            0 <= j < fst.states[id as int].trs.len() ==> met.contains(
                                (#[trigger] fst.states[id as int].trs[j]).nextstate,
                            )
                    }
                &&& forall|k: int|
                    0 <= k < fst.states.len() && (k > u32::MAX || !met.contains(k as StateId))
                        ==> #[trigger] fst.states[k] == StateM::<W::M>::fresh()
            }
        }),
{
    let l0 = LazyM { cache: CacheM::<W::M>::empty(), op: begin };
    Op::lemma_start(begin);
    lemma_lazy_start::<W, Op, NullCache<W>>(l0);
    let (l1, r) = lazy_start::<W, Op, NullCache<W>>(l0);
    if let Ok(Some(start)) = r {
        let n = lemma_walk_stops::<W, Op, NullCache<W>>(l1, start, max_states, max_trs);
        lemma_walk_end::<W, Op, NullCache<W>>(l1, start, max_states, max_trs, n);
        lemma_walk_keeps::<W, Op>(begin, start, max_states, max_trs, n, good, holds);
        lemma_walk_sound::<W, Op, NullCache<W>>(l1, start, max_states, max_trs, n);
        lemma_walk_starts::<W, Op, NullCache<W>>(l1, start, max_states, max_trs, n);
        let end = walk::<W, Op, NullCache<W>>(
            walk_begin::<W, Op>(l1, start),
            max_states,
            max_trs,
            n,
        );
        if end.error is None {
            let met = end.discovered;
            assert forall|id: StateId| #[trigger] met.contains(id) implies {
                &&& id < end.states.len()
                &&& Op::known(end.lazy.op, id)
                &&& holds(end.lazy.op, id, end.states[id as int])
                &&& forall|j: int|
                    0 <= j < end.states[id as int].trs.len() ==> met.contains(
                        (#[trigger] end.states[id as int].trs[j]).nextstate,
                    )
            } by {
                let i = choose|i: int| 0 <= i < met.len() && met[i] == id;
                assert(holds(end.lazy.op, end.discovered[i], end.states[end.discovered[i] as int]));
                assert(end.discovered[i] < end.states.len());
            }
        }
    }
}

/// The operation knows a state only because it is the start state or the
/// destination of a transition that it has named.
pub open spec fn knows_what_it_named<W: Semiring, Op: FstOp<W>>(begin: Op::S) -> bool {
    &&& forall|id: StateId| #[trigger]
        Op::known(Op::start_model(begin).0, id) ==> Op::start_model(begin).1 == Ok::<
            Option<StateId>,
            FstError,
        >(Some(id))
    &&& forall|s: Op::S, id: StateId, other: StateId|
        Op::valid(s) && Op::known(s, id) && (#[trigger] op_expand::<W, Op>(s, id)).1 is Ok
            && #[trigger] Op::known(op_expand::<W, Op>(s, id).0, other) ==> Op::known(s, other)
            || named_by(op_expand::<W, Op>(s, id).1->Ok_0.trs, other)
}

/// Some transition leads to the state.
pub open spec fn named_by<M>(trs: Seq<TrM<M>>, id: StateId) -> bool {
    exists|j: int| 0 <= j < trs.len() && (#[trigger] trs[j]).nextstate == id
}

proof fn lemma_walk_meets_known<W: Semiring, Op: FstOp<W>>(
    begin: Op::S,
    start: StateId,
    max_states: Option<usize>,
    max_trs: Option<usize>,
    n: nat,
)
    requires
        Op::valid(begin),
        Op::start_model(begin).1 == Ok::<Option<StateId>, FstError>(Some(start)),
        knows_what_it_named::<W, Op>(begin),
    ensures
        ({
            let l = LazyM { cache: CacheM::empty(), op: Op::start_model(begin).0 };
            let b = walk::<W, Op, NullCache<W>>(
                walk_begin::<W, Op>(l, start),
                max_states,
                max_trs,
                n,
            );
            b.error is None ==> b.lazy.cache == CacheM::<W::M>::empty() && forall|id: StateId|
                #[trigger]
                Op::known(b.lazy.op, id) ==> b.discovered.contains(id)
        }),
    decreases n,
{
    Op::lemma_start(begin);
    let l = LazyM { cache: CacheM::<W::M>::empty(), op: Op::start_model(begin).0 };
    let first = walk_begin::<W, Op>(l, start);
    assert(first.discovered[0] == start);
    if n > 0 {
        lemma_walk_meets_known::<W, Op>(begin, start, max_states, max_trs, (n - 1) as nat);
        lemma_walk_sound::<W, Op, NullCache<W>>(l, start, max_states, max_trs, (n - 1) as nat);
        let prev = walk::<W, Op, NullCache<W>>(first, max_states, max_trs, (n - 1) as nat);
        if !prev.stopped() {
            let s = prev.discovered[prev.expanded];
            let b = walk_step::<W, Op, NullCache<W>>(prev, max_states, max_trs);
            let (l1, r) = lazy_trs::<W, Op, NullCache<W>>(prev.lazy, s);
            if let Ok(trs) = r {
                lemma_discover_extends(prev.discovered, trs, max_states);
                lemma_discover_distinct(prev.discovered, trs, max_states);
            }
            if b.error is None {
                let x = op_expand::<W, Op>(prev.lazy.op, s);
                assert(x.1 is Ok);
                let trs = x.1->Ok_0.trs;
                assert forall|id: StateId| #[trigger]
                    Op::known(b.lazy.op, id) implies b.discovered.contains(id) by {
                    assert(Op::known(op_expand::<W, Op>(prev.lazy.op, s).0, id));
                    if Op::known(prev.lazy.op, id) {
                        assert(prev.discovered.contains(id));
                        let w = choose|w: int|
                            0 <= w < prev.discovered.len() && prev.discovered[w] == id;
                        assert(b.discovered[w] == id);
                    } else {
                        let j = choose|j: int|
                            0 <= j < trs.len() && (#[trigger] trs[j]).nextstate == id;
                        assert(b.discovered.contains(trs[j].nextstate));
                    }
                }
            }
        }
    }
}

/// Every state that the operation knows in the end was met, and so is written
/// out.
pub proof fn law_known_states_are_met<W: Semiring, Op: FstOp<W>>(
    begin: Op::S,
    isymt: Option<Arc<SymbolTable>>,
    osymt: Option<Arc<SymbolTable>>,
    max_states: Option<usize>,
    max_trs: Option<usize>,
)
    requires
        Op::valid(begin),
        knows_what_it_named::<W, Op>(begin),
    ensures
        ({
            let (l, r) = compute_model::<W, Op, NullCache<W>>(
                LazyM { cache: CacheM::empty(), op: begin },
                isymt,
                osymt,
                max_states,
                max_trs,
            );
            let met = states_met::<W, Op, NullCache<W>>(
                LazyM { cache: CacheM::empty(), op: begin },
                max_states,
                max_trs,
            );
            r is Ok ==> forall|id: StateId| #[trigger] Op::known(l.op, id) ==> met.contains(id)
        }),
{
    let l0 = LazyM { cache: CacheM::<W::M>::empty(), op: begin };
    Op::lemma_start(begin);
    lemma_lazy_start::<W, Op, NullCache<W>>(l0);
    let (l1, r) = lazy_start::<W, Op, NullCache<W>>(l0);
    if let Ok(Some(start)) = r {
        let n = lemma_walk_stops::<W, Op, NullCache<W>>(l1, start, max_states, max_trs);
        lemma_walk_end::<W, Op, NullCache<W>>(l1, start, max_states, max_trs, n);
        lemma_walk_meets_known::<W, Op>(begin, start, max_states, max_trs, n);
    }
}

} // verus!
