//! Lazy machines and how they are written out.

use crate::error::{ComputeTrLimitExceeded, FstError};
use crate::fst::properties::FstProperties;
use crate::fst::symbol_table::SymbolTable;
use crate::fst::tr::{duplicate_trs, trs_model, StateId, Tr, TrM, TrsVec, NO_STATE_ID};
use crate::fst::vector_fst::{duplicate_option, option_model, FstM, StateM, VectorFst};
use crate::lazy::cache::{
    count_input_epsilons, count_output_epsilons, CacheM, CacheStatus, FstCache,
};
use crate::lazy::fst_op::{destinations_known, FstOp};
use crate::semirings::semiring::Semiring;
use std::collections::VecDeque;
use std::marker::PhantomData;
use std::sync::Arc;
use vstd::prelude::*;

verus! {

/// The state of a lazy machine: what is cached, and the state of the operation.
pub struct LazyM<M, S> {
    pub cache: CacheM<M>,
    pub op: S,
}

/// Everything that the cache can answer is known to the operation.
pub open spec fn lazy_valid<W: Semiring, Op: FstOp<W>>(l: LazyM<W::M, Op::S>) -> bool {
    &&& Op::valid(l.op)
    &&& l.cache.start matches CacheStatus::Computed(Some(s)) ==> s < NO_STATE_ID && Op::known(
        l.op,
        s,
    )
    &&& forall|id: StateId| #[trigger]
        l.cache.trs.contains_key(id) ==> destinations_known::<W, Op>(l.op, l.cache.trs[id])
}

/// Asking a lazy machine for its start state.
pub open spec fn lazy_start<W: Semiring, Op: FstOp<W>, Cache: FstCache<W>>(
    l: LazyM<W::M, Op::S>,
) -> (LazyM<W::M, Op::S>, Result<Option<StateId>, FstError>) {
    match l.cache.start {
        CacheStatus::Computed(start) => (l, Ok(start)),
        CacheStatus::NotComputed => {
            let (op, r) = Op::start_model(l.op);
            match r {
                Ok(start) => (
                    LazyM {
                        cache: if Cache::keeps() {
                            l.cache.with_start(start)
                        } else {
                            l.cache
                        },
                        op,
                    },
                    r,
                ),
                Err(e) => (LazyM { cache: l.cache, op }, r),
            }
        },
    }
}

/// Asking a lazy machine for the transitions of a state.
pub open spec fn lazy_trs<W: Semiring, Op: FstOp<W>, Cache: FstCache<W>>(
    l: LazyM<W::M, Op::S>,
    id: StateId,
) -> (LazyM<W::M, Op::S>, Result<Seq<TrM<W::M>>, FstError>) {
    if l.cache.trs.contains_key(id) {
        (l, Ok(l.cache.trs[id]))
    } else {
        let (op, r) = Op::trs_model(l.op, id);
        match r {
            Ok(trs) => (
                LazyM {
                    cache: if Cache::keeps() {
                        l.cache.with_trs(id, trs)
                    } else {
                        l.cache
                    },
                    op,
                },
                r,
            ),
            Err(e) => (LazyM { cache: l.cache, op }, r),
        }
    }
}

/// Asking a lazy machine for the final weight of a state.
pub open spec fn lazy_final_weight<W: Semiring, Op: FstOp<W>, Cache: FstCache<W>>(
    l: LazyM<W::M, Op::S>,
    id: StateId,
) -> (LazyM<W::M, Op::S>, Result<Option<W::M>, FstError>) {
    if l.cache.final_weights.contains_key(id) {
        (l, Ok(l.cache.final_weights[id]))
    } else {
        let (op, r) = Op::final_weight_model(l.op, id);
        match r {
            Ok(w) => (
                LazyM {
                    cache: if Cache::keeps() {
                        l.cache.with_final_weight(id, w)
                    } else {
                        l.cache
                    },
                    op,
                },
                r,
            ),
            Err(e) => (LazyM { cache: l.cache, op }, r),
        }
    }
}

/// A walk over a lazy machine, breadth first.
pub struct WalkM<M, S> {
    pub lazy: LazyM<M, S>,
    /// The states met so far, in the order in which they were met.
    pub discovered: Seq<StateId>,
    /// How many of them have been expanded.
    pub expanded: int,
    /// How many transitions were produced, as far as a bound asks for it.
    pub num_trs: int,
    /// The states written so far.
    pub states: Seq<StateM<M>>,
    /// Why the walk stopped early, if it did.
    pub error: Option<FstError>,
}

impl<M, S> WalkM<M, S> {
    /// Nothing is left to do.
    pub open spec fn stopped(self) -> bool {
        self.error is Some || self.expanded >= self.discovered.len()
    }
}

/// `n` states that are not final and have no transitions.
pub open spec fn fresh_states<M>(n: int) -> Seq<StateM<M>> {
    Seq::new(
        (if n >= 0 {
            n
        } else {
            0
        }) as nat,
        |i: int| StateM::<M>::fresh(),
    )
}

/// The states met once the destinations of `trs` have been looked at in order;
/// an error when a new one is one too many.
pub open spec fn discover<M>(
    discovered: Seq<StateId>,
    trs: Seq<TrM<M>>,
    max_states: Option<usize>,
) -> Result<Seq<StateId>, FstError>
    decreases trs.len(),
{
    if trs.len() == 0 {
        Ok(discovered)
    } else {
        match discover(discovered, trs.drop_last(), max_states) {
            Err(e) => Err(e),
            Ok(d) => {
                if d.contains(trs.last().nextstate) {
                    Ok(d)
                } else if max_states matches Some(bound) && d.len() + 1 > bound {
                    Err(FstError::StateBudgetExceeded { limit: max_states->0 })
                } else {
                    Ok(d.push(trs.last().nextstate))
                }
            },
        }
    }
}

/// How many states the output needs to have `n` and every destination of `trs`.
pub open spec fn states_needed<M>(n: int, trs: Seq<TrM<M>>) -> int
    decreases trs.len(),
{
    if trs.len() == 0 {
        n
    } else {
        let m = states_needed(n, trs.drop_last());
        if trs.last().nextstate >= m {
            trs.last().nextstate + 1
        } else {
            m
        }
    }
}

/// A sum that stops at the largest number of the machine.
pub open spec fn saturating(a: int, b: int) -> int {
    if a + b > usize::MAX {
        usize::MAX as int
    } else {
        a + b
    }
}

/// The walk after one more state has been expanded.
pub open spec fn walk_step<W: Semiring, Op: FstOp<W>, Cache: FstCache<W>>(
    b: WalkM<W::M, Op::S>,
    max_states: Option<usize>,
    max_trs: Option<usize>,
) -> WalkM<W::M, Op::S> {
    let s = b.discovered[b.expanded];
    let (l1, r) = lazy_trs::<W, Op, Cache>(b.lazy, s);
    match r {
        Err(e) => WalkM { lazy: l1, error: Some(e), ..b },
        Ok(trs) => {
            let num_trs = if max_trs is Some {
                saturating(b.num_trs, trs.len() as int)
            } else {
                b.num_trs
            };
            if max_trs matches Some(bound) && num_trs > bound {
                WalkM {
                    lazy: l1,
                    error: Some(
                        FstError::TrBudgetExceeded(
                            ComputeTrLimitExceeded {
                                limit: max_trs->0,
                                attempted: num_trs as usize,
                            },
                        ),
                    ),
                    ..b
                }
            } else {
                match discover(b.discovered, trs, max_states) {
                    Err(e) => WalkM { lazy: l1, error: Some(e), ..b },
                    Ok(discovered) => {
                        let grown = b.states + fresh_states::<W::M>(
                            states_needed(b.states.len() as int, trs) - b.states.len(),
                        );
                        let (l2, f) = lazy_final_weight::<W, Op, Cache>(l1, s);
                        match f {
                            Err(e) => WalkM { lazy: l2, error: Some(e), ..b },
                            Ok(w) => WalkM {
                                lazy: l2,
                                discovered,
                                expanded: b.expanded + 1,
                                num_trs,
                                states: grown.update(
                                    s as int,
                                    StateM { trs, final_weight: w },
                                ),
                                error: None,
                            },
                        }
                    },
                }
            }
        },
    }
}

/// The walk after at most `n` more states have been expanded.
pub open spec fn walk<W: Semiring, Op: FstOp<W>, Cache: FstCache<W>>(
    b: WalkM<W::M, Op::S>,
    max_states: Option<usize>,
    max_trs: Option<usize>,
    n: nat,
) -> WalkM<W::M, Op::S>
    decreases n,
{
    if n == 0 {
        b
    } else {
        let prev = walk::<W, Op, Cache>(b, max_states, max_trs, (n - 1) as nat);
        if prev.stopped() {
            prev
        } else {
            walk_step::<W, Op, Cache>(prev, max_states, max_trs)
        }
    }
}

/// A walk that has met only the start state.
pub open spec fn walk_begin<W: Semiring, Op: FstOp<W>>(
    l: LazyM<W::M, Op::S>,
    start: StateId,
) -> WalkM<W::M, Op::S> {
    WalkM {
        lazy: l,
        discovered: seq![start],
        expanded: 0,
        num_trs: 0,
        states: fresh_states::<W::M>(start + 1),
        error: None,
    }
}

/// The walk when nothing is left to do.
pub open spec fn walk_end<W: Semiring, Op: FstOp<W>, Cache: FstCache<W>>(
    l: LazyM<W::M, Op::S>,
    start: StateId,
    max_states: Option<usize>,
    max_trs: Option<usize>,
) -> WalkM<W::M, Op::S> {
    let b = walk_begin::<W, Op>(l, start);
    let n = choose|n: nat| (#[trigger] walk::<W, Op, Cache>(b, max_states, max_trs, n)).stopped();
    walk::<W, Op, Cache>(b, max_states, max_trs, n)
}

/// Writing out a lazy machine: the state it is left in, and the machine.
pub open spec fn compute_model<W: Semiring, Op: FstOp<W>, Cache: FstCache<W>>(
    l: LazyM<W::M, Op::S>,
    isymt: Option<Arc<SymbolTable>>,
    osymt: Option<Arc<SymbolTable>>,
    max_states: Option<usize>,
    max_trs: Option<usize>,
) -> (LazyM<W::M, Op::S>, Result<FstM<W::M>, FstError>) {
    let (l1, r) = lazy_start::<W, Op, Cache>(l);
    match r {
        Err(e) => (l1, Err(e)),
        Ok(None) => (l1, Ok(FstM::empty())),
        Ok(Some(start)) => if max_states == Some(0usize) {
            (l1, Err(FstError::StateBudgetExceeded { limit: 0 }))
        } else {
            let end = walk_end::<W, Op, Cache>(l1, start, max_states, max_trs);
            (
                end.lazy,
                match end.error {
                    Some(e) => Err(e),
                    None => Ok(
                        FstM {
                            start: Some(start),
                            states: end.states,
                            properties: Op::properties_model(end.lazy.op),
                            isymt,
                            osymt,
                        },
                    ),
                },
            )
        },
    }
}

/// A stopped walk stays as it is.
pub proof fn lemma_walk_stopped<W: Semiring, Op: FstOp<W>, Cache: FstCache<W>>(
    b: WalkM<W::M, Op::S>,
    max_states: Option<usize>,
    max_trs: Option<usize>,
    m: nat,
    n: nat,
)
    requires
        m <= n,
        walk::<W, Op, Cache>(b, max_states, max_trs, m).stopped(),
    ensures
        walk::<W, Op, Cache>(b, max_states, max_trs, n) == walk::<W, Op, Cache>(
            b,
            max_states,
            max_trs,
            m,
        ),
    decreases n - m,
{
    if m < n {
        lemma_walk_stopped::<W, Op, Cache>(b, max_states, max_trs, m, (n - 1) as nat);
    }
}

/// However long it takes, the walk ends in one way.
pub proof fn lemma_walk_end<W: Semiring, Op: FstOp<W>, Cache: FstCache<W>>(
    l: LazyM<W::M, Op::S>,
    start: StateId,
    max_states: Option<usize>,
    max_trs: Option<usize>,
    n: nat,
)
    requires
        walk::<W, Op, Cache>(walk_begin::<W, Op>(l, start), max_states, max_trs, n).stopped(),
    ensures
        walk_end::<W, Op, Cache>(l, start, max_states, max_trs) == walk::<W, Op, Cache>(
            walk_begin::<W, Op>(l, start),
            max_states,
            max_trs,
            n,
        ),
{
    let b = walk_begin::<W, Op>(l, start);
    let m = choose|n: nat| (#[trigger] walk::<W, Op, Cache>(b, max_states, max_trs, n)).stopped();
    if m <= n {
        lemma_walk_stopped::<W, Op, Cache>(b, max_states, max_trs, m, n);
    } else {
        lemma_walk_stopped::<W, Op, Cache>(b, max_states, max_trs, n, m);
    }
}

/// Asking for the start state keeps a lazy machine valid.
pub proof fn lemma_lazy_start<W: Semiring, Op: FstOp<W>, Cache: FstCache<W>>(
    l: LazyM<W::M, Op::S>,
)
    requires
        lazy_valid::<W, Op>(l),
    ensures
        lazy_valid::<W, Op>(lazy_start::<W, Op, Cache>(l).0),
        forall|id: StateId|
            Op::known(l.op, id) ==> #[trigger] Op::known(
                lazy_start::<W, Op, Cache>(l).0.op,
                id,
            ),
        lazy_start::<W, Op, Cache>(l).1 matches Ok(Some(s)) ==> s < NO_STATE_ID && Op::known(
            lazy_start::<W, Op, Cache>(l).0.op,
            s,
        ),
{
    Op::lemma_start(l.op);
}

/// Asking for transitions keeps a lazy machine valid.
pub proof fn lemma_lazy_trs<W: Semiring, Op: FstOp<W>, Cache: FstCache<W>>(
    l: LazyM<W::M, Op::S>,
    id: StateId,
)
    requires
        lazy_valid::<W, Op>(l),
        Op::known(l.op, id),
    ensures
        lazy_valid::<W, Op>(lazy_trs::<W, Op, Cache>(l, id).0),
        forall|other: StateId|
            Op::known(l.op, other) ==> #[trigger] Op::known(
                lazy_trs::<W, Op, Cache>(l, id).0.op,
                other,
            ),
        lazy_trs::<W, Op, Cache>(l, id).1 matches Ok(trs) ==> destinations_known::<W, Op>(
            lazy_trs::<W, Op, Cache>(l, id).0.op,
            trs,
        ),
{
    Op::lemma_trs(l.op, id);
}

/// Asking for a final weight keeps a lazy machine valid.
pub proof fn lemma_lazy_final_weight<W: Semiring, Op: FstOp<W>, Cache: FstCache<W>>(
    l: LazyM<W::M, Op::S>,
    id: StateId,
)
    requires
        lazy_valid::<W, Op>(l),
        Op::known(l.op, id),
    ensures
        lazy_valid::<W, Op>(lazy_final_weight::<W, Op, Cache>(l, id).0),
        forall|other: StateId|
            Op::known(l.op, other) ==> #[trigger] Op::known(
                lazy_final_weight::<W, Op, Cache>(l, id).0.op,
                other,
            ),
{
    Op::lemma_final_weight(l.op, id);
}

/// How a walk hangs together: the states met are distinct and exist in the
/// output, and those not yet expanded are still blank.
pub open spec fn walk_shape<M>(
    discovered: Seq<StateId>,
    expanded: int,
    states: Seq<StateM<M>>,
) -> bool {
    &&& 0 <= expanded <= discovered.len()
    &&& discovered.no_duplicates()
    &&& forall|i: int|
        0 <= i < discovered.len() ==> (#[trigger] discovered[i]) < NO_STATE_ID && discovered[i]
            < states.len()
    &&& forall|i: int|
        expanded <= i < discovered.len() ==> states[(#[trigger] discovered[i]) as int] == StateM::<
            M,
        >::fresh()
    &&& forall|s: int|
        0 <= s < states.len() && (s > u32::MAX || !discovered.contains(s as StateId))
            ==> #[trigger] states[s] == StateM::<M>::fresh()
}

/// Distinct state ids are limited in number.
pub proof fn lemma_ids_bound(d: Seq<StateId>)
    requires
        d.no_duplicates(),
        forall|i: int| 0 <= i < d.len() ==> #[trigger] d[i] < NO_STATE_ID,
    ensures
        d.len() <= NO_STATE_ID,
{
    let e = d.map_values(|x: StateId| x as int);
    assert(e.no_duplicates()) by {
        assert forall|i: int, j: int|
            0 <= i < e.len() && 0 <= j < e.len() && i != j implies e[i] != e[j] by {
            assert(d[i] != d[j]);
        }
    }
    e.unique_seq_to_set();
    vstd::set_lib::lemma_int_range(0, NO_STATE_ID as int);
    let range = vstd::set_lib::set_int_range(0, NO_STATE_ID as int);
    assert(e.to_set().subset_of(range)) by {
        assert forall|x: int| e.to_set().contains(x) implies range.contains(x) by {
            let i = choose|i: int| 0 <= i < e.len() && e[i] == x;
            assert(d[i] < NO_STATE_ID);
        }
    }
    vstd::set_lib::lemma_len_subset(e.to_set(), range);
}

/// `visited` marks exactly the states met.
spec fn marks(visited: Seq<bool>, discovered: Seq<StateId>) -> bool {
    forall|s: StateId| #[trigger]
        discovered.contains(s) <==> s < visited.len() && visited[s as int]
}

/// A machine that computes its states when they are asked for, and remembers
/// them as far as its cache does.
#[derive(Debug)]
pub struct LazyFst<W, Op, Cache> {
    cache: Cache,
    op: Op,
    w: PhantomData<W>,
    isymt: Option<Arc<SymbolTable>>,
    osymt: Option<Arc<SymbolTable>>,
}

impl<W: Semiring, Op: FstOp<W>, Cache: FstCache<W>> LazyFst<W, Op, Cache> {
    pub closed spec fn model(&self) -> LazyM<W::M, Op::S> {
        LazyM { cache: self.cache.model(), op: self.op.state() }
    }

    pub closed spec fn inv(&self) -> bool {
        &&& self.cache.inv()
        &&& self.op.inv()
        &&& lazy_valid::<W, Op>(self.model())
    }

    /// What is known of a lazy machine from its invariant.
    pub proof fn lemma_inv(&self)
        requires
            self.inv(),
        ensures
            lazy_valid::<W, Op>(self.model()),
    {
    }

    pub closed spec fn input_table(&self) -> Option<Arc<SymbolTable>> {
        self.isymt
    }

    pub closed spec fn output_table(&self) -> Option<Arc<SymbolTable>> {
        self.osymt
    }

    /// The lazy machine of an operation.
    pub fn from_op_and_cache(
        op: Op,
        cache: Cache,
        isymt: Option<Arc<SymbolTable>>,
        osymt: Option<Arc<SymbolTable>>,
    ) -> (r: Self)
        requires
            op.inv(),
            cache.inv(),
            lazy_valid::<W, Op>(LazyM { cache: cache.model(), op: op.state() }),
        ensures
            r.inv(),
            r.model() == (LazyM { cache: cache.model(), op: op.state() }),
            r.input_table() == isymt,
            r.output_table() == osymt,
    {
        LazyFst { cache, op, w: PhantomData, isymt, osymt }
    }

    /// The start state.
    pub fn start(&mut self) -> (r: Option<StateId>)
        requires
            old(self).inv(),
            lazy_start::<W, Op, Cache>(old(self).model()).1 is Ok,
        ensures
            final(self).inv(),
            (final(self).model(), Ok::<Option<StateId>, FstError>(r)) == lazy_start::<
                W,
                Op,
                Cache,
            >(old(self).model()),
            r matches Some(s) ==> s < NO_STATE_ID && Op::known(final(self).model().op, s),
            forall|s: StateId|
                Op::known(old(self).model().op, s) ==> #[trigger] Op::known(
                    final(self).model().op,
                    s,
                ),
            final(self).input_table() == old(self).input_table(),
            final(self).output_table() == old(self).output_table(),
    {
        proof {
            lemma_lazy_start::<W, Op, Cache>(self.model());
        }
        match self.cache.get_start() {
            CacheStatus::Computed(start) => start,
            CacheStatus::NotComputed => {
                let start: Option<StateId> = match self.op.compute_start() {
                    Ok(start) => start,
                    Err(_) => None,
                };
                self.cache.insert_start(start);
                start
            },
        }
    }

    /// The transitions of a state.
    pub fn get_trs(&mut self, id: StateId) -> (r: Result<TrsVec<W>, FstError>)
        requires
            old(self).inv(),
            Op::known(old(self).model().op, id),
            id < NO_STATE_ID,
        ensures
            final(self).inv(),
            final(self).model() == lazy_trs::<W, Op, Cache>(old(self).model(), id).0,
            match r {
                Ok(trs) => lazy_trs::<W, Op, Cache>(old(self).model(), id).1 == Ok::<
                    Seq<TrM<W::M>>,
                    FstError,
                >(trs.model()),
                Err(e) => lazy_trs::<W, Op, Cache>(old(self).model(), id).1 == Err::<
                    Seq<TrM<W::M>>,
                    FstError,
                >(e),
            },
            r matches Ok(trs) ==> destinations_known::<W, Op>(
                final(self).model().op,
                trs.model(),
            ),
            forall|s: StateId|
                Op::known(old(self).model().op, s) ==> #[trigger] Op::known(
                    final(self).model().op,
                    s,
                ),
            final(self).input_table() == old(self).input_table(),
            final(self).output_table() == old(self).output_table(),
    {
        proof {
            lemma_lazy_trs::<W, Op, Cache>(self.model(), id);
        }
        match self.cache.get_trs(id) {
            CacheStatus::Computed(trs) => Ok(trs),
            CacheStatus::NotComputed => {
                let trs: TrsVec<W> = match self.op.compute_trs(id) {
                    Ok(trs) => trs,
                    Err(e) => {
                        return Err(e);
                    },
                };
                self.cache.insert_trs(id, trs.shallow_clone());
                Ok(trs)
            },
        }
    }

    /// The final weight of a state; `None` if it is not final.
    pub fn final_weight(&mut self, id: StateId) -> (r: Result<Option<W>, FstError>)
        requires
            old(self).inv(),
            Op::known(old(self).model().op, id),
            id < NO_STATE_ID,
        ensures
            final(self).inv(),
            final(self).model() == lazy_final_weight::<W, Op, Cache>(old(self).model(), id).0,
            match r {
                Ok(w) => lazy_final_weight::<W, Op, Cache>(old(self).model(), id).1 == Ok::<
                    Option<W::M>,
                    FstError,
                >(option_model(w)),
                Err(e) => lazy_final_weight::<W, Op, Cache>(old(self).model(), id).1 == Err::<
                    Option<W::M>,
                    FstError,
                >(e),
            },
            forall|s: StateId|
                Op::known(old(self).model().op, s) ==> #[trigger] Op::known(
                    final(self).model().op,
                    s,
                ),
            final(self).input_table() == old(self).input_table(),
            final(self).output_table() == old(self).output_table(),
    {
        proof {
            lemma_lazy_final_weight::<W, Op, Cache>(self.model(), id);
        }
        match self.cache.get_final_weight(id) {
            CacheStatus::Computed(w) => Ok(w),
            CacheStatus::NotComputed => {
                let w: Option<W> = match self.op.compute_final_weight(id) {
                    Ok(w) => w,
                    Err(e) => {
                        return Err(e);
                    },
                };
                self.cache.insert_final_weight(
                    id,
                    duplicate_option(&w),
                );
                Ok(w)
            },
        }
    }

    /// How many transitions a state has, as long as they are kept.
    pub fn num_trs(&self, id: StateId) -> (r: Result<usize, FstError>)
        requires
            self.inv(),
        ensures
            match r {
                Ok(n) => self.model().cache.trs.contains_key(id) && n
                    == self.model().cache.trs[id].len(),
                Err(e) => !self.model().cache.trs.contains_key(id) && e == (
                FstError::StateNotFound { state: id }),
            },
    {
        match self.cache.num_trs(id) {
            Some(n) => Ok(n),
            None => Err(FstError::StateNotFound { state: id }),
        }
    }

    /// How many transitions of a state read nothing, as long as they are kept.
    pub fn num_input_epsilons(&self, id: StateId) -> (r: Result<usize, FstError>)
        requires
            self.inv(),
        ensures
            match r {
                Ok(n) => self.model().cache.trs.contains_key(id) && n == count_input_epsilons(
                    self.model().cache.trs[id],
                ),
                Err(e) => !self.model().cache.trs.contains_key(id) && e == (
                FstError::StateNotFound { state: id }),
            },
    {
        match self.cache.num_input_epsilons(id) {
            Some(n) => Ok(n),
            None => Err(FstError::StateNotFound { state: id }),
        }
    }

    /// How many transitions of a state write nothing, as long as they are kept.
    pub fn num_output_epsilons(&self, id: StateId) -> (r: Result<usize, FstError>)
        requires
            self.inv(),
        ensures
            match r {
                Ok(n) => self.model().cache.trs.contains_key(id) && n == count_output_epsilons(
                    self.model().cache.trs[id],
                ),
                Err(e) => !self.model().cache.trs.contains_key(id) && e == (
                FstError::StateNotFound { state: id }),
            },
    {
        match self.cache.num_output_epsilons(id) {
            Some(n) => Ok(n),
            None => Err(FstError::StateNotFound { state: id }),
        }
    }

    /// What the operation knows of the machine.
    pub fn properties(&self) -> (r: FstProperties)
        requires
            self.inv(),
        ensures
            r == Op::properties_model(self.model().op),
    {
        self.op.properties()
    }
}

impl<W: Semiring, Op: FstOp<W>, Cache: FstCache<W>> LazyFst<W, Op, Cache> {
    /// Looks at the destinations of `trs`: queues those that are new, and makes
    /// room for all of them in the output.
    fn meet_destinations(
        trs: &Vec<Tr<W>>,
        max_states: Option<usize>,
        queue: &mut VecDeque<StateId>,
        visited: &mut Vec<bool>,
        fst_out: &mut VectorFst<W>,
        num_discovered: usize,
        Ghost(discovered): Ghost<Seq<StateId>>,
        Ghost(expanded): Ghost<int>,
    ) -> (r: Result<usize, FstError>)
        requires
            walk_shape(discovered, expanded, old(fst_out).model().states),
            num_discovered == discovered.len(),
            old(queue)@ == discovered.skip(expanded),
            marks(old(visited)@, discovered),
            forall|i: int|
                0 <= i < trs.len() ==> (#[trigger] trs_model(trs@)[i]).nextstate < NO_STATE_ID,
        ensures
            match r {
                Err(e) => discover(discovered, trs_model(trs@), max_states) == Err::<
                    Seq<StateId>,
                    FstError,
                >(e),
                Ok(n) => discover(discovered, trs_model(trs@), max_states) matches Ok(d) && {
                    &&& n == d.len()
                    &&& final(queue)@ == d.skip(expanded)
                    &&& marks(final(visited)@, d)
                    &&& walk_shape(d, expanded, final(fst_out).model().states)
                    &&& final(fst_out).model().start == old(fst_out).model().start
                    &&& final(fst_out).model().isymt == old(fst_out).model().isymt
                    &&& final(fst_out).model().osymt == old(fst_out).model().osymt
                    &&& final(fst_out).model().states == old(fst_out).model().states
                        + fresh_states::<W::M>(
                        states_needed(
                            old(fst_out).model().states.len() as int,
                            trs_model(trs@),
                        ) - old(fst_out).model().states.len(),
                    )
                },
            },
    {
        let ghost m = trs_model(trs@);
        let ghost before = fst_out.model();
        let ghost mut d = discovered;
        let mut num_discovered: usize = num_discovered;
        let n: usize = trs.len();
        assert(m.take(0) =~= Seq::empty());
        assert(before.states =~= before.states + fresh_states::<W::M>(0));
        for i in 0..n
            invariant
                n == trs.len(),
                m == trs_model(trs@),
                forall|i: int| 0 <= i < m.len() ==> (#[trigger] m[i]).nextstate < NO_STATE_ID,
                discover(discovered, m.take(i as int), max_states) == Ok::<
                    Seq<StateId>,
                    FstError,
                >(d),
                num_discovered == d.len(),
                expanded <= d.len(),
                queue@ == d.skip(expanded),
                marks(visited@, d),
                walk_shape(d, expanded, fst_out.model().states),
                fst_out.model().start == before.start,
                fst_out.model().isymt == before.isymt,
                fst_out.model().osymt == before.osymt,
                states_needed(before.states.len() as int, m.take(i as int))
                    >= before.states.len(),
                fst_out.model().states == before.states + fresh_states::<W::M>(
                    states_needed(before.states.len() as int, m.take(i as int))
                        - before.states.len(),
                ),
        {
            let next: StateId = trs[i].nextstate;
            proof {
                assert(m[i as int] == trs@[i as int].model());
                assert(m.take(i + 1).drop_last() =~= m.take(i as int));
                assert(m.take(i + 1).last() == m[i as int]);
                lemma_ids_bound(d);
                if discover(discovered, m.take(i + 1), max_states) is Err {
                    lemma_discover_err(discovered, m, max_states, i + 1, n as int);
                }
            }
            if next as usize >= visited.len() {
                let ghost old_visited = visited@;
                visited.resize(next as usize + 1, false);
                assert(marks(visited@, d)) by {
                    assert forall|s: StateId| #[trigger]
                        d.contains(s) <==> s < visited@.len() && visited@[s as int] by {
                        if s < old_visited.len() {
                            assert(visited@.subrange(0, old_visited.len() as int)[s as int]
                                == old_visited[s as int]);
                        }
                    }
                }
            }
            let ghost prev_d = d;
            let fresh: bool = !visited[next as usize];
            if fresh {
                queue.push_back(next);
                visited[next as usize] = true;
                if let Some(bound) = max_states {
                    if num_discovered >= bound {
                        assert(m.take(n as int) =~= m);
                        return Err(FstError::StateBudgetExceeded { limit: bound });
                    }
                }
                proof {
                    d = d.push(next);
                    assert(d.no_duplicates()) by {
                        assert(!prev_d.contains(next));
                        assert forall|x: int, y: int|
                            0 <= x < d.len() && 0 <= y < d.len() && x != y implies d[x] != d[y] by {
                            if x == prev_d.len() {
                                assert(prev_d[y] != next);
                            } else if y == prev_d.len() {
                                assert(prev_d[x] != next);
                            } else {
                                assert(prev_d[x] != prev_d[y]);
                            }
                        }
                    }
                    lemma_ids_bound(d);
                }
                num_discovered += 1;
                proof {
                    assert(queue@ =~= d.skip(expanded));
                    assert(d[d.len() - 1] == next);
                    assert(marks(visited@, d)) by {
                        assert forall|s: StateId| #[trigger]
                            d.contains(s) <==> s < visited@.len() && visited@[s as int] by {
                            if prev_d.contains(s) {
                                let w = choose|w: int| 0 <= w < prev_d.len() && prev_d[w] == s;
                                assert(d[w] == s);
                            }
                            if d.contains(s) && s != next {
                                let w = choose|w: int| 0 <= w < d.len() && d[w] == s;
                                assert(prev_d[w] == s);
                            }
                        }
                    }
                }
            }
            let ghost prev_states = fst_out.model().states;
            let have: usize = fst_out.num_states();
            if next as usize >= have {
                fst_out.add_states(next as usize - have + 1);
            }
            proof {
                assert(fst_out.model().states =~= before.states + fresh_states::<W::M>(
                    states_needed(before.states.len() as int, m.take(i + 1))
                        - before.states.len(),
                ));
                let st = fst_out.model().states;
                assert(walk_shape(d, expanded, st)) by {
                    assert forall|x: int| 0 <= x < d.len() implies (#[trigger] d[x]) < NO_STATE_ID
                        && d[x] < st.len() by {
                        if x < prev_d.len() {
                            assert(prev_d[x] == d[x]);
                        }
                    }
                    assert forall|s: int|
                        0 <= s < st.len() && (s > u32::MAX || !d.contains(s as StateId))
                            implies #[trigger] st[s] == StateM::<W::M>::fresh() by {
                        if s < prev_states.len() {
                            assert(st[s] == prev_states[s]);
                            if s <= u32::MAX && prev_d.contains(s as StateId) {
                                let w = choose|w: int|
                                    0 <= w < prev_d.len() && prev_d[w] == s as StateId;
                                assert(d[w] == s as StateId);
                            }
                        }
                    }
                    assert forall|x: int| expanded <= x < d.len() implies st[(
                    #[trigger] d[x]) as int] == StateM::<W::M>::fresh() by {
                        if x < prev_d.len() {
                            assert(prev_d[x] == d[x]);
                            assert(st[d[x] as int] == prev_states[prev_d[x] as int]);
                        } else if next < prev_states.len() {
                            assert(!prev_d.contains(next));
                            assert(st[next as int] == prev_states[next as int]);
                        }
                    }
                }
            }
        }
        assert(m.take(n as int) =~= m);
        Ok(num_discovered)
    }
}

/// An error while looking at the first destinations is the error of all.
proof fn lemma_discover_err<M>(
    discovered: Seq<StateId>,
    trs: Seq<TrM<M>>,
    max_states: Option<usize>,
    i: int,
    n: int,
)
    requires
        0 <= i <= n <= trs.len(),
        discover(discovered, trs.take(i), max_states) is Err,
    ensures
        discover(discovered, trs.take(n), max_states) == discover(
            discovered,
            trs.take(i),
            max_states,
        ),
    decreases n - i,
{
    if i < n {
        lemma_discover_err(discovered, trs, max_states, i, n - 1);
        assert(trs.take(n).drop_last() =~= trs.take(n - 1));
    }
}

impl<W: Semiring, Op: FstOp<W>, Cache: FstCache<W>> LazyFst<W, Op, Cache> {
    /// Turns the lazy machine into a static one.
    pub fn compute(&mut self) -> (r: Result<VectorFst<W>, FstError>)
        requires
            old(self).inv(),
            lazy_start::<W, Op, Cache>(old(self).model()).1 is Ok,
        ensures
            final(self).inv(),
            final(self).input_table() == old(self).input_table(),
            final(self).output_table() == old(self).output_table(),
            ({
                let (l, m) = compute_model::<W, Op, Cache>(
                    old(self).model(),
                    old(self).input_table(),
                    old(self).output_table(),
                    None,
                    None,
                );
                &&& final(self).model() == l
                &&& match r {
                    Ok(fst) => m == Ok::<FstM<W::M>, FstError>(fst.model()),
                    Err(e) => m == Err::<FstM<W::M>, FstError>(e),
                }
            }),
    {
        self.compute_bounded(None, None)
    }

    /// Materializes the lazy machine into a static one, optionally giving up
    /// once more than `max_states` states or `max_trs` transitions have been
    /// produced.
    ///
    /// The two bounds measure different things and neither implies the other. A
    /// state count bounds how many states exist; a transition count bounds the
    /// machine that is actually written out.
    ///
    /// Both bounds count only what the walk has already produced, so an input
    /// that terminates unbounded gives the same machine as long as neither bound
    /// is exceeded.
    pub fn compute_bounded(
        &mut self,
        max_states: Option<usize>,
        max_trs: Option<usize>,
    ) -> (r: Result<VectorFst<W>, FstError>)
        requires
            old(self).inv(),
            lazy_start::<W, Op, Cache>(old(self).model()).1 is Ok,
        ensures
            final(self).inv(),
            final(self).input_table() == old(self).input_table(),
            final(self).output_table() == old(self).output_table(),
            ({
                let (l, m) = compute_model::<W, Op, Cache>(
                    old(self).model(),
                    old(self).input_table(),
                    old(self).output_table(),
                    max_states,
                    max_trs,
                );
                &&& final(self).model() == l
                &&& match r {
                    Ok(fst) => m == Ok::<FstM<W::M>, FstError>(fst.model()),
                    Err(e) => m == Err::<FstM<W::M>, FstError>(e),
                }
            }),
    {
        proof {
            lemma_lazy_start::<W, Op, Cache>(self.model());
        }
        let start_state: Option<StateId> = self.start();
        let ghost l1 = self.model();
        let mut fst_out: VectorFst<W> = VectorFst::new();
        let start: StateId = match start_state {
            Some(s) => s,
            None => {
                return Ok(fst_out);
            },
        };
        if let Some(bound) = max_states {
            if bound < 1 {
                return Err(FstError::StateBudgetExceeded { limit: bound });
            }
        }
        let ghost begin = walk_begin::<W, Op>(l1, start);
        fst_out.add_states(start as usize + 1);
        match fst_out.set_start(start) {
            Ok(()) => {},
            Err(e) => {
                return Err(e);
            },
        }
        let mut queue: VecDeque<StateId> = VecDeque::new();
        let mut visited: Vec<bool> = Vec::new();
        visited.resize(start as usize + 1, false);
        visited[start as usize] = true;
        let mut num_discovered: usize = 1;
        let mut num_trs: usize = 0;
        queue.push_back(start);
        let ghost mut steps: nat = 0;
        let ghost mut b = begin;
        proof {
            assert(fst_out.model().states =~= begin.states);
            assert(queue@ =~= begin.discovered.skip(0));
            assert(begin.discovered[0] == start);
            assert(marks(visited@, begin.discovered));
        }
        while queue.len() > 0
            invariant
                self.inv(),
                self.input_table() == old(self).input_table(),
                self.output_table() == old(self).output_table(),
                begin == walk_begin::<W, Op>(l1, start),
                b == walk::<W, Op, Cache>(begin, max_states, max_trs, steps),
                b.error is None,
                self.model() == b.lazy,
                walk_shape(b.discovered, b.expanded, b.states),
                fst_out.model().states == b.states,
                fst_out.model().start == Some(start),
                fst_out.model().isymt is None,
                fst_out.model().osymt is None,
                num_discovered == b.discovered.len(),
                num_trs == b.num_trs,
                queue@ == b.discovered.skip(b.expanded),
                marks(visited@, b.discovered),
                forall|i: int|
                    0 <= i < b.discovered.len() ==> Op::known(
                        b.lazy.op,
                        #[trigger] b.discovered[i],
                    ),
                lazy_start::<W, Op, Cache>(old(self).model()) == (
                    l1,
                    Ok::<Option<StateId>, FstError>(Some(start)),
                ),
                max_states != Some(0usize),
            decreases NO_STATE_ID - b.expanded,
        {
            let ghost next = walk_step::<W, Op, Cache>(b, max_states, max_trs);
            let ghost prev = b;
            proof {
                assert(walk::<W, Op, Cache>(begin, max_states, max_trs, steps + 1) == next);
                lemma_ids_bound(b.discovered);
                if next.stopped() {
                    lemma_walk_end::<W, Op, Cache>(l1, start, max_states, max_trs, steps + 1);
                }
            }
            let s: StateId = match queue.pop_front() {
                Some(s) => s,
                None => {
                    assert(false);
                    0
                },
            };
            proof {
                assert(s == b.discovered[b.expanded]);
                assert(queue@ =~= b.discovered.skip(b.expanded + 1));
                lemma_lazy_trs::<W, Op, Cache>(b.lazy, s);
            }
            let trs_owner: TrsVec<W> = match self.get_trs(s) {
                Ok(trs) => trs,
                Err(e) => {
                    return Err(e);
                },
            };
            let ghost trs = trs_owner.model();
            if let Some(bound) = max_trs {
                num_trs = num_trs.saturating_add(trs_owner.len());
                if num_trs > bound {
                    return Err(
                        FstError::TrBudgetExceeded(
                            ComputeTrLimitExceeded { limit: bound, attempted: num_trs },
                        ),
                    );
                }
            }
            let ghost before = fst_out.model().states;
            proof {
                lemma_walk_shape_expand(b.discovered, b.expanded, before);
            }
            num_discovered = match Self::meet_destinations(
                trs_owner.trs(),
                max_states,
                &mut queue,
                &mut visited,
                &mut fst_out,
                num_discovered,
                Ghost(b.discovered),
                Ghost(b.expanded + 1),
            ) {
                Ok(n) => n,
                Err(e) => {
                    return Err(e);
                },
            };
            let ghost grown = fst_out.model().states;
            proof {
                lemma_discover_extends(b.discovered, trs, max_states);
                lemma_lazy_final_weight::<W, Op, Cache>(self.model(), s);
            }
            fst_out.set_trs(s, duplicate_trs(trs_owner.trs()));
            match self.final_weight(s) {
                Ok(Some(w)) => {
                    match fst_out.set_final(s, w) {
                        Ok(()) => {},
                        Err(e) => {
                            return Err(e);
                        },
                    }
                },
                Ok(None) => {},
                Err(e) => {
                    return Err(e);
                },
            }
            proof {
                assert(before[s as int] == StateM::<W::M>::fresh());
                assert(fst_out.model().states =~= next.states);
                lemma_walk_shape_write(
                    next.discovered,
                    b.expanded + 1,
                    grown,
                    b.expanded,
                    next.states[s as int],
                );
                steps = steps + 1;
                b = next;
                assert forall|i: int| 0 <= i < b.discovered.len() implies Op::known(
                    b.lazy.op,
                    #[trigger] b.discovered[i],
                ) by {
                    if i < prev.discovered.len() {
                        assert(prev.discovered[i] == b.discovered[i]);
                    } else {
                        let k = choose|k: int|
                            0 <= k < trs.len() && (#[trigger] trs[k]).nextstate == b.discovered[i];
                        assert(trs[k].nextstate == b.discovered[i]);
                    }
                }
            }
        }
        proof {
            assert(b.discovered.skip(b.expanded).len() == b.discovered.len() - b.expanded);
            lemma_walk_end::<W, Op, Cache>(l1, start, max_states, max_trs, steps);
        }
        fst_out.set_properties(self.properties());
        if let Some(isymt) = &self.isymt {
            fst_out.set_input_symbols(isymt.clone());
        }
        if let Some(osymt) = &self.osymt {
            fst_out.set_output_symbols(osymt.clone());
        }
        Ok(fst_out)
    }
}

impl<W: Semiring, Op: FstOp<W>, Cache: FstCache<W>> LazyFst<W, Op, Cache> {
    pub fn input_symbols(&self) -> (r: Option<&Arc<SymbolTable>>)
        ensures
            r == (match self.input_table() {
                Some(t) => Some(&t),
                None => None,
            }),
    {
        self.isymt.as_ref()
    }

    pub fn output_symbols(&self) -> (r: Option<&Arc<SymbolTable>>)
        ensures
            r == (match self.output_table() {
                Some(t) => Some(&t),
                None => None,
            }),
    {
        self.osymt.as_ref()
    }

    pub fn set_input_symbols(&mut self, symt: Arc<SymbolTable>)
        ensures
            final(self).input_table() == Some(symt),
            final(self).output_table() == old(self).output_table(),
            final(self).model() == old(self).model(),
            final(self).inv() == old(self).inv(),
    {
        self.isymt = Some(symt);
    }

    pub fn set_output_symbols(&mut self, symt: Arc<SymbolTable>)
        ensures
            final(self).input_table() == old(self).input_table(),
            final(self).output_table() == Some(symt),
            final(self).model() == old(self).model(),
            final(self).inv() == old(self).inv(),
    {
        self.osymt = Some(symt);
    }

    /// Removes the input symbol table and returns it.
    pub fn take_input_symbols(&mut self) -> (r: Option<Arc<SymbolTable>>)
        ensures
            r == old(self).input_table(),
            final(self).input_table() == None::<Arc<SymbolTable>>,
            final(self).output_table() == old(self).output_table(),
            final(self).model() == old(self).model(),
            final(self).inv() == old(self).inv(),
    {
        self.isymt.take()
    }

    /// Removes the output symbol table and returns it.
    pub fn take_output_symbols(&mut self) -> (r: Option<Arc<SymbolTable>>)
        ensures
            r == old(self).output_table(),
            final(self).input_table() == old(self).input_table(),
            final(self).output_table() == None::<Arc<SymbolTable>>,
            final(self).model() == old(self).model(),
            final(self).inv() == old(self).inv(),
    {
        self.osymt.take()
    }

    /// What the machine remembers of its states.
    pub fn cache(&self) -> (r: &Cache)
        requires
            self.inv(),
        ensures
            r.inv(),
            r.model() == self.model().cache,
    {
        &self.cache
    }

    /// The operation that computes the states.
    pub fn op(&self) -> (r: &Op)
        requires
            self.inv(),
        ensures
            r.inv(),
            r.state() == self.model().op,
    {
        &self.op
    }

    /// The operation, once the machine is no longer needed.
    pub fn into_op(self) -> (r: Op)
        requires
            self.inv(),
        ensures
            r.inv(),
            r.state() == self.model().op,
            Op::valid(r.state()),
    {
        self.op
    }

    /// Computes the start state and returns a position before the first state.
    pub fn states_iter(&mut self) -> (r: StatesIteratorLazyFst)
        requires
            old(self).inv(),
            lazy_start::<W, Op, Cache>(old(self).model()).1 is Ok,
        ensures
            final(self).inv(),
            final(self).model() == lazy_start::<W, Op, Cache>(old(self).model()).0,
            final(self).input_table() == old(self).input_table(),
            final(self).output_table() == old(self).output_table(),
            r.position() == 0,
    {
        let _ = self.start();
        StatesIteratorLazyFst { s: 0 }
    }

    /// Computes the start state and returns a position before the first state.
    pub fn fst_iter(&mut self) -> (r: FstIteratorLazyFst)
        requires
            old(self).inv(),
            lazy_start::<W, Op, Cache>(old(self).model()).1 is Ok,
        ensures
            final(self).inv(),
            final(self).model() == lazy_start::<W, Op, Cache>(old(self).model()).0,
            final(self).input_table() == old(self).input_table(),
            final(self).output_table() == old(self).output_table(),
            r.position() == 0,
    {
        FstIteratorLazyFst { states: self.states_iter() }
    }
}

/// Goes through the states of a lazy machine in the order of their ids, as far as
/// they are known; each state is expanded when it is passed, which may make
/// further states known.
#[derive(Clone, Copy, Debug)]
pub struct StatesIteratorLazyFst {
    s: StateId,
}

impl StatesIteratorLazyFst {
    /// The id of the next state.
    pub closed spec fn position(&self) -> StateId {
        self.s
    }

    /// The next state, which has been expanded; `None` when no further state is
    /// known.
    pub fn next<W: Semiring, Op: FstOp<W>, Cache: FstCache<W>>(
        &mut self,
        fst: &mut LazyFst<W, Op, Cache>,
    ) -> (r: Option<StateId>)
        requires
            old(fst).inv(),
            old(self).position() < old(fst).model().cache.known_states ==> {
                &&& old(self).position() < NO_STATE_ID
                &&& Op::known(old(fst).model().op, old(self).position())
                &&& lazy_trs::<W, Op, Cache>(old(fst).model(), old(self).position()).1 is Ok
            },
        ensures
            final(fst).inv(),
            final(fst).input_table() == old(fst).input_table(),
            final(fst).output_table() == old(fst).output_table(),
            if old(self).position() < old(fst).model().cache.known_states {
                &&& r == Some(old(self).position())
                &&& final(self).position() == old(self).position() + 1
                &&& final(fst).model() == lazy_trs::<W, Op, Cache>(
                    old(fst).model(),
                    old(self).position(),
                ).0
            } else {
                &&& r == None::<StateId>
                &&& final(self).position() == old(self).position()
                &&& final(fst).model() == old(fst).model()
            },
    {
        let num_known_states: usize = fst.cache.num_known_states();
        if (self.s as usize) < num_known_states {
            let s_cur: StateId = self.s;
            let _ = fst.get_trs(s_cur);
            self.s = s_cur + 1;
            Some(s_cur)
        } else {
            None
        }
    }
}

/// Everything about one state.
#[derive(Debug)]
pub struct FstIterData<W> {
    pub state_id: StateId,
    pub trs: TrsVec<W>,
    pub final_weight: Option<W>,
    pub num_trs: usize,
}

/// Goes through the states of a lazy machine and returns everything about each.
#[derive(Clone, Copy, Debug)]
pub struct FstIteratorLazyFst {
    states: StatesIteratorLazyFst,
}

impl FstIteratorLazyFst {
    /// The id of the next state.
    pub closed spec fn position(&self) -> StateId {
        self.states.position()
    }

    /// Everything about the next state; `None` when no further state is known.
    pub fn next<W: Semiring, Op: FstOp<W>, Cache: FstCache<W>>(
        &mut self,
        fst: &mut LazyFst<W, Op, Cache>,
    ) -> (r: Option<FstIterData<W>>)
        requires
            old(fst).inv(),
            Cache::keeps(),
            old(self).position() < old(fst).model().cache.known_states ==> {
                &&& old(self).position() < NO_STATE_ID
                &&& Op::known(old(fst).model().op, old(self).position())
                &&& lazy_trs::<W, Op, Cache>(old(fst).model(), old(self).position()).1 is Ok
                &&& lazy_final_weight::<W, Op, Cache>(
                    lazy_trs::<W, Op, Cache>(old(fst).model(), old(self).position()).0,
                    old(self).position(),
                ).1 is Ok
            },
        ensures
            final(fst).inv(),
            final(fst).input_table() == old(fst).input_table(),
            final(fst).output_table() == old(fst).output_table(),
            if old(self).position() < old(fst).model().cache.known_states {
                let s = old(self).position();
                let (l1, trs) = lazy_trs::<W, Op, Cache>(old(fst).model(), s);
                let (l2, w) = lazy_final_weight::<W, Op, Cache>(l1, s);
                &&& final(self).position() == s + 1
                &&& final(fst).model() == l2
                &&& r matches Some(data)
                &&& data.state_id == s
                &&& trs == Ok::<Seq<TrM<W::M>>, FstError>(data.trs.model())
                &&& w == Ok::<Option<W::M>, FstError>(option_model(data.final_weight))
                &&& data.num_trs == data.trs.model().len()
            } else {
                &&& r is None
                &&& final(self).position() == old(self).position()
                &&& final(fst).model() == old(fst).model()
            },
    {
        proof {
            if self.position() < fst.model().cache.known_states {
                lemma_lazy_trs::<W, Op, Cache>(fst.model(), self.position());
            }
        }
        match self.states.next(fst) {
            None => None,
            Some(state_id) => {
                let trs: TrsVec<W> = match fst.get_trs(state_id) {
                    Ok(trs) => trs,
                    Err(_) => TrsVec::new(),
                };
                let final_weight: Option<W> = match fst.final_weight(state_id) {
                    Ok(w) => w,
                    Err(_) => None,
                };
                let num_trs: usize = match fst.num_trs(state_id) {
                    Ok(n) => n,
                    Err(_) => 0,
                };
                Some(FstIterData { state_id, trs, final_weight, num_trs })
            },
        }
    }
}

/// Looking at destinations only adds to the states met, and adds only them.
pub proof fn lemma_discover_extends<M>(
    discovered: Seq<StateId>,
    trs: Seq<TrM<M>>,
    max_states: Option<usize>,
)
    ensures
        discover(discovered, trs, max_states) matches Ok(d) ==> {
            &&& d.len() >= discovered.len()
            &&& forall|i: int|
                0 <= i < discovered.len() ==> #[trigger] d[i] == discovered[i]
            &&& forall|i: int|
                #![trigger d[i]]
                discovered.len() <= i < d.len() ==> exists|k: int|
                    0 <= k < trs.len() && (#[trigger] trs[k]).nextstate == d[i]
        },
    decreases trs.len(),
{
    if trs.len() > 0 {
        lemma_discover_extends(discovered, trs.drop_last(), max_states);
        if let Ok(d) = discover(discovered, trs, max_states) {
            let p = discover(discovered, trs.drop_last(), max_states)->Ok_0;
            assert forall|i: int|
                #![trigger d[i]]
                discovered.len() <= i < d.len() implies exists|k: int|
                0 <= k < trs.len() && (#[trigger] trs[k]).nextstate == d[i] by {
                if i < p.len() {
                    assert(d[i] == p[i]);
                    let k = choose|k: int|
                        0 <= k < trs.drop_last().len() && (
                        #[trigger] trs.drop_last()[k]).nextstate == p[i];
                    assert(trs[k].nextstate == d[i]);
                } else {
                    assert(trs[trs.len() - 1].nextstate == d[i]);
                }
            }
        }
    }
}

/// Taking the next state off the queue keeps a walk in shape.
proof fn lemma_walk_shape_expand<M>(
    discovered: Seq<StateId>,
    expanded: int,
    states: Seq<StateM<M>>,
)
    requires
        walk_shape(discovered, expanded, states),
        expanded < discovered.len(),
    ensures
        walk_shape(discovered, expanded + 1, states),
{
}

/// Writing a state that has been taken off the queue keeps a walk in shape.
proof fn lemma_walk_shape_write<M>(
    discovered: Seq<StateId>,
    expanded: int,
    states: Seq<StateM<M>>,
    at: int,
    state: StateM<M>,
)
    requires
        walk_shape(discovered, expanded, states),
        0 <= at < expanded,
    ensures
        walk_shape(discovered, expanded, states.update(discovered[at] as int, state)),
{
    let s = discovered[at];
    let after = states.update(s as int, state);
    assert forall|i: int| expanded <= i < discovered.len() implies after[(
    #[trigger] discovered[i]) as int] == StateM::<M>::fresh() by {
        assert(discovered[i] != discovered[at]);
        assert(states[discovered[i] as int] == StateM::<M>::fresh());
    }
    assert forall|k: int|
        0 <= k < after.len() && (k > u32::MAX || !discovered.contains(
            k as StateId,
        )) implies #[trigger] after[k] == StateM::<M>::fresh() by {
        assert(states[k] == StateM::<M>::fresh());
        if k == s {
            assert(discovered.contains(s));
        }
    }
}

} // verus!
