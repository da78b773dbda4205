//! Spreading the strings at the ends of a machine over transitions.

use crate::determinize::element::{
    DeterminizeElement, DeterminizeStateTuple, ElementM, TupleM, WeightedSubset,
};
use crate::determinize::state_table::{find_model, lemma_find, DeterminizeStateTable, TableM};
use crate::error::FstError;
use crate::fst::properties::FstProperties;
use crate::fst::symbol_table::SymbolTable;
use crate::fst::tr::{trs_model, StateId, Tr, TrM, TrsVec, EPS_LABEL, NO_STATE_ID};
use crate::fst::vector_fst::{option_model, FstM, VectorFst};
use crate::lazy::cache::CacheM;
use crate::lazy::fst_op::FstOp;
use crate::lazy::laws::{closed_machine, law_output_keeps_bounds};
use crate::lazy::lazy_fst::{compute_model, LazyFst, LazyM};
use crate::lazy::null_cache::NullCache;
use crate::semirings::semiring::{Semiring, WeightQuantize};
use crate::weight_convert::{pairs_model, Gallic};
use std::marker::PhantomData;
use std::sync::Arc;
use vstd::prelude::*;

verus! {

/// The state that stands for state `q` of the input.
pub open spec fn body_tuple<G: Semiring>(q: StateId) -> TupleM<G::M> {
    TupleM { pairs: seq![ElementM { state: q, weight: G::one_model() }], filter_state: 0 }
}

/// The state from which the given weight is still to be written.
pub open spec fn tail_tuple<M>(weight: M) -> TupleM<M> {
    TupleM { pairs: seq![ElementM { state: 0, weight }], filter_state: 1 }
}

/// What a factored machine is computed from, and the states named so far.
pub struct FactorM<M, D> {
    pub fst: FstM<M>,
    pub table: TableM<M>,
    pub delta: D,
}

/// The transitions of a state of the input, with `weight` in front.
pub open spec fn factor_trs<G: Semiring>(
    t: TableM<G::M>,
    weight: G::M,
    trs: Seq<TrM<G::M>>,
) -> (TableM<G::M>, Result<Seq<TrM<G::M>>, FstError>)
    decreases trs.len(),
{
    if trs.len() == 0 {
        (t, Ok(Seq::empty()))
    } else {
        let (t1, r) = factor_trs::<G>(t, weight, trs.drop_last());
        match r {
            Err(e) => (t1, Err(e)),
            Ok(before) => match G::times_model(weight, trs.last().weight) {
                Err(e) => (t1, Err(e)),
                Ok(w) => {
                    let (t2, found) = find_model::<G>(t1, body_tuple::<G>(trs.last().nextstate));
                    match found {
                        Err(e) => (t2, Err(e)),
                        Ok(nextstate) => (
                            t2,
                            Ok(before.push(TrM { weight: w, nextstate, ..trs.last() })),
                        ),
                    }
                },
            },
        }
    }
}

/// The transitions that write the first parts of the given pairs and lead to where
/// the second parts are still to be written.
pub open spec fn factor_ends<G: WeightQuantize>(
    t: TableM<G::M>,
    delta: G::Delta,
    pairs: Seq<(G::M, G::M)>,
) -> (TableM<G::M>, Result<Seq<TrM<G::M>>, FstError>)
    decreases pairs.len(),
{
    if pairs.len() == 0 {
        (t, Ok(Seq::empty()))
    } else {
        let (t1, r) = factor_ends::<G>(t, delta, pairs.drop_last());
        match r {
            Err(e) => (t1, Err(e)),
            Ok(before) => match G::quantize_model(pairs.last().1, delta) {
                Err(e) => (t1, Err(e)),
                Ok(rest) => {
                    let (t2, found) = find_model::<G>(t1, tail_tuple(rest));
                    match found {
                        Err(e) => (t2, Err(e)),
                        Ok(nextstate) => (
                            t2,
                            Ok(
                                before.push(
                                    TrM {
                                        ilabel: EPS_LABEL,
                                        olabel: EPS_LABEL,
                                        weight: pairs.last().0,
                                        nextstate,
                                    },
                                ),
                            ),
                        ),
                    }
                },
            },
        }
    }
}

/// The weight with which a state ends, if it does.
pub open spec fn end_weight<G: Semiring>(fst: FstM<G::M>, tuple: TupleM<G::M>) -> Result<
    Option<G::M>,
    FstError,
> {
    let element = tuple.pairs[0];
    if tuple.filter_state != 0 {
        Ok(Some(element.weight))
    } else if !fst.has_state(element.state) {
        Err(FstError::StateNotFound { state: element.state })
    } else {
        match fst.states[element.state as int].final_weight {
            None => Ok(None),
            Some(w) => match G::times_model(element.weight, w) {
                Err(e) => Err(e),
                Ok(whole) => Ok(Some(whole)),
            },
        }
    }
}

/// The transitions that a state has from the input.
pub open spec fn body_trs<G: Semiring>(fst: FstM<G::M>, t: TableM<G::M>, tuple: TupleM<G::M>) -> (
    TableM<G::M>,
    Result<Seq<TrM<G::M>>, FstError>,
) {
    let element = tuple.pairs[0];
    if tuple.filter_state != 0 {
        (t, Ok(Seq::empty()))
    } else if !fst.has_state(element.state) {
        (t, Err(FstError::StateNotFound { state: element.state }))
    } else {
        factor_trs::<G>(t, element.weight, fst.states[element.state as int].trs)
    }
}

/// All transitions of a state.
pub open spec fn all_trs<W: Semiring, G: Gallic<W> + WeightQuantize>(
    s: FactorM<G::M, G::Delta>,
    tuple: TupleM<G::M>,
) -> (TableM<G::M>, Result<Seq<TrM<G::M>>, FstError>) {
    let (t1, r) = body_trs::<G>(s.fst, s.table, tuple);
    match r {
        Err(e) => (t1, Err(e)),
        Ok(trs) => match end_weight::<G>(s.fst, tuple) {
            Err(e) => (t1, Err(e)),
            Ok(None) => (t1, Ok(trs)),
            Ok(Some(w)) => {
                let (t2, ends) = factor_ends::<G>(t1, s.delta, G::factors_model(w));
                match ends {
                    Err(e) => (t2, Err(e)),
                    Ok(more) => (t2, Ok(trs + more)),
                }
            },
        },
    }
}

/// What holds of every table of a factored machine.
pub open spec fn factor_valid<M>(t: TableM<M>) -> bool {
    &&& t.valid()
    &&& forall|i: int| 0 <= i < t.tuples.len() ==> (#[trigger] t.tuples[i]).pairs.len() == 1
}

proof fn lemma_factor_find<G: Semiring>(t: TableM<G::M>, tuple: TupleM<G::M>)
    requires
        factor_valid(t),
        tuple.pairs.len() == 1,
    ensures
        ({
            let (after, r) = find_model::<G>(t, tuple);
            &&& factor_valid(after)
            &&& t.tuples.len() <= after.tuples.len()
            &&& forall|i: int| 0 <= i < t.tuples.len() ==> #[trigger] after.tuples[i] == t.tuples[i]
            &&& r matches Ok(id) ==> id < after.tuples.len() && after.tuples[id as int] == tuple
                && id < NO_STATE_ID
        }),
{
    lemma_find::<G>(t, tuple);
    let (after, r) = find_model::<G>(t, tuple);
    assert forall|i: int| 0 <= i < after.tuples.len() implies (
    #[trigger] after.tuples[i]).pairs.len() == 1 by {
        if i < t.tuples.len() {
            assert(after.tuples[i] == t.tuples[i]);
        } else {
            assert(after.tuples == t.tuples.push(tuple));
        }
    }
}

/// Naming destinations keeps every state and names what it says.
pub proof fn lemma_factor_trs<G: Semiring>(
    t: TableM<G::M>,
    weight: G::M,
    trs: Seq<TrM<G::M>>,
)
    requires
        factor_valid(t),
    ensures
        ({
            let (after, r) = factor_trs::<G>(t, weight, trs);
            &&& factor_valid(after)
            &&& t.tuples.len() <= after.tuples.len()
            &&& forall|i: int| 0 <= i < t.tuples.len() ==> #[trigger] after.tuples[i] == t.tuples[i]
            &&& r matches Ok(out) ==> {
                &&& out.len() == trs.len()
                &&& forall|i: int|
                    0 <= i < out.len() ==> {
                        &&& (#[trigger] out[i]).nextstate < after.tuples.len()
                        &&& out[i].nextstate < NO_STATE_ID
                        &&& after.tuples[out[i].nextstate as int] == body_tuple::<G>(
                            trs[i].nextstate,
                        )
                        &&& out[i].ilabel == trs[i].ilabel
                        &&& out[i].olabel == trs[i].olabel
                        &&& G::times_model(weight, trs[i].weight) == Ok::<G::M, FstError>(
                            out[i].weight,
                        )
                    }
            }
        }),
    decreases trs.len(),
{
    if trs.len() > 0 {
        lemma_factor_trs::<G>(t, weight, trs.drop_last());
        let (t1, r) = factor_trs::<G>(t, weight, trs.drop_last());
        if r is Ok && G::times_model(weight, trs.last().weight) is Ok {
            let tuple = body_tuple::<G>(trs.last().nextstate);
            lemma_factor_find::<G>(t1, tuple);
            let (after, whole) = factor_trs::<G>(t, weight, trs);
            if let Ok(out) = whole {
                assert forall|i: int| 0 <= i < out.len() implies {
                    &&& (#[trigger] out[i]).nextstate < after.tuples.len()
                    &&& out[i].nextstate < NO_STATE_ID
                    &&& after.tuples[out[i].nextstate as int] == body_tuple::<G>(trs[i].nextstate)
                    &&& out[i].ilabel == trs[i].ilabel
                    &&& out[i].olabel == trs[i].olabel
                    &&& G::times_model(weight, trs[i].weight) == Ok::<G::M, FstError>(
                        out[i].weight,
                    )
                } by {
                    if i < out.len() - 1 {
                        assert(r->Ok_0[i] == out[i]);
                        assert(trs.drop_last()[i] == trs[i]);
                        assert(after.tuples[out[i].nextstate as int]
                            == t1.tuples[out[i].nextstate as int]);
                    }
                }
            }
        }
    }
}

pub proof fn lemma_factor_ends<G: WeightQuantize>(
    t: TableM<G::M>,
    delta: G::Delta,
    pairs: Seq<(G::M, G::M)>,
)
    requires
        factor_valid(t),
    ensures
        ({
            let (after, r) = factor_ends::<G>(t, delta, pairs);
            &&& factor_valid(after)
            &&& t.tuples.len() <= after.tuples.len()
            &&& forall|i: int| 0 <= i < t.tuples.len() ==> #[trigger] after.tuples[i] == t.tuples[i]
            &&& r matches Ok(out) ==> {
                &&& out.len() == pairs.len()
                &&& forall|i: int|
                    0 <= i < out.len() ==> {
                        &&& (#[trigger] out[i]).nextstate < after.tuples.len()
                        &&& out[i].nextstate < NO_STATE_ID
                        &&& G::quantize_model(pairs[i].1, delta) is Ok
                        &&& after.tuples[out[i].nextstate as int] == tail_tuple(
                            G::quantize_model(pairs[i].1, delta)->Ok_0,
                        )
                        &&& out[i].ilabel == EPS_LABEL
                        &&& out[i].olabel == EPS_LABEL
                        &&& out[i].weight == pairs[i].0
                    }
            }
        }),
    decreases pairs.len(),
{
    if pairs.len() > 0 {
        lemma_factor_ends::<G>(t, delta, pairs.drop_last());
        let (t1, r) = factor_ends::<G>(t, delta, pairs.drop_last());
        if r is Ok && G::quantize_model(pairs.last().1, delta) is Ok {
            let tuple = tail_tuple(G::quantize_model(pairs.last().1, delta)->Ok_0);
            lemma_factor_find::<G>(t1, tuple);
            let (after, whole) = factor_ends::<G>(t, delta, pairs);
            if let Ok(out) = whole {
                assert forall|i: int| 0 <= i < out.len() implies {
                    &&& (#[trigger] out[i]).nextstate < after.tuples.len()
                    &&& out[i].nextstate < NO_STATE_ID
                    &&& G::quantize_model(pairs[i].1, delta) is Ok
                    &&& after.tuples[out[i].nextstate as int] == tail_tuple(
                        G::quantize_model(pairs[i].1, delta)->Ok_0,
                    )
                    &&& out[i].ilabel == EPS_LABEL
                    &&& out[i].olabel == EPS_LABEL
                    &&& out[i].weight == pairs[i].0
                } by {
                    if i < out.len() - 1 {
                        assert(r->Ok_0[i] == out[i]);
                        assert(pairs.drop_last()[i] == pairs[i]);
                        assert(after.tuples[out[i].nextstate as int]
                            == t1.tuples[out[i].nextstate as int]);
                    }
                }
            }
        }
    }
}

/// The transitions of a state keep every state and lead to states that are named.
pub proof fn lemma_all_trs<W: Semiring, G: Gallic<W> + WeightQuantize>(
    s: FactorM<G::M, G::Delta>,
    tuple: TupleM<G::M>,
)
    requires
        factor_valid(s.table),
        tuple.pairs.len() == 1,
    ensures
        ({
            let (after, r) = all_trs::<W, G>(s, tuple);
            &&& factor_valid(after)
            &&& s.table.tuples.len() <= after.tuples.len()
            &&& forall|i: int|
                0 <= i < s.table.tuples.len() ==> #[trigger] after.tuples[i] == s.table.tuples[i]
            &&& r matches Ok(out) ==> forall|i: int|
                0 <= i < out.len() ==> (#[trigger] out[i]).nextstate < after.tuples.len()
                    && out[i].nextstate < NO_STATE_ID
        }),
{
    let element = tuple.pairs[0];
    if tuple.filter_state == 0 && s.fst.has_state(element.state) {
        lemma_factor_trs::<G>(
            s.table,
            element.weight,
            s.fst.states[element.state as int].trs,
        );
    }
    let (t1, r) = body_trs::<G>(s.fst, s.table, tuple);
    if r is Ok {
        if let Ok(Some(w)) = end_weight::<G>(s.fst, tuple) {
            lemma_factor_ends::<G>(t1, s.delta, G::factors_model(w));
            let (after, whole) = all_trs::<W, G>(s, tuple);
            assert forall|i: int| 0 <= i < s.table.tuples.len() implies #[trigger] after.tuples[i]
                == s.table.tuples[i] by {
                assert(t1.tuples[i] == s.table.tuples[i]);
            }
            if let Ok(out) = whole {
                let (t2, ends) = factor_ends::<G>(t1, s.delta, G::factors_model(w));
                assert forall|i: int| 0 <= i < out.len() implies (
                #[trigger] out[i]).nextstate < after.tuples.len() && out[i].nextstate
                    < NO_STATE_ID by {
                    if i < r->Ok_0.len() {
                        assert(out[i] == r->Ok_0[i]);
                    } else {
                        assert(out[i] == ends->Ok_0[i - r->Ok_0.len()]);
                    }
                }
            }
        }
    }
}

proof fn lemma_factor_trs_fails<G: Semiring>(
    t: TableM<G::M>,
    weight: G::M,
    trs: Seq<TrM<G::M>>,
    i: int,
)
    requires
        0 <= i <= trs.len(),
    ensures
        factor_trs::<G>(t, weight, trs.take(i)).1 is Err ==> factor_trs::<G>(t, weight, trs)
            == factor_trs::<G>(t, weight, trs.take(i)),
    decreases trs.len() - i,
{
    if i < trs.len() {
        assert(trs.take(i + 1).drop_last() =~= trs.take(i));
        lemma_factor_trs_fails::<G>(t, weight, trs, i + 1);
    } else {
        assert(trs.take(i) =~= trs);
    }
}

proof fn lemma_factor_ends_fails<G: WeightQuantize>(
    t: TableM<G::M>,
    delta: G::Delta,
    pairs: Seq<(G::M, G::M)>,
    i: int,
)
    requires
        0 <= i <= pairs.len(),
    ensures
        factor_ends::<G>(t, delta, pairs.take(i)).1 is Err ==> factor_ends::<G>(t, delta, pairs)
            == factor_ends::<G>(t, delta, pairs.take(i)),
    decreases pairs.len() - i,
{
    if i < pairs.len() {
        assert(pairs.take(i + 1).drop_last() =~= pairs.take(i));
        lemma_factor_ends_fails::<G>(t, delta, pairs, i + 1);
    } else {
        assert(pairs.take(i) =~= pairs);
    }
}

/// The operation that factors the final weights of a machine.
///
/// A state of the output is kept as a subset with one member: a state of the input
/// with the weight in front of it, or what is still to be written.
pub struct FactorWeightOp<'a, W, G: WeightQuantize> {
    fst: &'a VectorFst<G>,
    state_table: DeterminizeStateTable<G>,
    delta: G::Delta,
    factored: PhantomData<W>,
}

impl<'a, W: Semiring, G: Gallic<W> + WeightQuantize> FactorWeightOp<'a, W, G> {
    pub fn new(fst: &'a VectorFst<G>, delta: G::Delta) -> (r: Self)
        ensures
            r.inv(),
            r.state() == (FactorM {
                fst: fst.model(),
                table: TableM::empty(None, None),
                delta,
            }),
    {
        FactorWeightOp {
            fst,
            state_table: DeterminizeStateTable::new(None, None),
            delta,
            factored: PhantomData,
        }
    }

    /// The id of a state, which is named if it has none.
    fn find(&mut self, state: StateId, weight: G, filter_state: StateId) -> (r: Result<
        StateId,
        FstError,
    >)
        requires
            old(self).inv(),
        ensures
            final(self).inv(),
            ({
                let (t, found) = find_model::<G>(
                    old(self).state().table,
                    TupleM {
                        pairs: seq![ElementM { state, weight: weight.model() }],
                        filter_state,
                    },
                );
                final(self).state() == (FactorM { table: t, ..old(self).state() }) && r == found
            }),
    {
        let ghost wm = weight.model();
        let mut pairs: Vec<DeterminizeElement<G>> = Vec::new();
        pairs.push(DeterminizeElement::new(state, weight));
        let tuple = DeterminizeStateTuple {
            subset: WeightedSubset::from_vec(pairs),
            filter_state,
        };
        assert(tuple.model().pairs =~= seq![ElementM { state, weight: wm }]);
        self.state_table.find_id_from_ref(&tuple)
    }

    /// The transitions of a state of the input, with `weight` in front.
    fn push_body(&mut self, trs: &mut Vec<Tr<G>>, state: StateId, weight: &G) -> (r: Result<
        (),
        FstError,
    >)
        requires
            old(self).inv(),
            old(trs)@.len() == 0,
            old(self).state().fst.has_state(state),
        ensures
            final(self).inv(),
            ({
                let (t, m) = factor_trs::<G>(
                    old(self).state().table,
                    weight.model(),
                    old(self).state().fst.states[state as int].trs,
                );
                &&& final(self).state() == (FactorM { table: t, ..old(self).state() })
                &&& match r {
                    Ok(_) => m == Ok::<Seq<TrM<G::M>>, FstError>(trs_model(final(trs)@)),
                    Err(e) => m == Err::<Seq<TrM<G::M>>, FstError>(e),
                }
            }),
    {
        let ghost before = self.state();
        let ghost ts = before.fst.states[state as int].trs;
        let fst: &'a VectorFst<G> = self.fst;
        let list: &Vec<Tr<G>> = match fst.get_trs(state) {
            Ok(list) => list,
            Err(e) => {
                assert(false);
                return Err(e);
            },
        };
        let n: usize = list.len();
        proof {
            assert(ts.take(0) =~= Seq::empty());
            assert(trs_model(trs@) =~= Seq::empty());
        }
        for i in 0..n
            invariant
                n == list.len(),
                ts == trs_model(list@),
                ts == before.fst.states[state as int].trs,
                before == old(self).state(),
                self.inv(),
                self.state() == (FactorM {
                    table: factor_trs::<G>(before.table, weight.model(), ts.take(i as int)).0,
                    ..before
                }),
                factor_trs::<G>(before.table, weight.model(), ts.take(i as int)).1 == Ok::<
                    Seq<TrM<G::M>>,
                    FstError,
                >(trs_model(trs@)),
        {
            let ghost so_far = trs_model(trs@);
            let tr: &Tr<G> = &list[i];
            proof {
                assert(ts[i as int] == tr.model());
                assert(ts.take(i + 1).drop_last() =~= ts.take(i as int));
                lemma_factor_trs_fails::<G>(before.table, weight.model(), ts, i + 1);
            }
            let w: G = match weight.times(&tr.weight) {
                Ok(w) => w,
                Err(e) => {
                    return Err(e);
                },
            };
            let nextstate: StateId = match self.find(tr.nextstate, G::one(), 0) {
                Ok(id) => id,
                Err(e) => {
                    return Err(e);
                },
            };
            let ghost wm = w.model();
            trs.push(Tr::new(tr.ilabel, tr.olabel, w, nextstate));
            assert(trs_model(trs@) =~= so_far.push(
                TrM { weight: wm, nextstate, ..ts[i as int] },
            ));
        }
        assert(ts.take(n as int) =~= ts);
        Ok(())
    }

    /// The weight with which a state ends, if it does.
    fn end_of(&self, tuple: &DeterminizeStateTuple<G>) -> (r: Result<Option<G>, FstError>)
        requires
            tuple.model().pairs.len() == 1,
        ensures
            match r {
                Ok(w) => end_weight::<G>(self.state().fst, tuple.model()) == Ok::<
                    Option<G::M>,
                    FstError,
                >(option_model(w)),
                Err(e) => end_weight::<G>(self.state().fst, tuple.model()) == Err::<
                    Option<G::M>,
                    FstError,
                >(e),
            },
    {
        let element: &DeterminizeElement<G> = &tuple.subset.pairs[0];
        assert(tuple.model().pairs[0] == element.model());
        if tuple.filter_state != 0 {
            return Ok(Some(element.weight.duplicate()));
        }
        match self.fst.final_weight(element.state) {
            Err(e) => Err(e),
            Ok(None) => Ok(None),
            Ok(Some(w)) => match element.weight.times(&w) {
                Ok(whole) => Ok(Some(whole)),
                Err(e) => Err(e),
            },
        }
    }
}

impl<'a, W: Semiring, G: Gallic<W> + WeightQuantize> FstOp<G> for FactorWeightOp<'a, W, G> {
    type S = FactorM<G::M, G::Delta>;

    closed spec fn state(&self) -> Self::S {
        FactorM { fst: self.fst.model(), table: self.state_table.model(), delta: self.delta }
    }

    closed spec fn inv(&self) -> bool {
        self.state_table.inv()
    }

    open spec fn valid(s: Self::S) -> bool {
        factor_valid(s.table)
    }

    open spec fn known(s: Self::S, id: StateId) -> bool {
        id < s.table.tuples.len()
    }

    open spec fn start_model(s: Self::S) -> (Self::S, Result<Option<StateId>, FstError>) {
        match s.fst.start {
            None => (s, Ok(None)),
            Some(q) => {
                let (table, r) = find_model::<G>(s.table, body_tuple::<G>(q));
                (
                    FactorM { table, ..s },
                    match r {
                        Ok(id) => Ok(Some(id)),
                        Err(e) => Err(e),
                    },
                )
            },
        }
    }

    open spec fn trs_model(s: Self::S, id: StateId) -> (
        Self::S,
        Result<Seq<TrM<G::M>>, FstError>,
    ) {
        let (table, r) = all_trs::<W, G>(s, s.table.tuples[id as int]);
        (FactorM { table, ..s }, r)
    }

    open spec fn final_weight_model(s: Self::S, id: StateId) -> (
        Self::S,
        Result<Option<G::M>, FstError>,
    ) {
        (
            s,
            match end_weight::<G>(s.fst, s.table.tuples[id as int]) {
                Err(e) => Err(e),
                Ok(None) => Ok(None),
                Ok(Some(w)) => Ok(
                    if w == G::zero_model() || G::factors_model(w).len() > 0 {
                        None
                    } else {
                        Some(w)
                    },
                ),
            },
        )
    }

    open spec fn properties_model(s: Self::S) -> FstProperties {
        FstProperties { bits: 0 }
    }

    proof fn lemma_start(s: Self::S) {
        if let Some(q) = s.fst.start {
            lemma_factor_find::<G>(s.table, body_tuple::<G>(q));
        }
    }

    proof fn lemma_trs(s: Self::S, id: StateId) {
        lemma_all_trs::<W, G>(s, s.table.tuples[id as int]);
    }

    proof fn lemma_final_weight(s: Self::S, id: StateId) {
    }

    fn compute_start(&mut self) -> (r: Result<Option<StateId>, FstError>) {
        match self.fst.start() {
            None => Ok(None),
            Some(q) => match self.find(q, G::one(), 0) {
                Ok(id) => Ok(Some(id)),
                Err(e) => Err(e),
            },
        }
    }

    fn compute_trs(&mut self, id: StateId) -> (r: Result<TrsVec<G>, FstError>) {
        let ghost before = self.state();
        let tuple: Arc<DeterminizeStateTuple<G>> = self.state_table.find_tuple(id);
        let ghost tm = tuple.model();
        assert(tm == before.table.tuples[id as int]);
        assert(tm.pairs.len() == 1);
        let mut trs: Vec<Tr<G>> = Vec::new();
        assert(trs_model(trs@) =~= Seq::empty());
        let element: &DeterminizeElement<G> = &tuple.subset.pairs[0];
        assert(tm.pairs[0] == element.model());
        if tuple.filter_state == 0 {
            if (element.state as usize) >= self.fst.num_states() {
                return Err(FstError::StateNotFound { state: element.state });
            }
            match self.push_body(&mut trs, element.state, &element.weight) {
                Ok(_) => {},
                Err(e) => {
                    return Err(e);
                },
            }
        }
        let ghost t1 = body_trs::<G>(before.fst, before.table, tm).0;
        let ghost body = trs_model(trs@);
        assert(self.state() == FactorM { table: t1, ..before });
        let end: Option<G> = match self.end_of(&tuple) {
            Ok(w) => w,
            Err(e) => {
                return Err(e);
            },
        };
        let weight: G = match end {
            Some(w) => w,
            None => {
                return Ok(TrsVec::from_vec(trs));
            },
        };
        let pairs: Vec<(G, G)> = weight.factors();
        let ghost ps = pairs_model(pairs@);
        let n: usize = pairs.len();
        proof {
            assert(ps.take(0) =~= Seq::empty());
            assert(body =~= body + Seq::empty());
        }
        let delta: G::Delta = self.delta;
        for i in 0..n
            invariant
                n == pairs.len(),
                ps == pairs_model(pairs@),
                delta == before.delta,
                before == old(self).state(),
                tm == before.table.tuples[id as int],
                body_trs::<G>(before.fst, before.table, tm) == (t1, Ok::<
                    Seq<TrM<G::M>>,
                    FstError,
                >(body)),
                end_weight::<G>(before.fst, tm) == Ok::<Option<G::M>, FstError>(
                    Some(weight.model()),
                ),
                ps == G::factors_model(weight.model()),
                self.inv(),
                self.state() == (FactorM {
                    table: factor_ends::<G>(t1, delta, ps.take(i as int)).0,
                    ..before
                }),
                factor_ends::<G>(t1, delta, ps.take(i as int)).1 is Ok,
                trs_model(trs@) == body + factor_ends::<G>(t1, delta, ps.take(i as int)).1->Ok_0,
        {
            let ghost so_far = trs_model(trs@);
            let pair: &(G, G) = &pairs[i];
            proof {
                assert(ps[i as int] == (pair.0.model(), pair.1.model()));
                assert(ps.take(i + 1).drop_last() =~= ps.take(i as int));
                lemma_factor_ends_fails::<G>(t1, delta, ps, i + 1);
            }
            let rest: G = match pair.1.quantize(delta) {
                Ok(w) => w,
                Err(e) => {
                    return Err(e);
                },
            };
            let nextstate: StateId = match self.find(0, rest, 1) {
                Ok(id) => id,
                Err(e) => {
                    return Err(e);
                },
            };
            trs.push(Tr::new(EPS_LABEL, EPS_LABEL, pair.0.duplicate(), nextstate));
            assert(trs_model(trs@) =~= so_far.push(
                TrM {
                    ilabel: EPS_LABEL,
                    olabel: EPS_LABEL,
                    weight: ps[i as int].0,
                    nextstate,
                },
            ));
            assert(trs_model(trs@) =~= body + factor_ends::<G>(
                t1,
                delta,
                ps.take(i + 1),
            ).1->Ok_0);
        }
        assert(ps.take(n as int) =~= ps);
        Ok(TrsVec::from_vec(trs))
    }

    fn compute_final_weight(&mut self, id: StateId) -> (r: Result<Option<G>, FstError>) {
        let tuple: Arc<DeterminizeStateTuple<G>> = self.state_table.find_tuple(id);
        assert(tuple.model() == self.state().table.tuples[id as int]);
        assert(tuple.model().pairs.len() == 1);
        match self.end_of(&tuple) {
            Err(e) => Err(e),
            Ok(None) => Ok(None),
            Ok(Some(w)) => {
                if w.is_zero() || w.factors().len() > 0 {
                    Ok(None)
                } else {
                    Ok(Some(w))
                }
            },
        }
    }

    fn properties(&self) -> (r: FstProperties) {
        FstProperties::empty()
    }
}

/// The factored machine before anything has been computed.
pub open spec fn factor_begin<G: WeightQuantize>(fst: FstM<G::M>, delta: G::Delta) -> LazyM<
    G::M,
    FactorM<G::M, G::Delta>,
> {
    LazyM {
        cache: CacheM::empty(),
        op: FactorM { fst, table: TableM::empty(None, None), delta },
    }
}

/// Writing out a factored machine: the state that the computation is left in, and
/// the machine.
pub open spec fn factor_compute<W: Semiring, G: Gallic<W> + WeightQuantize>(
    fst: FstM<G::M>,
    delta: G::Delta,
) -> (LazyM<G::M, FactorM<G::M, G::Delta>>, Result<FstM<G::M>, FstError>) {
    compute_model::<G, FactorWeightOp<'_, W, G>, NullCache<G>>(
        factor_begin::<G>(fst, delta),
        fst.isymt,
        fst.osymt,
        None,
        None,
    )
}

/// Spreads the strings at the ends of a machine over transitions, until each state
/// ends with at most one label.
pub fn factor_weight<W: Semiring, G: Gallic<W> + WeightQuantize>(
    fst: &VectorFst<G>,
    delta: G::Delta,
) -> (r: Result<VectorFst<G>, FstError>)
    ensures
        match r {
            Ok(out) => factor_compute::<W, G>(fst.model(), delta).1 == Ok::<FstM<G::M>, FstError>(
                out.model(),
            ) && closed_machine(out.model()) && out.model().states.len() <= NO_STATE_ID,
            Err(e) => factor_compute::<W, G>(fst.model(), delta).1 == Err::<FstM<G::M>, FstError>(
                e,
            ),
        },
{
    let isymt: Option<Arc<SymbolTable>> = match fst.input_symbols() {
        Some(t) => Some(t.clone()),
        None => None,
    };
    let osymt: Option<Arc<SymbolTable>> = match fst.output_symbols() {
        Some(t) => Some(t.clone()),
        None => None,
    };
    let op: FactorWeightOp<'_, W, G> = FactorWeightOp::new(fst, delta);
    let mut lazy: LazyFst<G, FactorWeightOp<'_, W, G>, NullCache<G>> = LazyFst::from_op_and_cache(
        op,
        NullCache::default(),
        isymt,
        osymt,
    );
    proof {
        law_output_keeps_bounds::<G, FactorWeightOp<'_, W, G>, NullCache<G>>(
            factor_begin::<G>(fst.model(), delta),
            fst.model().isymt,
            fst.model().osymt,
            None,
            None,
        );
    }
    lazy.compute()
}

} // verus!
