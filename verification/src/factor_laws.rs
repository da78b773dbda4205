//! What a factored machine is made of.

use crate::determinize::element::TupleM;
use crate::determinize::state_table::{find_model, TableM};
use crate::error::FstError;
use crate::factor_weight::{
    body_trs, body_tuple, end_weight, factor_begin, factor_compute, factor_ends, factor_trs,
    factor_valid, lemma_all_trs, lemma_factor_ends, lemma_factor_trs, tail_tuple, FactorM,
    FactorWeightOp,
};
use crate::fst::tr::{StateId, TrM, EPS_LABEL, NO_STATE_ID};
use crate::fst::vector_fst::{FstM, StateM};
use crate::lazy::fst_op::FstOp;
use crate::lazy::laws::{
    kept_by_expansion, law_output_follows_operation, op_expand, states_met, true_of_expansion,
};
use crate::lazy::null_cache::NullCache;
use crate::semirings::semiring::{Semiring, WeightQuantize};
use crate::weight_convert::Gallic;
use vstd::prelude::*;

verus! {

/// How many transitions of a state come from the input.
pub open spec fn body_count<M>(fst: FstM<M>, tuple: TupleM<M>) -> nat {
    if tuple.filter_state == 0 {
        fst.states[tuple.pairs[0].state as int].trs.len()
    } else {
        0
    }
}

/// The pairs into which the end of a state is split.
pub open spec fn end_pairs<W: Semiring, G: Gallic<W>>(
    fst: FstM<G::M>,
    tuple: TupleM<G::M>,
) -> Seq<(G::M, G::M)> {
    match end_weight::<G>(fst, tuple) {
        Ok(Some(w)) => G::factors_model(w),
        _ => Seq::empty(),
    }
}

/// The state has no more than what it says: a state of the input without a weight
/// in front, or something still to be written.
pub open spec fn plain_tuple<G: Semiring>(tuple: TupleM<G::M>) -> bool {
    &&& tuple.pairs.len() == 1
    &&& tuple.filter_state == 0 ==> tuple == body_tuple::<G>(tuple.pairs[0].state)
    &&& tuple.filter_state != 0 ==> tuple == tail_tuple(tuple.pairs[0].weight)
}

/// The transition comes from a transition of the input.
pub open spec fn from_input<G: Semiring>(
    t: TableM<G::M>,
    weight: G::M,
    old: TrM<G::M>,
    tr: TrM<G::M>,
) -> bool {
    &&& tr.nextstate < t.tuples.len()
    &&& t.tuples[tr.nextstate as int] == body_tuple::<G>(old.nextstate)
    &&& tr.ilabel == old.ilabel
    &&& tr.olabel == old.olabel
    &&& G::times_model(weight, old.weight) == Ok::<G::M, FstError>(tr.weight)
}

/// The transition writes the first part of a pair and leads to where the second is
/// still to be written.
pub open spec fn from_pair<G: WeightQuantize>(
    t: TableM<G::M>,
    delta: G::Delta,
    pair: (G::M, G::M),
    tr: TrM<G::M>,
) -> bool {
    &&& tr.nextstate < t.tuples.len()
    &&& G::quantize_model(pair.1, delta) is Ok
    &&& t.tuples[tr.nextstate as int] == tail_tuple(G::quantize_model(pair.1, delta)->Ok_0)
    &&& tr.ilabel == EPS_LABEL
    &&& tr.olabel == EPS_LABEL
    &&& tr.weight == pair.0
}

/// What is written out for a state is what it stands for.
pub open spec fn factored_as<W: Semiring, G: Gallic<W> + WeightQuantize>(
    s: FactorM<G::M, G::Delta>,
    id: StateId,
    state: StateM<G::M>,
) -> bool {
    let tuple = s.table.tuples[id as int];
    let n = body_count(s.fst, tuple);
    let pairs = end_pairs::<W, G>(s.fst, tuple);
    &&& id < s.table.tuples.len()
    &&& end_weight::<G>(s.fst, tuple) is Ok
    &&& tuple.filter_state == 0 ==> s.fst.has_state(tuple.pairs[0].state)
    &&& state.trs.len() == n + pairs.len()
    &&& forall|i: int|
        0 <= i < n ==> from_input::<G>(
            s.table,
            tuple.pairs[0].weight,
            s.fst.states[tuple.pairs[0].state as int].trs[i],
            #[trigger] state.trs[i],
        )
    &&& forall|k: int|
        0 <= k < pairs.len() ==> from_pair::<G>(
            s.table,
            s.delta,
            #[trigger] pairs[k],
            state.trs[n + k],
        )
    &&& state.final_weight == match end_weight::<G>(s.fst, tuple) {
        Ok(Some(w)) => if w == G::zero_model() || pairs.len() > 0 {
            None
        } else {
            Some(w)
        },
        _ => None,
    }
}

spec fn factor_keeps<G: WeightQuantize>(begin: FactorM<G::M, G::Delta>) -> spec_fn(
    FactorM<G::M, G::Delta>,
) -> bool {
    |s: FactorM<G::M, G::Delta>|
        {
            &&& s.fst == begin.fst
            &&& s.delta == begin.delta
            &&& s.table.tuples.len() > 0 ==> begin.fst.start is Some && s.table.tuples[0]
                == body_tuple::<G>(begin.fst.start->0)
            &&& forall|i: int|
                0 <= i < s.table.tuples.len() ==> plain_tuple::<G>(#[trigger] s.table.tuples[i])
        }
}

spec fn factor_holds<W: Semiring, G: Gallic<W> + WeightQuantize>() -> spec_fn(
    FactorM<G::M, G::Delta>,
    StateId,
    StateM<G::M>,
) -> bool {
    |s: FactorM<G::M, G::Delta>, id: StateId, state: StateM<G::M>|
        factored_as::<W, G>(s, id, state)
}

proof fn lemma_find_plain<G: Semiring>(t: TableM<G::M>, tuple: TupleM<G::M>)
    requires
        factor_valid(t),
        plain_tuple::<G>(tuple),
        forall|i: int| 0 <= i < t.tuples.len() ==> plain_tuple::<G>(#[trigger] t.tuples[i]),
    ensures
        forall|i: int|
            0 <= i < find_model::<G>(t, tuple).0.tuples.len() ==> plain_tuple::<G>(
                #[trigger] find_model::<G>(t, tuple).0.tuples[i],
            ),
{
}

proof fn lemma_factor_trs_plain<G: Semiring>(
    t: TableM<G::M>,
    weight: G::M,
    trs: Seq<TrM<G::M>>,
)
    requires
        factor_valid(t),
        forall|i: int| 0 <= i < t.tuples.len() ==> plain_tuple::<G>(#[trigger] t.tuples[i]),
    ensures
        forall|i: int|
            0 <= i < factor_trs::<G>(t, weight, trs).0.tuples.len() ==> plain_tuple::<G>(
                #[trigger] factor_trs::<G>(t, weight, trs).0.tuples[i],
            ),
    decreases trs.len(),
{
    if trs.len() > 0 {
        lemma_factor_trs_plain::<G>(t, weight, trs.drop_last());
        lemma_factor_trs::<G>(t, weight, trs.drop_last());
        let t1 = factor_trs::<G>(t, weight, trs.drop_last()).0;
        lemma_find_plain::<G>(t1, body_tuple::<G>(trs.last().nextstate));
    }
}

proof fn lemma_factor_ends_plain<G: WeightQuantize>(
    t: TableM<G::M>,
    delta: G::Delta,
    pairs: Seq<(G::M, G::M)>,
)
    requires
        factor_valid(t),
        forall|i: int| 0 <= i < t.tuples.len() ==> plain_tuple::<G>(#[trigger] t.tuples[i]),
    ensures
        forall|i: int|
            0 <= i < factor_ends::<G>(t, delta, pairs).0.tuples.len() ==> plain_tuple::<G>(
                #[trigger] factor_ends::<G>(t, delta, pairs).0.tuples[i],
            ),
    decreases pairs.len(),
{
    if pairs.len() > 0 {
        lemma_factor_ends_plain::<G>(t, delta, pairs.drop_last());
        lemma_factor_ends::<G>(t, delta, pairs.drop_last());
        let t1 = factor_ends::<G>(t, delta, pairs.drop_last()).0;
        if let Ok(rest) = G::quantize_model(pairs.last().1, delta) {
            lemma_find_plain::<G>(t1, tail_tuple(rest));
        }
    }
}

/// Expanding a state keeps what is kept and writes out what the state stands for.
proof fn lemma_factor_step<W: Semiring, G: Gallic<W> + WeightQuantize>(
    begin: FactorM<G::M, G::Delta>,
    s: FactorM<G::M, G::Delta>,
    id: StateId,
)
    requires
        FactorWeightOp::<'_, W, G>::valid(s),
        factor_keeps::<G>(begin)(s),
        FactorWeightOp::<'_, W, G>::known(s, id),
        op_expand::<G, FactorWeightOp<'_, W, G>>(s, id).1 is Ok,
    ensures
        factor_keeps::<G>(begin)(op_expand::<G, FactorWeightOp<'_, W, G>>(s, id).0),
        factored_as::<W, G>(
            op_expand::<G, FactorWeightOp<'_, W, G>>(s, id).0,
            id,
            op_expand::<G, FactorWeightOp<'_, W, G>>(s, id).1->Ok_0,
        ),
        s.table.tuples.len() <= op_expand::<G, FactorWeightOp<'_, W, G>>(
            s,
            id,
        ).0.table.tuples.len(),
        forall|i: int|
            0 <= i < s.table.tuples.len() ==> #[trigger] op_expand::<G, FactorWeightOp<'_, W, G>>(
                s,
                id,
            ).0.table.tuples[i] == s.table.tuples[i],
        op_expand::<G, FactorWeightOp<'_, W, G>>(s, id).0.fst == s.fst,
        op_expand::<G, FactorWeightOp<'_, W, G>>(s, id).0.delta == s.delta,
{
    let tuple = s.table.tuples[id as int];
    let element = tuple.pairs[0];
    let (after, r) = op_expand::<G, FactorWeightOp<'_, W, G>>(s, id);
    lemma_all_trs::<W, G>(s, tuple);
    let (t1, b) = body_trs::<G>(s.fst, s.table, tuple);
    let body = b->Ok_0;
    if tuple.filter_state == 0 {
        lemma_factor_trs::<G>(s.table, element.weight, s.fst.states[element.state as int].trs);
        lemma_factor_trs_plain::<G>(
            s.table,
            element.weight,
            s.fst.states[element.state as int].trs,
        );
    }
    let n = body_count(s.fst, tuple);
    let pairs = end_pairs::<W, G>(s.fst, tuple);
    let state = r->Ok_0;
    if let Ok(Some(w)) = end_weight::<G>(s.fst, tuple) {
        lemma_factor_ends::<G>(t1, s.delta, G::factors_model(w));
        lemma_factor_ends_plain::<G>(t1, s.delta, G::factors_model(w));
        let (t2, ends) = factor_ends::<G>(t1, s.delta, G::factors_model(w));
        assert(after.table == t2);
        assert(state.trs == body + ends->Ok_0);
        assert forall|i: int| 0 <= i < n implies from_input::<G>(
            after.table,
            element.weight,
            s.fst.states[element.state as int].trs[i],
            #[trigger] state.trs[i],
        ) by {
            assert(state.trs[i] == body[i]);
            let next = body[i].nextstate as int;
            assert(t2.tuples[next] == t1.tuples[next]);
        }
        assert forall|k: int| 0 <= k < pairs.len() implies from_pair::<G>(
            after.table,
            s.delta,
            #[trigger] pairs[k],
            state.trs[n + k],
        ) by {
            assert(state.trs[n + k] == ends->Ok_0[k]);
        }
    } else {
        assert(after.table == t1);
        assert(state.trs == body);
        assert forall|i: int| 0 <= i < n implies from_input::<G>(
            after.table,
            element.weight,
            s.fst.states[element.state as int].trs[i],
            #[trigger] state.trs[i],
        ) by {
            assert(state.trs[i] == body[i]);
        }
    }
    assert(after.table.tuples[id as int] == tuple);
    assert(after.table.tuples[0] == s.table.tuples[0]);
}

proof fn lemma_factor_expansion<W: Semiring, G: Gallic<W> + WeightQuantize>(
    begin: FactorM<G::M, G::Delta>,
)
    requires
        begin.table == TableM::<G::M>::empty(None, None),
    ensures
        FactorWeightOp::<'_, W, G>::valid(begin),
        kept_by_expansion::<G, FactorWeightOp<'_, W, G>>(begin, factor_keeps::<G>(begin)),
        true_of_expansion::<G, FactorWeightOp<'_, W, G>>(
            factor_keeps::<G>(begin),
            factor_holds::<W, G>(),
        ),
{
    let good = factor_keeps::<G>(begin);
    let holds = factor_holds::<W, G>();
    if let Some(q) = begin.fst.start {
        lemma_find_plain::<G>(begin.table, body_tuple::<G>(q));
    }
    assert forall|s: FactorM<G::M, G::Delta>, id: StateId|
        FactorWeightOp::<'_, W, G>::valid(s) && good(s) && FactorWeightOp::<'_, W, G>::known(
            s,
            id,
        ) && (#[trigger] op_expand::<G, FactorWeightOp<'_, W, G>>(s, id)).1 is Ok implies good(
        op_expand::<G, FactorWeightOp<'_, W, G>>(s, id).0,
    ) && holds(
        op_expand::<G, FactorWeightOp<'_, W, G>>(s, id).0,
        id,
        op_expand::<G, FactorWeightOp<'_, W, G>>(s, id).1->Ok_0,
    ) by {
        lemma_factor_step::<W, G>(begin, s, id);
    }
    assert forall|
        s: FactorM<G::M, G::Delta>,
        id: StateId,
        other: StateId,
        state: StateM<G::M>,
    |
        FactorWeightOp::<'_, W, G>::valid(s) && good(s) && FactorWeightOp::<'_, W, G>::known(
            s,
            id,
        ) && (#[trigger] op_expand::<G, FactorWeightOp<'_, W, G>>(s, id)).1 is Ok && (
        #[trigger] holds(s, other, state)) implies holds(
        op_expand::<G, FactorWeightOp<'_, W, G>>(s, id).0,
        other,
        state,
    ) by {
        lemma_factor_step::<W, G>(begin, s, id);
        let after = op_expand::<G, FactorWeightOp<'_, W, G>>(s, id).0;
        let tuple = s.table.tuples[other as int];
        let n = body_count(s.fst, tuple);
        let pairs = end_pairs::<W, G>(s.fst, tuple);
        assert(after.table.tuples[other as int] == tuple);
        assert forall|i: int| 0 <= i < n implies from_input::<G>(
            after.table,
            tuple.pairs[0].weight,
            s.fst.states[tuple.pairs[0].state as int].trs[i],
            #[trigger] state.trs[i],
        ) by {
            let next = state.trs[i].nextstate as int;
            assert(after.table.tuples[next] == s.table.tuples[next]);
        }
        assert forall|k: int| 0 <= k < pairs.len() implies from_pair::<G>(
            after.table,
            s.delta,
            #[trigger] pairs[k],
            state.trs[n + k],
        ) by {
            assert(from_pair::<G>(s.table, s.delta, pairs[k], state.trs[n + k]));
            let next = state.trs[n + k].nextstate as int;
            assert(after.table.tuples[next] == s.table.tuples[next]);
        }
    }
}

/// The states that are met when a factored machine is written out.
pub open spec fn factor_met<W: Semiring, G: Gallic<W> + WeightQuantize>(
    fst: FstM<G::M>,
    delta: G::Delta,
) -> Seq<StateId> {
    states_met::<G, FactorWeightOp<'_, W, G>, NullCache<G>>(
        factor_begin::<G>(fst, delta),
        None,
        None,
    )
}

/// Everything that is known of a factored machine that was written out.
pub proof fn lemma_factor_output<W: Semiring, G: Gallic<W> + WeightQuantize>(
    fst: FstM<G::M>,
    delta: G::Delta,
)
    ensures
        ({
            let (l, r) = factor_compute::<W, G>(fst, delta);
            let met = factor_met::<W, G>(fst, delta);
            r matches Ok(out) ==> {
                &&& l.op.fst == fst
                &&& l.op.delta == delta
                &&& out.start is Some == fst.start is Some
                &&& out.states.len() <= NO_STATE_ID
                &&& out.start is None ==> out.states.len() == 0
                &&& out.start matches Some(s) ==> met.contains(s) && l.op.table.tuples[s as int]
                    == body_tuple::<G>(fst.start->0)
                &&& forall|i: int|
                    0 <= i < l.op.table.tuples.len() ==> plain_tuple::<G>(
                        #[trigger] l.op.table.tuples[i],
                    )
                &&& forall|id: StateId| #[trigger]
                    met.contains(id) ==> {
                        &&& id < out.states.len()
                        &&& factored_as::<W, G>(l.op, id, out.states[id as int])
                        &&& forall|j: int|
                            0 <= j < out.states[id as int].trs.len() ==> met.contains(
                                (#[trigger] out.states[id as int].trs[j]).nextstate,
                            )
                    }
                &&& forall|k: int|
                    0 <= k < out.states.len() && (k > u32::MAX || !met.contains(k as StateId))
                        ==> #[trigger] out.states[k] == StateM::<G::M>::fresh()
            }
        }),
{
    let begin = factor_begin::<G>(fst, delta);
    let good = factor_keeps::<G>(begin.op);
    let holds = factor_holds::<W, G>();
    lemma_factor_expansion::<W, G>(begin.op);
    law_output_follows_operation::<G, FactorWeightOp<'_, W, G>>(
        begin.op,
        fst.isymt,
        fst.osymt,
        None,
        None,
        good,
        holds,
    );
    let (l, r) = factor_compute::<W, G>(fst, delta);
    let met = factor_met::<W, G>(fst, delta);
    if let Ok(out) = r {
        assert(good(l.op));
        if let Some(s) = out.start {
            assert(met.contains(s));
            assert(holds(l.op, s, out.states[s as int]));
            assert(s == 0);
        }
        assert forall|id: StateId| #[trigger] met.contains(id) implies {
            &&& id < out.states.len()
            &&& factored_as::<W, G>(l.op, id, out.states[id as int])
            &&& forall|j: int|
                0 <= j < out.states[id as int].trs.len() ==> met.contains(
                    (#[trigger] out.states[id as int].trs[j]).nextstate,
                )
        } by {
            assert(holds(l.op, id, out.states[id as int]));
        }
    }
}

} // verus!
