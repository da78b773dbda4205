//! What determinization keeps of a transducer.

use crate::determinize::determinize_fsa::det_compute;
use crate::determinize::determinize_fsa_op::final_or_zero;
use crate::determinize::determinize_static::{
    determinize_fsa_model, determinize_fst_model, determinize_via_model, DeterminizeType,
};
use crate::determinize::divisor_laws::{begins_with, ExactDivisor};
use crate::determinize::divisors::{CommonDivisor, GallicCommonDivisor};
use crate::determinize::element::TupleM;
use crate::determinize::laws::{
    deterministic, law_determinize_fsa_is_deterministic, law_determinize_fsa_is_equivalent,
};
use crate::determinize::output_series::{
    lemma_read_by_none, lemma_read_by_one, lemma_read_from_accepts, pairs_value, read, read_by,
    read_from, writes_nothing, FactoredSeries, OutputSeries, SummedSeries,
};
use crate::error::FstError;
use crate::factor_laws::{
    body_count, end_pairs, factor_met, factored_as, from_input, from_pair, lemma_factor_output,
    plain_tuple,
};
use crate::factor_weight::{end_weight, factor_compute, tail_tuple};
use crate::fst::tr::{Label, StateId, TrM, EPS_LABEL};
use crate::fst::vector_fst::{FstM, StateM};
use crate::semirings::gallic::{label_string, GallicWeightRestrict, ItemM};
use crate::semirings::gallic_laws::law_gallic_steps_are_exact;
use crate::semirings::gallic_union::GallicWeight;
use crate::semirings::laws::{exact_step, ExactDivision, ExactWeights, SemiringLaws};
use crate::semirings::semiring::{
    QuantizationStep, Semiring, WeaklyDivisibleSemiring, WeightQuantize,
};
use crate::semirings::series::{
    lemma_monomial_product, lemma_series_product_one, lemma_series_product_zero, no_value,
    series_zero, Series,
};
use crate::weight_convert::{
    from_gallic_model, from_gallic_state, from_gallic_tr, needs_superfinal, plain_state, plain_tr,
    to_gallic_model, to_gallic_tr, writes_at_end, Gallic,
};
use vstd::prelude::*;

verus! {

/// The weight with which a transducer turns the input `x` into the output `y` from
/// one of its states: the sum over all paths that read `x` and write `y` of the
/// product along the path. In the input the empty label counts as a symbol like
/// any other; in the output it writes nothing.
pub open spec fn relate_from<W: SemiringLaws>(
    fst: FstM<W::M>,
    q: StateId,
    x: Seq<Label>,
    y: Seq<Label>,
) -> W::V
    decreases x.len(), 1int, 0int,
{
    if !fst.has_state(q) {
        no_value::<W>()
    } else if x.len() == 0 {
        if y.len() == 0 {
            W::value(final_or_zero::<W>(fst.states[q as int].final_weight))
        } else {
            no_value::<W>()
        }
    } else {
        relate_by::<W>(fst, fst.states[q as int].trs, x, y)
    }
}

/// The weight with which a transducer turns a non-empty input into an output by
/// one of the given transitions.
pub open spec fn relate_by<W: SemiringLaws>(
    fst: FstM<W::M>,
    trs: Seq<TrM<W::M>>,
    x: Seq<Label>,
    y: Seq<Label>,
) -> W::V
    decreases x.len(), 0int, trs.len(),
{
    if trs.len() == 0 || x.len() == 0 {
        no_value::<W>()
    } else {
        let others = relate_by::<W>(fst, trs.drop_last(), x, y);
        let written = label_string(trs.last().olabel);
        if trs.last().ilabel == x[0] && begins_with(y, written) {
            W::sum(
                others,
                W::product(
                    W::value(trs.last().weight),
                    relate_from::<W>(
                        fst,
                        trs.last().nextstate,
                        x.drop_first(),
                        y.skip(written.len() as int),
                    ),
                ),
            )
        } else {
            others
        }
    }
}

/// The weight with which a transducer turns `x` into `y`.
pub open spec fn relation<W: SemiringLaws>(fst: FstM<W::M>, x: Seq<Label>, y: Seq<Label>) -> W::V {
    match fst.start {
        None => no_value::<W>(),
        Some(q) => relate_from::<W>(fst, q, x, y),
    }
}

/// The weight with which a state, once the whole input is read, writes `y` over at
/// most `n` transitions into `tails`.
pub open spec fn finish_from<W: SemiringLaws>(
    fst: FstM<W::M>,
    tails: Set<int>,
    q: StateId,
    y: Seq<Label>,
    n: nat,
) -> W::V
    decreases n, 1int, 0int,
{
    if !fst.has_state(q) {
        no_value::<W>()
    } else {
        let here = if y.len() == 0 {
            W::value(final_or_zero::<W>(fst.states[q as int].final_weight))
        } else {
            no_value::<W>()
        };
        if n == 0 {
            here
        } else {
            W::sum(here, finish_by::<W>(fst, tails, fst.states[q as int].trs, y, n))
        }
    }
}

/// The weight with which `y` is written by one of the given transitions, as far as
/// they lead into `tails`.
pub open spec fn finish_by<W: SemiringLaws>(
    fst: FstM<W::M>,
    tails: Set<int>,
    trs: Seq<TrM<W::M>>,
    y: Seq<Label>,
    n: nat,
) -> W::V
    decreases n, 0int, trs.len(),
{
    if trs.len() == 0 || n == 0 {
        no_value::<W>()
    } else {
        let others = finish_by::<W>(fst, tails, trs.drop_last(), y, n);
        let written = label_string(trs.last().olabel);
        if tails.contains(trs.last().nextstate as int) && begins_with(y, written) {
            W::sum(
                others,
                W::product(
                    W::value(trs.last().weight),
                    finish_from::<W>(
                        fst,
                        tails,
                        trs.last().nextstate,
                        y.skip(written.len() as int),
                        (n - 1) as nat,
                    ),
                ),
            )
        } else {
            others
        }
    }
}

/// The weight with which a transducer turns `x` into `y` from one of its states,
/// where transitions into `tails` are only taken once the whole input is read. An
/// output takes at most one transition more than it has labels.
pub open spec fn relate_with_tails_from<W: SemiringLaws>(
    fst: FstM<W::M>,
    tails: Set<int>,
    q: StateId,
    x: Seq<Label>,
    y: Seq<Label>,
) -> W::V
    decreases x.len(), 1int, 0int,
{
    if x.len() == 0 {
        finish_from::<W>(fst, tails, q, y, y.len() + 1)
    } else if !fst.has_state(q) {
        no_value::<W>()
    } else {
        relate_with_tails_by::<W>(fst, tails, fst.states[q as int].trs, x, y)
    }
}

/// The same by one of the given transitions.
pub open spec fn relate_with_tails_by<W: SemiringLaws>(
    fst: FstM<W::M>,
    tails: Set<int>,
    trs: Seq<TrM<W::M>>,
    x: Seq<Label>,
    y: Seq<Label>,
) -> W::V
    decreases x.len(), 0int, trs.len(),
{
    if trs.len() == 0 || x.len() == 0 {
        no_value::<W>()
    } else {
        let others = relate_with_tails_by::<W>(fst, tails, trs.drop_last(), x, y);
        let written = label_string(trs.last().olabel);
        if trs.last().ilabel == x[0] && !tails.contains(trs.last().nextstate as int)
            && begins_with(y, written) {
            W::sum(
                others,
                W::product(
                    W::value(trs.last().weight),
                    relate_with_tails_from::<W>(
                        fst,
                        tails,
                        trs.last().nextstate,
                        x.drop_first(),
                        y.skip(written.len() as int),
                    ),
                ),
            )
        } else {
            others
        }
    }
}

/// The weight with which a transducer turns `x` into `y`, where transitions into
/// `tails` are only taken once the whole input is read.
pub open spec fn relation_with_tails<W: SemiringLaws>(
    fst: FstM<W::M>,
    tails: Set<int>,
    x: Seq<Label>,
    y: Seq<Label>,
) -> W::V {
    match fst.start {
        None => no_value::<W>(),
        Some(q) => relate_with_tails_from::<W>(fst, tails, q, x, y),
    }
}

/// A state of the automaton accepts an input with the series of the outputs of the
/// state of the transducer.
pub proof fn lemma_to_gallic_from<W: SemiringLaws, G: OutputSeries<W>>(
    fst: FstM<W::M>,
    q: StateId,
    x: Seq<Label>,
    y: Seq<Label>,
)
    requires
        fst.start is Some,
    ensures
        read_from::<W, G>(to_gallic_model::<W, G>(fst), q, x)(y) == relate_from::<W>(fst, q, x, y),
    decreases x.len(), 1int, 0int,
{
    let g = to_gallic_model::<W, G>(fst);
    G::law_series_units();
    if fst.has_state(q) {
        let state = fst.states[q as int];
        if x.len() == 0 {
            if let Some(w) = state.final_weight {
                G::law_of_label(EPS_LABEL, w);
                assert(y.len() == 0 ==> y =~= label_string(EPS_LABEL));
            }
        } else {
            lemma_to_gallic_by::<W, G>(fst, state.trs, x, y);
        }
    }
}

proof fn lemma_to_gallic_by<W: SemiringLaws, G: OutputSeries<W>>(
    fst: FstM<W::M>,
    trs: Seq<TrM<W::M>>,
    x: Seq<Label>,
    y: Seq<Label>,
)
    requires
        fst.start is Some,
        x.len() > 0,
    ensures
        read_by::<W, G>(
            to_gallic_model::<W, G>(fst),
            Seq::new(trs.len(), |j: int| to_gallic_tr::<W, G>(trs[j])),
            x,
        )(y) == relate_by::<W>(fst, trs, x, y),
    decreases x.len(), 0int, trs.len(),
{
    let g = to_gallic_model::<W, G>(fst);
    let mapped = Seq::new(trs.len(), |j: int| to_gallic_tr::<W, G>(trs[j]));
    G::law_series_units();
    if trs.len() > 0 {
        let shorter = trs.drop_last();
        assert(mapped.drop_last() =~= Seq::new(
            shorter.len(),
            |j: int| to_gallic_tr::<W, G>(shorter[j]),
        ));
        lemma_to_gallic_by::<W, G>(fst, shorter, x, y);
        let tr = trs.last();
        assert(mapped.last() == to_gallic_tr::<W, G>(tr));
        if tr.ilabel == x[0] {
            let rest = read_from::<W, G>(g, tr.nextstate, x.drop_first());
            let written = label_string(tr.olabel);
            G::law_of_label(tr.olabel, tr.weight);
            lemma_monomial_product::<W>(written, W::value(tr.weight), rest, y);
            let before = relate_by::<W>(fst, shorter, x, y);
            if begins_with(y, written) {
                lemma_to_gallic_from::<W, G>(
                    fst,
                    tr.nextstate,
                    x.drop_first(),
                    y.skip(written.len() as int),
                );
            } else {
                W::law_sum_zero(before);
                W::law_sum_commutative(before, no_value::<W>());
            }
        }
    }
}

/// The states from which only what is left of the output is written.
pub open spec fn factor_tails<W: Semiring, G: Gallic<W> + WeightQuantize>(
    det: FstM<G::M>,
    delta: G::Delta,
) -> Set<int> {
    let (l, r) = factor_compute::<W, G>(det, delta);
    Set::new(
        |v: int|
            v == r->Ok_0.states.len() || (0 <= v < l.op.table.tuples.len()
                && l.op.table.tuples[v].filter_state != 0),
    )
}

/// The series of what is still written at the end of a state.
spec fn end_value<W: SemiringLaws, G: OutputSeries<W>>(
    det: FstM<G::M>,
    tuple: TupleM<G::M>,
) -> Series<W::V> {
    match end_weight::<G>(det, tuple) {
        Ok(Some(w)) => G::series(w),
        _ => series_zero::<W>(),
    }
}

/// Only a short time is needed to finish.
spec fn short_end<W: Semiring, G: Gallic<W>>(det: FstM<G::M>, tuple: TupleM<G::M>) -> bool {
    match end_weight::<G>(det, tuple) {
        Ok(Some(w)) => writes_nothing::<W, G>(w),
        _ => true,
    }
}

/// Transitions that do not lead into the tails do not finish anything.
proof fn lemma_finish_none<W: SemiringLaws>(
    fst: FstM<W::M>,
    tails: Set<int>,
    trs: Seq<TrM<W::M>>,
    y: Seq<Label>,
    n: nat,
)
    requires
        forall|i: int|
            0 <= i < trs.len() ==> !tails.contains((#[trigger] trs[i]).nextstate as int),
    ensures
        finish_by::<W>(fst, tails, trs, y, n) == no_value::<W>(),
    decreases trs.len(),
{
    if trs.len() > 0 && n > 0 {
        assert(!tails.contains(trs[trs.len() - 1].nextstate as int));
        lemma_finish_none::<W>(fst, tails, trs.drop_last(), y, n);
    }
}

/// What is known of the machine that comes out.
spec fn comes_out<W: Semiring, G: Gallic<W> + WeightQuantize>(
    det: FstM<G::M>,
    delta: G::Delta,
    out: FstM<W::M>,
) -> bool {
    &&& factor_compute::<W, G>(det, delta).1 is Ok
    &&& from_gallic_model::<W, G>(factor_compute::<W, G>(det, delta).1->Ok_0) == Ok::<
        FstM<W::M>,
        FstError,
    >(out)
    &&& det.start is Some
}

/// The state that comes out for a state of the factored machine.
proof fn lemma_out_state<W: Semiring, G: Gallic<W> + WeightQuantize>(
    det: FstM<G::M>,
    delta: G::Delta,
    out: FstM<W::M>,
    id: StateId,
)
    requires
        comes_out::<W, G>(det, delta, out),
        factor_met::<W, G>(det, delta).contains(id),
    ensures
        ({
            let (l, r) = factor_compute::<W, G>(det, delta);
            let f = r->Ok_0;
            let tails = factor_tails::<W, G>(det, delta);
            let tuple = l.op.table.tuples[id as int];
            let state = f.states[id as int];
            let n = body_count(det, tuple);
            let pairs = end_pairs::<W, G>(det, tuple);
            let done = out.states[id as int];
            &&& id < f.states.len()
            &&& f.states.len() <= u32::MAX
            &&& out.has_state(id)
            &&& l.op.fst == det
            &&& l.op.delta == delta
            &&& plain_tuple::<G>(tuple)
            &&& factored_as::<W, G>(l.op, id, state)
            &&& plain_state::<W, G>(state)
            &&& done == from_gallic_state::<W, G>(state, f.states.len() as StateId)
            &&& forall|i: int|
                0 <= i < n ==> !tails.contains((#[trigger] state.trs[i]).nextstate as int)
                    && factor_met::<W, G>(det, delta).contains(state.trs[i].nextstate)
            &&& forall|k: int|
                0 <= k < pairs.len() ==> tails.contains(
                    state.trs[n + k].nextstate as int,
                ) && factor_met::<W, G>(det, delta).contains(
                    (#[trigger] state.trs[n + k]).nextstate,
                )
            &&& writes_at_end::<W, G>(state) ==> {
                &&& f.states.len() < out.states.len()
                &&& out.states[f.states.len() as int] == (StateM::<W::M> {
                    final_weight: Some(W::one_model()),
                    trs: Seq::empty(),
                })
            }
        }),
{
    lemma_factor_output::<W, G>(det, delta);
    let (l, r) = factor_compute::<W, G>(det, delta);
    let f = r->Ok_0;
    let met = factor_met::<W, G>(det, delta);
    let tails = factor_tails::<W, G>(det, delta);
    let tuple = l.op.table.tuples[id as int];
    let state = f.states[id as int];
    let n = body_count(det, tuple);
    let pairs = end_pairs::<W, G>(det, tuple);
    assert(met.contains(id));
    assert(plain_state::<W, G>(f.states[id as int]));
    assert forall|i: int| 0 <= i < n implies !tails.contains(
        (#[trigger] state.trs[i]).nextstate as int,
    ) && met.contains(state.trs[i].nextstate) by {
        assert(from_input::<G>(
            l.op.table,
            tuple.pairs[0].weight,
            det.states[tuple.pairs[0].state as int].trs[i],
            state.trs[i],
        ));
        assert(met.contains(state.trs[i].nextstate));
    }
    assert forall|k: int| 0 <= k < pairs.len() implies tails.contains(
        state.trs[n + k].nextstate as int,
    ) && met.contains((#[trigger] state.trs[n + k]).nextstate) by {
        assert(from_pair::<G>(l.op.table, delta, pairs[k], state.trs[n + k]));
        assert(met.contains(state.trs[n + k].nextstate));
    }
    if writes_at_end::<W, G>(state) {
        assert(needs_superfinal::<W, G>(f));
    }
}

/// A state of the machine that comes out finishes with what is still written at its
/// end.
proof fn lemma_finish<W: SemiringLaws, G: FactoredSeries<W> + WeightQuantize>(
    det: FstM<G::M>,
    delta: G::Delta,
    out: FstM<W::M>,
    id: StateId,
    y: Seq<Label>,
    n: nat,
)
    requires
        comes_out::<W, G>(det, delta, out),
        exact_step::<G>(delta),
        factor_met::<W, G>(det, delta).contains(id),
        n >= y.len() + 1 || short_end::<W, G>(
            det,
            factor_compute::<W, G>(det, delta).0.op.table.tuples[id as int],
        ),
    ensures
        finish_from::<W>(out, factor_tails::<W, G>(det, delta), id, y, n) == end_value::<W, G>(
            det,
            factor_compute::<W, G>(det, delta).0.op.table.tuples[id as int],
        )(y),
    decreases n, 1int, 0int,
{
    let (l, r) = factor_compute::<W, G>(det, delta);
    let f = r->Ok_0;
    let tails = factor_tails::<W, G>(det, delta);
    let tuple = l.op.table.tuples[id as int];
    lemma_out_state::<W, G>(det, delta, out, id);
    let state = f.states[id as int];
    let done = out.states[id as int];
    let nb = body_count(det, tuple) as int;
    let pairs = end_pairs::<W, G>(det, tuple);
    let nothing = no_value::<W>();
    W::law_sum_zero(nothing);
    G::law_series_units();
    let plain = Seq::new(state.trs.len(), |j: int| from_gallic_tr::<W, G>(state.trs[j]));
    assert forall|i: int| 0 <= i < nb implies !tails.contains(
        (#[trigger] plain.take(nb)[i]).nextstate as int,
    ) by {
        assert(state.trs[i].nextstate == plain[i].nextstate);
    }
    lemma_finish_none::<W>(out, tails, plain.take(nb), y, n);
    if pairs.len() > 0 {
        // The end is split; the state is not final.
        let w = end_weight::<G>(det, tuple)->Ok_0->0;
        assert(done.trs == plain);
        assert(n >= y.len() + 1);
        lemma_finish_pairs::<W, G>(det, delta, out, id, y, n, pairs.len() as int);
        assert(pairs.take(pairs.len() as int) =~= pairs);
        assert(plain.take(nb + pairs.len()) =~= plain);
        G::law_factors(w);
        W::law_sum_zero(finish_by::<W>(out, tails, plain, y, n));
    } else {
        assert(plain.take(nb) =~= plain);
        if let Some(w) = state.final_weight {
            let (label, weight) = G::extract_model(w)->Ok_0;
            G::law_extract(w);
            if label == EPS_LABEL {
                assert(y.len() == 0 ==> y =~= label_string(EPS_LABEL));
                W::law_sum_zero(W::value(weight));
                W::law_sum_commutative(W::value(weight), nothing);
            } else {
                lemma_finish_superfinal::<W, G>(det, delta, out, id, y, n);
                let tr = TrM {
                    ilabel: EPS_LABEL,
                    olabel: label,
                    weight,
                    nextstate: f.states.len() as StateId,
                };
                let through = W::product(
                    W::value(weight),
                    finish_from::<W>(
                        out,
                        tails,
                        tr.nextstate,
                        y.skip(1),
                        (n - 1) as nat,
                    ),
                );
                assert(done.trs == plain.push(tr));
                assert(done.trs.drop_last() =~= plain);
                assert(done.trs.last() == tr);
                assert(tails.contains(tr.nextstate as int));
                W::law_sum_zero(W::value(weight));
                W::law_product_one(W::value(weight));
                W::law_product_zero(W::value(weight));
                if begins_with(y, label_string(label)) {
                    assert(y.skip(1).len() == y.len() - 1);
                    if y.len() == 1 {
                        assert(y =~= label_string(label));
                    }
                } else {
                    assert(y != label_string(label)) by {
                        assert(label_string(label).take(1) =~= label_string(label));
                    }
                }
            }
        }
    }
}

/// What one state, reached by the last label, finishes with.
proof fn lemma_finish_superfinal<W: SemiringLaws, G: FactoredSeries<W> + WeightQuantize>(
    det: FstM<G::M>,
    delta: G::Delta,
    out: FstM<W::M>,
    id: StateId,
    y: Seq<Label>,
    n: nat,
)
    requires
        comes_out::<W, G>(det, delta, out),
        factor_met::<W, G>(det, delta).contains(id),
        writes_at_end::<W, G>(
            factor_compute::<W, G>(det, delta).1->Ok_0.states[id as int],
        ),
        n > 0,
    ensures
        finish_from::<W>(
            out,
            factor_tails::<W, G>(det, delta),
            factor_compute::<W, G>(det, delta).1->Ok_0.states.len() as StateId,
            y.skip(1),
            (n - 1) as nat,
        ) == (if y.skip(1).len() == 0 {
            W::value(W::one_model())
        } else {
            no_value::<W>()
        }),
{
    lemma_out_state::<W, G>(det, delta, out, id);
    W::law_sum_zero(no_value::<W>());
    W::law_sum_zero(W::value(W::one_model()));
    W::law_sum_commutative(W::value(W::one_model()), no_value::<W>());
}

/// The transitions for the first `k` pairs finish with the sum of the pairs.
proof fn lemma_finish_pairs<W: SemiringLaws, G: FactoredSeries<W> + WeightQuantize>(
    det: FstM<G::M>,
    delta: G::Delta,
    out: FstM<W::M>,
    id: StateId,
    y: Seq<Label>,
    n: nat,
    k: int,
)
    requires
        comes_out::<W, G>(det, delta, out),
        exact_step::<G>(delta),
        factor_met::<W, G>(det, delta).contains(id),
        n >= y.len() + 1,
        0 <= k <= end_pairs::<W, G>(
            det,
            factor_compute::<W, G>(det, delta).0.op.table.tuples[id as int],
        ).len(),
    ensures
        ({
            let (l, r) = factor_compute::<W, G>(det, delta);
            let tuple = l.op.table.tuples[id as int];
            let state = r->Ok_0.states[id as int];
            let plain = Seq::new(state.trs.len(), |j: int| from_gallic_tr::<W, G>(state.trs[j]));
            finish_by::<W>(
                out,
                factor_tails::<W, G>(det, delta),
                plain.take(body_count(det, tuple) + k),
                y,
                n,
            ) == pairs_value::<W, G>(end_pairs::<W, G>(det, tuple).take(k))(y)
        }),
    decreases n, 0int, k,
{
    let (l, r) = factor_compute::<W, G>(det, delta);
    let f = r->Ok_0;
    let tails = factor_tails::<W, G>(det, delta);
    let tuple = l.op.table.tuples[id as int];
    lemma_out_state::<W, G>(det, delta, out, id);
    let state = f.states[id as int];
    let nb = body_count(det, tuple) as int;
    let pairs = end_pairs::<W, G>(det, tuple);
    let plain = Seq::new(state.trs.len(), |j: int| from_gallic_tr::<W, G>(state.trs[j]));
    if k == 0 {
        assert forall|i: int| 0 <= i < nb implies !tails.contains(
            (#[trigger] plain.take(nb)[i]).nextstate as int,
        ) by {
            assert(state.trs[i].nextstate == plain[i].nextstate);
        }
        lemma_finish_none::<W>(out, tails, plain.take(nb), y, n);
    } else {
        lemma_finish_pairs::<W, G>(det, delta, out, id, y, n, k - 1);
        let now = plain.take(nb + k);
        assert(now.drop_last() =~= plain.take(nb + k - 1));
        let at = nb + (k - 1);
        assert(now.last() == plain[at]);
        let old = state.trs[at];
        assert(plain_tr::<W, G>(old));
        let pair = pairs[k - 1];
        assert(from_pair::<G>(l.op.table, delta, pair, state.trs[nb + (k - 1)]));
        assert(tails.contains(state.trs[nb + (k - 1)].nextstate as int));
        let (label, weight) = G::extract_model(old.weight)->Ok_0;
        G::law_extract(old.weight);
        let written = label_string(label);
        let rest = G::quantize_model(pair.1, delta)->Ok_0;
        assert(rest == pair.1);
        let next = l.op.table.tuples[old.nextstate as int];
        assert(next == tail_tuple(rest));
        let w = end_weight::<G>(det, tuple)->Ok_0->0;
        G::law_factors(w);
        assert(pairs.take(k).drop_last() =~= pairs.take(k - 1));
        assert(pairs.take(k).last() == pair);
        let g = G::series(pair.1);
        lemma_monomial_product::<W>(written, W::value(weight), g, y);
        let before = pairs_value::<W, G>(pairs.take(k - 1))(y);
        if begins_with(y, written) {
            assert(G::factors_model(w)[k - 1] == pair);
            lemma_finish::<W, G>(
                det,
                delta,
                out,
                old.nextstate,
                y.skip(written.len() as int),
                (n - 1) as nat,
            );
        } else {
            W::law_sum_zero(before);
            W::law_sum_commutative(before, no_value::<W>());
        }
    }
}

/// A state of the machine that comes out relates as the state of the automaton does.
proof fn lemma_relates_from<W: SemiringLaws, G: FactoredSeries<W> + WeightQuantize>(
    det: FstM<G::M>,
    delta: G::Delta,
    out: FstM<W::M>,
    id: StateId,
    x: Seq<Label>,
    y: Seq<Label>,
)
    requires
        comes_out::<W, G>(det, delta, out),
        exact_step::<G>(delta),
        factor_met::<W, G>(det, delta).contains(id),
        factor_compute::<W, G>(det, delta).0.op.table.tuples[id as int].filter_state == 0,
    ensures
        relate_with_tails_from::<W>(out, factor_tails::<W, G>(det, delta), id, x, y)
            == read_from::<W, G>(
            det,
            factor_compute::<W, G>(det, delta).0.op.table.tuples[id as int].pairs[0].state,
            x,
        )(y),
    decreases x.len(), 1int, 0int,
{
    let (l, r) = factor_compute::<W, G>(det, delta);
    let f = r->Ok_0;
    let tails = factor_tails::<W, G>(det, delta);
    let tuple = l.op.table.tuples[id as int];
    lemma_out_state::<W, G>(det, delta, out, id);
    let q = tuple.pairs[0].state;
    let state = f.states[id as int];
    let done = out.states[id as int];
    G::law_series_units();
    if x.len() == 0 {
        lemma_finish::<W, G>(det, delta, out, id, y, y.len() + 1);
        if let Some(w) = det.states[q as int].final_weight {
            G::law_series_times(G::one_model(), w);
            lemma_series_product_one::<W>(G::series(w));
        }
    } else {
        let nb = body_count(det, tuple) as int;
        let trs = det.states[q as int].trs;
        let plain = Seq::new(state.trs.len(), |j: int| from_gallic_tr::<W, G>(state.trs[j]));
        lemma_relates_by::<W, G>(det, delta, out, id, x, y, nb);
        assert(trs.take(nb) =~= trs);
        assert forall|i: int| 0 <= i < nb implies #[trigger] done.trs[i] == plain[i] by {}
        assert(done.trs.take(nb) =~= plain.take(nb));
        assert forall|i: int| nb <= i < done.trs.len() implies tails.contains(
            (#[trigger] done.trs[i]).nextstate as int,
        ) by {
            if i < state.trs.len() {
                let k = i - nb;
                assert(tails.contains(state.trs[nb + k].nextstate as int));
            }
        }
        lemma_tails_do_not_read::<W>(out, tails, done.trs, x, y, nb);
    }
}

/// Transitions into the tails read nothing of the input.
proof fn lemma_tails_do_not_read<W: SemiringLaws>(
    fst: FstM<W::M>,
    tails: Set<int>,
    trs: Seq<TrM<W::M>>,
    x: Seq<Label>,
    y: Seq<Label>,
    n: int,
)
    requires
        0 <= n <= trs.len(),
        forall|i: int|
            n <= i < trs.len() ==> tails.contains((#[trigger] trs[i]).nextstate as int),
    ensures
        relate_with_tails_by::<W>(fst, tails, trs, x, y) == relate_with_tails_by::<W>(
            fst,
            tails,
            trs.take(n),
            x,
            y,
        ),
    decreases trs.len() - n,
{
    if n == trs.len() {
        assert(trs.take(n) =~= trs);
    } else {
        let shorter = trs.drop_last();
        assert(shorter.take(n) =~= trs.take(n));
        assert(tails.contains(trs[trs.len() - 1].nextstate as int));
        lemma_tails_do_not_read::<W>(fst, tails, shorter, x, y, n);
    }
}

proof fn lemma_relates_by<W: SemiringLaws, G: FactoredSeries<W> + WeightQuantize>(
    det: FstM<G::M>,
    delta: G::Delta,
    out: FstM<W::M>,
    id: StateId,
    x: Seq<Label>,
    y: Seq<Label>,
    k: int,
)
    requires
        comes_out::<W, G>(det, delta, out),
        exact_step::<G>(delta),
        factor_met::<W, G>(det, delta).contains(id),
        factor_compute::<W, G>(det, delta).0.op.table.tuples[id as int].filter_state == 0,
        x.len() > 0,
        0 <= k <= body_count(
            det,
            factor_compute::<W, G>(det, delta).0.op.table.tuples[id as int],
        ),
    ensures
        ({
            let (l, r) = factor_compute::<W, G>(det, delta);
            let tuple = l.op.table.tuples[id as int];
            let state = r->Ok_0.states[id as int];
            let plain = Seq::new(state.trs.len(), |j: int| from_gallic_tr::<W, G>(state.trs[j]));
            relate_with_tails_by::<W>(
                out,
                factor_tails::<W, G>(det, delta),
                plain.take(k),
                x,
                y,
            ) == read_by::<W, G>(
                det,
                det.states[tuple.pairs[0].state as int].trs.take(k),
                x,
            )(y)
        }),
    decreases x.len(), 0int, k,
{
    let (l, r) = factor_compute::<W, G>(det, delta);
    let f = r->Ok_0;
    let tails = factor_tails::<W, G>(det, delta);
    let tuple = l.op.table.tuples[id as int];
    lemma_out_state::<W, G>(det, delta, out, id);
    let state = f.states[id as int];
    let trs = det.states[tuple.pairs[0].state as int].trs;
    let plain = Seq::new(state.trs.len(), |j: int| from_gallic_tr::<W, G>(state.trs[j]));
    G::law_series_units();
    if k > 0 {
        lemma_relates_by::<W, G>(det, delta, out, id, x, y, k - 1);
        assert(plain.take(k).drop_last() =~= plain.take(k - 1));
        assert(trs.take(k).drop_last() =~= trs.take(k - 1));
        let old = trs[k - 1];
        let mid = state.trs[k - 1];
        let new = plain[k - 1];
        assert(plain.take(k).last() == new);
        assert(trs.take(k).last() == old);
        assert(from_input::<G>(l.op.table, tuple.pairs[0].weight, old, mid));
        assert(!tails.contains(state.trs[k - 1].nextstate as int));
        assert(plain_tr::<W, G>(mid));
        G::law_series_times(G::one_model(), old.weight);
        lemma_series_product_one::<W>(G::series(old.weight));
        let (label, weight) = G::extract_model(mid.weight)->Ok_0;
        G::law_extract(mid.weight);
        if old.ilabel == x[0] {
            let written = label_string(label);
            let rest = read_from::<W, G>(det, old.nextstate, x.drop_first());
            lemma_monomial_product::<W>(written, W::value(weight), rest, y);
            let before = relate_with_tails_by::<W>(out, tails, plain.take(k - 1), x, y);
            if begins_with(y, written) {
                lemma_relates_from::<W, G>(
                    det,
                    delta,
                    out,
                    mid.nextstate,
                    x.drop_first(),
                    y.skip(written.len() as int),
                );
            } else {
                W::law_sum_zero(before);
                W::law_sum_commutative(before, no_value::<W>());
            }
        }
    }
}

/// The tails are the end of the machine: the start is not among them, a transition
/// into them reads nothing, and none leads out of them.
pub open spec fn ends_in_tails<M>(fst: FstM<M>, tails: Set<int>) -> bool {
    &&& fst.start matches Some(s) ==> !tails.contains(s as int)
    &&& forall|s: int, i: int|
        0 <= s < fst.states.len() && 0 <= i < fst.states[s].trs.len() && tails.contains(
            (#[trigger] fst.states[s].trs[i]).nextstate as int,
        ) ==> fst.states[s].trs[i].ilabel == EPS_LABEL
    &&& forall|s: int, i: int|
        0 <= s < fst.states.len() && 0 <= i < fst.states[s].trs.len() && tails.contains(s)
            ==> tails.contains((#[trigger] fst.states[s].trs[i]).nextstate as int)
}

/// No state has two transitions with the same input label, those into the tails
/// aside.
pub open spec fn reads_deterministically<M>(fst: FstM<M>, tails: Set<int>) -> bool {
    forall|s: int, i: int, j: int|
        0 <= s < fst.states.len() && 0 <= i < j < fst.states[s].trs.len() && !tails.contains(
            fst.states[s].trs[i].nextstate as int,
        ) && !tails.contains(fst.states[s].trs[j].nextstate as int) ==> (
        #[trigger] fst.states[s].trs[i]).ilabel < (#[trigger] fst.states[s].trs[j]).ilabel
}

/// No state has two transitions into the tails.
pub open spec fn one_way_to_finish<M>(fst: FstM<M>, tails: Set<int>) -> bool {
    forall|s: int, i: int, j: int|
        0 <= s < fst.states.len() && 0 <= i < j < fst.states[s].trs.len() && tails.contains(
            (#[trigger] fst.states[s].trs[i]).nextstate as int,
        ) ==> !tails.contains((#[trigger] fst.states[s].trs[j]).nextstate as int)
}

/// The transducer turns every input into every output with the same weight, with
/// what is left of the output written at the end.
pub open spec fn same_relation<W: SemiringLaws>(
    out: FstM<W::M>,
    tails: Set<int>,
    fst: FstM<W::M>,
) -> bool {
    forall|x: Seq<Label>, y: Seq<Label>|
        #[trigger] relation_with_tails::<W>(out, tails, x, y) == relation::<W>(fst, x, y)
}

proof fn lemma_ends_in_tails<W: Semiring, G: Gallic<W> + WeightQuantize>(
    det: FstM<G::M>,
    delta: G::Delta,
    out: FstM<W::M>,
)
    requires
        comes_out::<W, G>(det, delta, out),
    ensures
        ends_in_tails(out, factor_tails::<W, G>(det, delta)),
{
    lemma_factor_output::<W, G>(det, delta);
    let (l, r) = factor_compute::<W, G>(det, delta);
    let f = r->Ok_0;
    let met = factor_met::<W, G>(det, delta);
    let tails = factor_tails::<W, G>(det, delta);
    assert(met.contains(f.start->0));
    assert forall|s: int, i: int|
        0 <= s < out.states.len() && 0 <= i < out.states[s].trs.len() implies {
        &&& tails.contains((#[trigger] out.states[s].trs[i]).nextstate as int)
            ==> out.states[s].trs[i].ilabel == EPS_LABEL
        &&& tails.contains(s) ==> tails.contains(out.states[s].trs[i].nextstate as int)
    } by {
        if s < f.states.len() {
            if met.contains(s as StateId) {
                lemma_out_state::<W, G>(det, delta, out, s as StateId);
                let tuple = l.op.table.tuples[s];
                let n = body_count(det, tuple);
                let state = f.states[s];
                let pairs = end_pairs::<W, G>(det, tuple);
                if i < n {
                    assert(!tails.contains(state.trs[i].nextstate as int));
                    assert(out.states[s].trs[i].nextstate == state.trs[i].nextstate);
                } else if i < state.trs.len() {
                    let k = i - n;
                    assert(from_pair::<G>(l.op.table, delta, pairs[k], state.trs[n + k]));
                    assert(tails.contains(state.trs[n + k].nextstate as int));
                }
            } else {
                assert(f.states[s] == StateM::<G::M>::fresh());
            }
        }
    }
}

/// What reads deterministically before the ends are spread does so afterwards.
proof fn lemma_reads_deterministically<W: Semiring, G: Gallic<W> + WeightQuantize>(
    det: FstM<G::M>,
    delta: G::Delta,
    out: FstM<W::M>,
)
    requires
        comes_out::<W, G>(det, delta, out),
        deterministic(det),
    ensures
        reads_deterministically(out, factor_tails::<W, G>(det, delta)),
        (forall|w: G::M| (#[trigger] G::factors_model(w)).len() <= 1) ==> one_way_to_finish(
            out,
            factor_tails::<W, G>(det, delta),
        ),
{
    lemma_factor_output::<W, G>(det, delta);
    let (l, r) = factor_compute::<W, G>(det, delta);
    let f = r->Ok_0;
    let met = factor_met::<W, G>(det, delta);
    let tails = factor_tails::<W, G>(det, delta);
    assert forall|s: int, i: int, j: int|
        0 <= s < out.states.len() && 0 <= i < j < out.states[s].trs.len() implies {
        &&& (!tails.contains(out.states[s].trs[i].nextstate as int) && !tails.contains(
            out.states[s].trs[j].nextstate as int,
        )) ==> (#[trigger] out.states[s].trs[i]).ilabel < (#[trigger] out.states[s].trs[j]).ilabel
        &&& (forall|w: G::M| (#[trigger] G::factors_model(w)).len() <= 1) ==> tails.contains(
            out.states[s].trs[i].nextstate as int,
        ) ==> !tails.contains(out.states[s].trs[j].nextstate as int)
    } by {
        if s < f.states.len() {
            if met.contains(s as StateId) {
                lemma_out_state::<W, G>(det, delta, out, s as StateId);
                let tuple = l.op.table.tuples[s];
                let n = body_count(det, tuple);
                let state = f.states[s];
                let pairs = end_pairs::<W, G>(det, tuple);
                let trs = out.states[s].trs;
                if j >= n && j < state.trs.len() {
                    let k = j - n;
                    assert(tails.contains(state.trs[n + k].nextstate as int));
                }
                if i >= n && i < state.trs.len() {
                    let k = i - n;
                    assert(tails.contains(state.trs[n + k].nextstate as int));
                }
                if i < n {
                    assert(!tails.contains(state.trs[i].nextstate as int));
                }
                if j < n {
                    let q = tuple.pairs[0].state as int;
                    assert(!tails.contains(state.trs[j].nextstate as int));
                    assert(from_input::<G>(
                        l.op.table,
                        tuple.pairs[0].weight,
                        det.states[q].trs[i],
                        state.trs[i],
                    ));
                    assert(from_input::<G>(
                        l.op.table,
                        tuple.pairs[0].weight,
                        det.states[q].trs[j],
                        state.trs[j],
                    ));
                    assert(det.states[q].trs[i].ilabel < det.states[q].trs[j].ilabel);
                }
            } else {
                assert(f.states[s] == StateM::<G::M>::fresh());
            }
        }
    }
}

/// The transducer turns every input into every output with the weight that the
/// automaton gives them.
pub open spec fn relates_as_read<W: SemiringLaws, G: OutputSeries<W>>(
    out: FstM<W::M>,
    tails: Set<int>,
    det: FstM<G::M>,
) -> bool {
    forall|x: Seq<Label>, y: Seq<Label>|
        #[trigger] relation_with_tails::<W>(out, tails, x, y) == read::<W, G>(det, x)(y)
}

/// What comes out by way of an automaton whose weights carry the output relates as the
/// determinized automaton reads.
pub proof fn lemma_via_reads<
    W: SemiringLaws + WeightQuantize + WeaklyDivisibleSemiring,
    G: FactoredSeries<W> + WeaklyDivisibleSemiring + WeightQuantize,
    CD: CommonDivisor<G>,
>(fst: FstM<W::M>, delta: G::Delta, max_states: Option<usize>)
    requires
        exact_step::<G>(G::Delta::kdelta_model()),
    ensures
        determinize_via_model::<W, G, CD>(fst, delta, max_states) matches Ok(out) ==> exists|
            tails: Set<int>,
        | #[trigger]
            ends_in_tails(out, tails) && reads_deterministically(out, tails) && relates_as_read::<
                W,
                G,
            >(
                out,
                tails,
                det_compute::<G, CD>(
                    to_gallic_model::<W, G>(fst),
                    None,
                    delta,
                    max_states,
                ).1->Ok_0,
            ) && ((forall|w: G::M| (#[trigger] G::factors_model(w)).len() <= 1)
                ==> one_way_to_finish(out, tails)),
        determinize_via_model::<W, G, CD>(fst, delta, max_states) is Ok ==> det_compute::<G, CD>(
            to_gallic_model::<W, G>(fst),
            None,
            delta,
            max_states,
        ).1 is Ok,
{
    if let Ok(out) = determinize_via_model::<W, G, CD>(fst, delta, max_states) {
        let g = to_gallic_model::<W, G>(fst);
        let det = determinize_fsa_model::<G, CD>(g, delta, max_states)->Ok_0;
        let kdelta = G::Delta::kdelta_model();
        let tails = factor_tails::<W, G>(det, kdelta);
        assert(det_compute::<G, CD>(g, None, delta, max_states).1 == Ok::<FstM<G::M>, FstError>(
            det,
        ));
        lemma_factor_output::<W, G>(det, kdelta);
        if det.start is Some {
            lemma_ends_in_tails::<W, G>(det, kdelta, out);
            law_determinize_fsa_is_deterministic::<G, CD>(g, None, delta, max_states);
            lemma_reads_deterministically::<W, G>(det, kdelta, out);
        }
        assert forall|x: Seq<Label>, y: Seq<Label>|
            #[trigger] relation_with_tails::<W>(out, tails, x, y) == read::<W, G>(det, x)(y) by {
            if det.start is Some {
                lemma_relates_from::<W, G>(det, kdelta, out, out.start->0, x, y);
            }
        }
        assert(ends_in_tails(out, tails) && reads_deterministically(out, tails));
        assert(relates_as_read::<W, G>(out, tails, det));
    }
}

/// Determinizing by way of an automaton whose weights carry the output keeps what
/// the transducer relates.
proof fn lemma_via_is_equivalent<
    W: SemiringLaws + WeightQuantize + WeaklyDivisibleSemiring,
    G: FactoredSeries<W> + SummedSeries<W> + ExactWeights,
    CD: ExactDivisor<G>,
>(fst: FstM<W::M>, delta: G::Delta, max_states: Option<usize>)
    requires
        exact_step::<G>(delta),
        exact_step::<G>(G::Delta::kdelta_model()),
    ensures
        determinize_via_model::<W, G, CD>(fst, delta, max_states) matches Ok(out) ==> exists|
            tails: Set<int>,
        | #[trigger]
            ends_in_tails(out, tails) && reads_deterministically(out, tails) && same_relation::<W>(
                out,
                tails,
                fst,
            ) && ((forall|w: G::M| (#[trigger] G::factors_model(w)).len() <= 1)
                ==> one_way_to_finish(out, tails)),
{
    if let Ok(out) = determinize_via_model::<W, G, CD>(fst, delta, max_states) {
        lemma_via_reads::<W, G, CD>(fst, delta, max_states);
        let g = to_gallic_model::<W, G>(fst);
        let det = det_compute::<G, CD>(g, None, delta, max_states).1->Ok_0;
        let one_way = forall|w: G::M| (#[trigger] G::factors_model(w)).len() <= 1;
        let tails = choose|tails: Set<int>| #[trigger]
            ends_in_tails(out, tails) && reads_deterministically(out, tails) && relates_as_read::<
                W,
                G,
            >(out, tails, det) && (one_way ==> one_way_to_finish(out, tails));
        assert(ends_in_tails(out, tails) && reads_deterministically(out, tails) && relates_as_read::<
            W,
            G,
        >(out, tails, det) && (one_way ==> one_way_to_finish(out, tails)));
        G::law_value(G::zero_model());
        G::law_series_units();
        assert forall|x: Seq<Label>, y: Seq<Label>|
            #[trigger] relation_with_tails::<W>(out, tails, x, y) == relation::<W>(fst, x, y) by {
            assert(relation_with_tails::<W>(out, tails, x, y) == read::<W, G>(det, x)(y));
            law_determinize_fsa_is_equivalent::<G, CD>(g, None, delta, max_states, x);
            if let Some(q) = det.start {
                lemma_read_from_accepts::<W, G>(det, q, x);
            }
            if let Some(q) = g.start {
                lemma_read_from_accepts::<W, G>(g, q, x);
            }
            if fst.start is Some {
                lemma_to_gallic_from::<W, G>(fst, fst.start->0, x, y);
            }
        }
        assert(same_relation::<W>(out, tails, fst));
    }
}

/// A functional transducer is turned into an equivalent one that is deterministic:
/// it turns every input into the same output with the same weight, no state has
/// two transitions with the same input label, and where more output is left at the
/// end than one state can write, there is one way to write it. Rounding must not
/// change weights.
pub proof fn law_functional_determinization_is_equivalent<W: ExactDivision>(
    fst: FstM<W::M>,
    delta: W::Delta,
    max_states: Option<usize>,
)
    requires
        exact_step::<W>(delta),
        exact_step::<W>(W::Delta::kdelta_model()),
    ensures
        determinize_fst_model::<W>(
            fst,
            DeterminizeType::DeterminizeFunctional,
            delta,
            max_states,
        ) matches Ok(out) ==> exists|tails: Set<int>| #[trigger]
            ends_in_tails(out, tails) && reads_deterministically(out, tails) && one_way_to_finish(
                out,
                tails,
            ) && same_relation::<W>(out, tails, fst),
{
    law_gallic_steps_are_exact::<W>(delta);
    law_gallic_steps_are_exact::<W>(W::Delta::kdelta_model());
    lemma_via_is_equivalent::<W, GallicWeightRestrict<W>, GallicCommonDivisor>(
        fst,
        delta,
        max_states,
    );
}

/// A transducer that is not known to be functional is turned into an equivalent one
/// in which no state has two transitions with the same input label, those aside
/// that write what is left of the output at the end. It turns every input into the
/// same outputs with the same weights. Rounding must not change weights.
pub proof fn law_nonfunctional_determinization_is_equivalent<W: ExactDivision>(
    fst: FstM<W::M>,
    delta: W::Delta,
    max_states: Option<usize>,
)
    requires
        exact_step::<W>(delta),
        exact_step::<W>(W::Delta::kdelta_model()),
    ensures
        determinize_fst_model::<W>(
            fst,
            DeterminizeType::DeterminizeNonFunctional,
            delta,
            max_states,
        ) matches Ok(out) ==> exists|tails: Set<int>| #[trigger]
            ends_in_tails(out, tails) && reads_deterministically(out, tails) && same_relation::<W>(
                out,
                tails,
                fst,
            ),
{
    law_gallic_steps_are_exact::<W>(delta);
    law_gallic_steps_are_exact::<W>(W::Delta::kdelta_model());
    lemma_via_is_equivalent::<W, GallicWeight<W>, GallicCommonDivisor>(fst, delta, max_states);
}

/// A deterministic automaton gives an input at most one output.
proof fn lemma_reads_one<W: SemiringLaws>(
    fst: FstM<Option<ItemM<W::M>>>,
    q: StateId,
    x: Seq<Label>,
) -> (s: Seq<Label>)
    requires
        deterministic(fst),
    ensures
        forall|y: Seq<Label>|
            y != s ==> #[trigger] read_from::<W, GallicWeightRestrict<W>>(fst, q, x)(y)
                == no_value::<W>(),
    decreases x.len(),
{
    let nothing = Seq::<Label>::empty();
    if !fst.has_state(q) {
        nothing
    } else if x.len() == 0 {
        match fst.states[q as int].final_weight {
            Some(Some(item)) => item.string,
            _ => nothing,
        }
    } else {
        let trs = fst.states[q as int].trs;
        if exists|k: int| 0 <= k < trs.len() && (#[trigger] trs[k]).ilabel == x[0] {
            let k = choose|k: int| 0 <= k < trs.len() && (#[trigger] trs[k]).ilabel == x[0];
            assert forall|i: int| 0 <= i < trs.len() && i != k implies (#[trigger] trs[i]).ilabel
                != x[0] by {
                let (a, b) = if i < k {
                    (i, k)
                } else {
                    (k, i)
                };
                assert(fst.states[q as int].trs[a].ilabel < fst.states[q as int].trs[b].ilabel);
            }
            lemma_read_by_one::<W, GallicWeightRestrict<W>>(fst, trs, x, k);
            let t = lemma_reads_one::<W>(fst, trs[k].nextstate, x.drop_first());
            let rest = read_from::<W, GallicWeightRestrict<W>>(
                fst,
                trs[k].nextstate,
                x.drop_first(),
            );
            match trs[k].weight {
                None => {
                    lemma_series_product_zero::<W>(rest);
                    nothing
                },
                Some(item) => {
                    let s = item.string + t;
                    assert forall|y: Seq<Label>| y != s implies #[trigger] read_from::<
                        W,
                        GallicWeightRestrict<W>,
                    >(fst, q, x)(y) == no_value::<W>() by {
                        lemma_monomial_product::<W>(
                            item.string,
                            W::value(item.weight),
                            rest,
                            y,
                        );
                        W::law_product_zero(W::value(item.weight));
                        if begins_with(y, item.string) {
                            let n = item.string.len() as int;
                            if y.skip(n) == t {
                                assert(y =~= y.take(n) + y.skip(n));
                            }
                        }
                    }
                    s
                },
            }
        } else {
            lemma_read_by_none::<W, GallicWeightRestrict<W>>(fst, trs, x);
            nothing
        }
    }
}

/// The transducer turns every input into at most one output.
pub open spec fn functional<W: SemiringLaws>(fst: FstM<W::M>) -> bool {
    forall|x: Seq<Label>, y: Seq<Label>, z: Seq<Label>|
        #![trigger relation::<W>(fst, x, y), relation::<W>(fst, x, z)]
        relation::<W>(fst, x, y) != no_value::<W>() && relation::<W>(fst, x, z) != no_value::<W>()
            ==> y == z
}

/// When a transducer is said to be functional and is determinized without an error, it
/// is functional. Rounding must not change weights.
pub proof fn law_determinized_transducer_is_functional<W: ExactDivision>(
    fst: FstM<W::M>,
    delta: W::Delta,
    max_states: Option<usize>,
)
    requires
        exact_step::<W>(delta),
        exact_step::<W>(W::Delta::kdelta_model()),
        determinize_fst_model::<W>(
            fst,
            DeterminizeType::DeterminizeFunctional,
            delta,
            max_states,
        ) is Ok,
    ensures
        functional::<W>(fst),
{
    law_gallic_steps_are_exact::<W>(delta);
    law_gallic_steps_are_exact::<W>(W::Delta::kdelta_model());
    lemma_via_reads::<W, GallicWeightRestrict<W>, GallicCommonDivisor>(fst, delta, max_states);
    let g = to_gallic_model::<W, GallicWeightRestrict<W>>(fst);
    let det = det_compute::<GallicWeightRestrict<W>, GallicCommonDivisor>(
        g,
        None,
        delta,
        max_states,
    ).1->Ok_0;
    law_determinize_fsa_is_deterministic::<GallicWeightRestrict<W>, GallicCommonDivisor>(
        g,
        None,
        delta,
        max_states,
    );
    assert forall|x: Seq<Label>, y: Seq<Label>, z: Seq<Label>|
        #![trigger relation::<W>(fst, x, y), relation::<W>(fst, x, z)]
        relation::<W>(fst, x, y) != no_value::<W>() && relation::<W>(fst, x, z) != no_value::<
            W,
        >() implies y == z by {
        let q = fst.start->0;
        law_determinize_fsa_is_equivalent::<GallicWeightRestrict<W>, GallicCommonDivisor>(
            g,
            None,
            delta,
            max_states,
            x,
        );
        lemma_to_gallic_from::<W, GallicWeightRestrict<W>>(fst, q, x, y);
        lemma_to_gallic_from::<W, GallicWeightRestrict<W>>(fst, q, x, z);
        lemma_read_from_accepts::<W, GallicWeightRestrict<W>>(g, q, x);
        if let Some(s0) = det.start {
            lemma_read_from_accepts::<W, GallicWeightRestrict<W>>(det, s0, x);
            let s = lemma_reads_one::<W>(det, s0, x);
            let read = read_from::<W, GallicWeightRestrict<W>>(det, s0, x);
            assert(read(y) == relation::<W>(fst, x, y));
            assert(read(z) == relation::<W>(fst, x, z));
        }
    }
}

} // verus!
