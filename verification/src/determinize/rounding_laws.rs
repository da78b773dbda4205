//! What rounding does to the weights of a determinized machine.

use crate::determinize::determinize_fsa::det_compute;
use crate::determinize::determinize_fsa_op::{divide_all, merge_equal, norm_model, residual};
use crate::determinize::determinize_static::{
    determinize_model, determinize_via_model, determinized_states, DeterminizeConfig,
    DeterminizeType,
};
use crate::determinize::divisor_laws::ExactDivisor;
use crate::determinize::divisors::{DefaultCommonDivisor, GallicCommonDivisor};
use crate::determinize::element::ElementM;
use crate::determinize::laws::{
    accept_from, divides_all, lemma_det_finishes, lemma_det_output, lemma_det_reads,
    lemma_divisor_divides, lemma_merge_accepts, lemma_merge_divides, subset_accept, weight_of,
};
use crate::determinize::output_series::{
    lemma_read_from_accepts, read, FactoredSeries, SummedSeries,
};
use crate::determinize::static_laws::{lemma_accept_from_states, lemma_relate_from_states};
use crate::determinize::transducer_laws::{
    ends_in_tails, lemma_to_gallic_from, lemma_via_reads, one_way_to_finish,
    reads_deterministically, relates_as_read, relation, relation_with_tails,
};
use crate::fst::properties::ACCEPTOR;
use crate::fst::tr::{Label, StateId};
use crate::fst::vector_fst::FstM;
use crate::semirings::gallic::GallicWeightRestrict;
use crate::semirings::gallic_laws::law_gallic_steps_are_exact;
use crate::semirings::gallic_union::GallicWeight;
use crate::semirings::laws::{exact_step, ExactDivision};
use crate::semirings::rounding::RoundedWeights;
use crate::semirings::semiring::{DivideType, QuantizationStep};
use crate::semirings::series::Series;
use crate::weight_convert::to_gallic_model;
use vstd::prelude::*;

verus! {

/// Taking a divisor out, rounding and multiplying with it again moves what a subset
/// accepts by no more than half a step.
proof fn lemma_divide_near<W: RoundedWeights, CD: ExactDivisor<W>>(
    fst: FstM<W::M>,
    pairs: Seq<ElementM<W::M>>,
    divisor: W::M,
    delta: W::Delta,
    string: Seq<Label>,
)
    requires
        divides_all::<W, CD>(divisor, pairs),
    ensures
        divide_all::<W>(pairs, divisor, delta) matches Ok(divided) ==> W::near(
            W::product(W::value(divisor), subset_accept::<W>(fst, divided, string)),
            subset_accept::<W>(fst, pairs, string),
            W::step(delta),
        ),
    decreases pairs.len(),
{
    let d = W::value(divisor);
    let step = W::step(delta);
    W::law_step(delta);
    if pairs.len() == 0 {
        W::law_product_zero(d);
        W::law_near_self(W::value(W::zero_model()), step);
    } else {
        assert forall|i: int| 0 <= i < pairs.drop_last().len() implies CD::divides(
            divisor,
            (#[trigger] pairs.drop_last()[i]).weight,
        ) by {
            assert(CD::divides(divisor, pairs[i].weight));
        }
        lemma_divide_near::<W, CD>(fst, pairs.drop_last(), divisor, delta, string);
        if let Ok(divided) = divide_all::<W>(pairs.drop_last(), divisor, delta) {
            if let Ok(w) = residual::<W>(pairs.last().weight, divisor, delta) {
                let after = divided.push(ElementM { state: pairs.last().state, weight: w });
                assert(after.drop_last() =~= divided);
                let q = W::divide_model(
                    pairs.last().weight,
                    divisor,
                    DivideType::DivideLeft,
                )->Ok_0;
                assert(CD::divides(divisor, pairs[pairs.len() - 1].weight));
                CD::law_divides(pairs.last().weight, divisor);
                W::law_quantize(q, delta);
                let f = accept_from::<W>(fst, pairs.last().state, string);
                let (rounded, exact) = (W::value(w), W::value(q));
                W::law_near_product(rounded, exact, d, step);
                W::law_near_product(W::product(d, rounded), W::product(d, exact), f, step);
                W::law_product_associative(d, rounded, f);
                let head = subset_accept::<W>(fst, divided, string);
                W::law_distributive(d, head, W::product(rounded, f));
                W::law_near_sum(
                    W::product(d, head),
                    subset_accept::<W>(fst, pairs.drop_last(), string),
                    W::product(W::product(d, rounded), f),
                    W::product(W::product(d, exact), f),
                    step,
                );
            }
        }
    }
}

/// The divisor times what the destination accepts is what leaves on the label, but
/// for half a step.
proof fn lemma_norm_near<W: RoundedWeights, CD: ExactDivisor<W>>(
    fst: FstM<W::M>,
    pairs: Seq<ElementM<W::M>>,
    delta: W::Delta,
    string: Seq<Label>,
)
    ensures
        norm_model::<W, CD>(pairs, delta) matches Ok((weight, dest)) ==> W::near(
            W::product(W::value(weight), subset_accept::<W>(fst, dest, string)),
            subset_accept::<W>(fst, pairs, string),
            W::step(delta),
        ),
{
    if let Ok((weight, dest)) = norm_model::<W, CD>(pairs, delta) {
        lemma_divisor_divides::<W, CD>(pairs);
        if CD::merge_before_divisor_model() {
            lemma_divide_near::<W, CD>(fst, pairs, weight, delta, string);
        } else {
            lemma_merge_accepts::<W>(fst, pairs, string);
            lemma_merge_divides::<W, CD>(weight, pairs);
            let merged = merge_equal::<W>(pairs)->Ok_0;
            lemma_divide_near::<W, CD>(fst, merged, weight, delta, string);
        }
    }
}

/// A state of the output accepts what its subset accepts, but for half a step for each
/// symbol.
proof fn lemma_det_near<W: RoundedWeights, CD: ExactDivisor<W>>(
    fst: FstM<W::M>,
    in_dist: Option<Seq<W::M>>,
    delta: W::Delta,
    max_states: Option<usize>,
    id: StateId,
    string: Seq<Label>,
)
    requires
        det_compute::<W, CD>(fst, in_dist, delta, max_states).1 is Ok,
        id < det_compute::<W, CD>(fst, in_dist, delta, max_states).1->Ok_0.states.len(),
    ensures
        ({
            let (l, r) = det_compute::<W, CD>(fst, in_dist, delta, max_states);
            W::near(
                accept_from::<W>(r->Ok_0, id, string),
                subset_accept::<W>(fst, l.op.table.tuples[id as int].pairs, string),
                string.len() * W::step(delta),
            )
        }),
    decreases string.len(),
{
    let step = W::step(delta);
    let (l, r) = det_compute::<W, CD>(fst, in_dist, delta, max_states);
    let out = r->Ok_0;
    let whole = subset_accept::<W>(fst, l.op.table.tuples[id as int].pairs, string);
    W::law_step(delta);
    if string.len() == 0 {
        lemma_det_finishes::<W, CD>(fst, in_dist, delta, max_states, id);
        assert(string =~= Seq::empty());
        assert(string.len() * step == 0) by (nonlinear_arith)
            requires
                string.len() == 0,
        ;
        W::law_near_self(whole, 0);
    } else {
        let rest = string.drop_first();
        let n = rest.len() as int;
        assert((n + 1) * step == n * step + step && n * step >= 0) by (nonlinear_arith)
            requires
                n >= 0,
                step >= 0,
        ;
        match lemma_det_reads::<W, CD>(fst, in_dist, delta, max_states, id, string) {
            None => {
                W::law_near_self(whole, string.len() * step);
            },
            Some((k, group)) => {
                let tr = out.states[id as int].trs[k];
                let next = l.op.table.tuples[tr.nextstate as int].pairs;
                lemma_det_near::<W, CD>(fst, in_dist, delta, max_states, tr.nextstate, rest);
                lemma_norm_near::<W, CD>(fst, group, delta, rest);
                let (a, b) = (
                    accept_from::<W>(out, tr.nextstate, rest),
                    subset_accept::<W>(fst, next, rest),
                );
                let w = W::value(tr.weight);
                W::law_near_product(a, b, w, n * step);
                W::law_near_chain(W::product(w, a), W::product(w, b), whole, n * step, step);
            },
        }
    }
}

/// Whatever the step, a determinized automaton gives every string the weight it had,
/// but for half a step for each of its symbols.
pub proof fn law_rounding_is_bounded<W: RoundedWeights, CD: ExactDivisor<W>>(
    fst: FstM<W::M>,
    in_dist: Option<Seq<W::M>>,
    delta: W::Delta,
    max_states: Option<usize>,
    string: Seq<Label>,
)
    ensures
        det_compute::<W, CD>(fst, in_dist, delta, max_states).1 matches Ok(out) ==> W::near(
            weight_of::<W>(out, string),
            weight_of::<W>(fst, string),
            string.len() * W::step(delta),
        ),
{
    let (l, r) = det_compute::<W, CD>(fst, in_dist, delta, max_states);
    if let Ok(out) = r {
        lemma_det_output::<W, CD>(fst, in_dist, delta, max_states);
        match out.start {
            Some(s) => {
                lemma_det_near::<W, CD>(fst, in_dist, delta, max_states, s, string);
                let q = fst.start->0;
                let one = ElementM { state: q, weight: W::one_model() };
                let pairs = seq![one];
                let f = accept_from::<W>(fst, q, string);
                assert(subset_accept::<W>(fst, pairs.drop_last(), string) == W::value(
                    W::zero_model(),
                ));
                assert(pairs.last() == one);
                W::law_product_one(f);
                W::law_sum_zero(f);
            },
            None => {
                W::law_step(delta);
                let (n, step) = (string.len() as int, W::step(delta));
                assert(n * step >= 0) by (nonlinear_arith)
                    requires
                        n >= 0,
                        step >= 0,
                ;
                W::law_near_self(weight_of::<W>(out, string), n * step);
            },
        }
    }
}

/// Whatever the step, the determinization of an acceptor gives every string the weight
/// it had, but for half a step for each of its symbols. Of tropical weights this means
/// that the same strings are accepted.
pub proof fn law_determinize_acceptor_rounds_little<W: RoundedWeights + ExactDivision>(
    fst: FstM<W::M>,
    config: DeterminizeConfig<W::Delta>,
    string: Seq<Label>,
)
    requires
        fst.properties.has(ACCEPTOR),
    ensures
        determinize_model::<W>(fst, config) matches Ok(out) ==> W::near(
            weight_of::<W>(out, string),
            weight_of::<W>(fst, string),
            string.len() * W::step(config.delta),
        ),
{
    if let Ok(out) = determinize_model::<W>(fst, config) {
        let det = determinized_states::<W>(fst, config)->Ok_0;
        law_rounding_is_bounded::<W, DefaultCommonDivisor>(
            fst,
            None,
            config.delta,
            config.max_states,
            string,
        );
        if let Some(q) = out.start {
            lemma_accept_from_states::<W>(out, det, q, string);
        }
    }
}

/// A weight that stands for a series, of which rounding moves every coefficient by no
/// more than half a step.
pub trait RoundedSeries<W: RoundedWeights>: SummedSeries<W> + RoundedWeights {
    proof fn law_near_series(a: Self::V, b: Self::V, steps: int, y: Seq<Label>)
        ensures
            Self::near(a, b, steps) ==> W::near(
                Self::as_series(a)(y),
                Self::as_series(b)(y),
                steps,
            ),
    ;
}

impl<W: RoundedWeights> RoundedSeries<W> for GallicWeightRestrict<W> {
    proof fn law_near_series(a: Series<W::V>, b: Series<W::V>, steps: int, y: Seq<Label>) {
    }
}

impl<W: RoundedWeights> RoundedSeries<W> for GallicWeight<W> {
    proof fn law_near_series(a: Series<W::V>, b: Series<W::V>, steps: int, y: Seq<Label>) {
    }
}

/// The transducer turns every input into every output with the weight that the other
/// gives them, but for half a step for each symbol of the input.
pub open spec fn near_relation<W: RoundedWeights>(
    out: FstM<W::M>,
    tails: Set<int>,
    fst: FstM<W::M>,
    step: int,
) -> bool {
    forall|x: Seq<Label>, y: Seq<Label>|
        W::near(
            #[trigger] relation_with_tails::<W>(out, tails, x, y),
            relation::<W>(fst, x, y),
            x.len() * step,
        )
}

/// Determinizing by way of an automaton whose weights carry the output keeps what the
/// transducer relates, but for rounding.
proof fn lemma_via_is_near<
    W: RoundedWeights,
    G: FactoredSeries<W> + RoundedSeries<W>,
    CD: ExactDivisor<G>,
>(fst: FstM<W::M>, delta: G::Delta, max_states: Option<usize>, step: int)
    requires
        exact_step::<G>(G::Delta::kdelta_model()),
        step == G::step(delta),
    ensures
        determinize_via_model::<W, G, CD>(fst, delta, max_states) matches Ok(out) ==> exists|
            tails: Set<int>,
        | #[trigger]
            ends_in_tails(out, tails) && reads_deterministically(out, tails) && near_relation::<W>(
                out,
                tails,
                fst,
                step,
            ) && ((forall|w: G::M| (#[trigger] G::factors_model(w)).len() <= 1)
                ==> one_way_to_finish(out, tails)),
{
    if let Ok(out) = determinize_via_model::<W, G, CD>(fst, delta, max_states) {
        lemma_via_reads::<W, G, CD>(fst, delta, max_states);
        let g = to_gallic_model::<W, G>(fst);
        let det = det_compute::<G, CD>(g, None, delta, max_states).1->Ok_0;
        let one_way = forall|w: G::M| (#[trigger] G::factors_model(w)).len() <= 1;
        let tails = choose|tails: Set<int>| #[trigger]
            ends_in_tails(out, tails) && reads_deterministically(out, tails) && relates_as_read::<
                W,
                G,
            >(out, tails, det) && (one_way ==> one_way_to_finish(out, tails));
        assert(ends_in_tails(out, tails) && reads_deterministically(out, tails) && relates_as_read::<
            W,
            G,
        >(out, tails, det) && (one_way ==> one_way_to_finish(out, tails)));
        G::law_value(G::zero_model());
        G::law_series_units();
        assert forall|x: Seq<Label>, y: Seq<Label>|
            W::near(
                #[trigger] relation_with_tails::<W>(out, tails, x, y),
                relation::<W>(fst, x, y),
                x.len() * step,
            ) by {
            assert(relation_with_tails::<W>(out, tails, x, y) == read::<W, G>(det, x)(y));
            law_rounding_is_bounded::<G, CD>(g, None, delta, max_states, x);
            if let Some(q) = det.start {
                lemma_read_from_accepts::<W, G>(det, q, x);
            }
            if let Some(q) = g.start {
                lemma_read_from_accepts::<W, G>(g, q, x);
            }
            if fst.start is Some {
                lemma_to_gallic_from::<W, G>(fst, fst.start->0, x, y);
            }
            G::law_near_series(
                weight_of::<G>(det, x),
                weight_of::<G>(g, x),
                x.len() * step,
                y,
            );
        }
        assert(near_relation::<W>(out, tails, fst, step));
    }
}

/// Whatever the step, the determinization of a transducer whose outputs are all kept
/// turns every input into every output with the weight it had, but for half a step for
/// each symbol of the input. No state has two transitions with the same input label,
/// those aside that write what is left of the output at the end; of a functional
/// transducer there is at most one of these at each state.
pub proof fn law_determinize_transducer_rounds_little<W: RoundedWeights + ExactDivision>(
    fst: FstM<W::M>,
    config: DeterminizeConfig<W::Delta>,
)
    requires
        !fst.properties.has(ACCEPTOR),
        config.det_type != DeterminizeType::DeterminizeDisambiguate,
        exact_step::<W>(W::Delta::kdelta_model()),
    ensures
        determinize_model::<W>(fst, config) matches Ok(out) ==> exists|tails: Set<int>| #[trigger]
            ends_in_tails(out, tails) && reads_deterministically(out, tails) && near_relation::<W>(
                out,
                tails,
                fst,
                W::step(config.delta),
            ) && (config.det_type == DeterminizeType::DeterminizeFunctional ==> one_way_to_finish(
                out,
                tails,
            )),
{
    if let Ok(out) = determinize_model::<W>(fst, config) {
        let det = determinized_states::<W>(fst, config)->Ok_0;
        let step = W::step(config.delta);
        let functional = config.det_type == DeterminizeType::DeterminizeFunctional;
        law_gallic_steps_are_exact::<W>(W::Delta::kdelta_model());
        if functional {
            lemma_via_is_near::<W, GallicWeightRestrict<W>, GallicCommonDivisor>(
                fst,
                config.delta,
                config.max_states,
                step,
            );
        } else {
            lemma_via_is_near::<W, GallicWeight<W>, GallicCommonDivisor>(
                fst,
                config.delta,
                config.max_states,
                step,
            );
        }
        let tails = choose|tails: Set<int>| #[trigger]
            ends_in_tails(det, tails) && reads_deterministically(det, tails) && near_relation::<W>(
                det,
                tails,
                fst,
                step,
            ) && (functional ==> one_way_to_finish(det, tails));
        assert(ends_in_tails(det, tails) && reads_deterministically(det, tails) && near_relation::<
            W,
        >(det, tails, fst, step) && (functional ==> one_way_to_finish(det, tails)));
        assert forall|x: Seq<Label>, y: Seq<Label>|
            W::near(
                #[trigger] relation_with_tails::<W>(out, tails, x, y),
                relation::<W>(fst, x, y),
                x.len() * step,
            ) by {
            assert(W::near(
                relation_with_tails::<W>(det, tails, x, y),
                relation::<W>(fst, x, y),
                x.len() * step,
            ));
            if let Some(q) = out.start {
                lemma_relate_from_states::<W>(out, det, tails, q, x, y);
            }
        }
        assert(ends_in_tails(out, tails));
    }
}

} // verus!
