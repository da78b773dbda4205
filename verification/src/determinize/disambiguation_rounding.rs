//! What rounding does when only the best output of a transducer is asked for.

use crate::determinize::determinize_fsa::det_compute;
use crate::determinize::determinize_static::{
    determinize_model, determinized_states, DeterminizeConfig, DeterminizeType,
};
use crate::determinize::disambiguation_laws::{
    lemma_accept_absorbs_read, lemma_det_ends, lemma_det_writes_first, lemma_one_output,
    lemma_path_begins, lemma_read_absorbs_path, lemma_weighs_from, member_writes, rounded,
    subset_writes, writes_from,
};
use crate::determinize::divisors::GallicCommonDivisor;
use crate::determinize::laws::{
    law_determinize_fsa_is_deterministic, lemma_det_output, weight_of,
};
use crate::determinize::output_series::read;
use crate::determinize::rounding_laws::law_rounding_is_bounded;
use crate::determinize::static_laws::lemma_relate_from_states;
use crate::determinize::transducer_laws::{
    ends_in_tails, lemma_to_gallic_from, lemma_via_reads, one_way_to_finish,
    reads_deterministically, relates_as_read, relation, relation_with_tails,
};
use crate::fst::properties::ACCEPTOR;
use crate::fst::tr::{Label, StateId};
use crate::fst::vector_fst::FstM;
use crate::semirings::gallic::{GallicWeightMin, ItemM};
use crate::semirings::gallic_laws::law_gallic_steps_are_exact;
use crate::semirings::laws::{exact_step, ExactDivision};
use crate::semirings::rounding::{RoundedOrder, RoundedWeights};
use crate::semirings::semiring::QuantizationStep;
use crate::semirings::series::no_value;
use crate::weight_convert::to_gallic_model;
use vstd::prelude::*;

verus! {

/// What a state of the determinized automaton writes, a member of its subset writes,
/// with a weight that differs by no more than half a step for each symbol.
proof fn lemma_det_writes_near<W: ExactDivision + RoundedOrder>(
    fst: FstM<Option<ItemM<W::M>>>,
    delta: W::Delta,
    max_states: Option<usize>,
    id: StateId,
    x: Seq<Label>,
    s: Seq<Label>,
    v: W::V,
) -> (near: W::V)
    requires
        ({
            let (l, r) = det_compute::<GallicWeightMin<W>, GallicCommonDivisor>(
                fst,
                None,
                delta,
                max_states,
            );
            r matches Ok(out) && id < out.states.len() && writes_from::<W>(out, id, x, s, v)
        }),
    ensures
        subset_writes::<W>(
            fst,
            det_compute::<GallicWeightMin<W>, GallicCommonDivisor>(
                fst,
                None,
                delta,
                max_states,
            ).0.op.table.tuples[id as int].pairs,
            x,
            s,
            near,
        ),
        W::near(v, near, x.len() * W::step(delta)),
    decreases x.len(),
{
    lemma_det_output::<GallicWeightMin<W>, GallicCommonDivisor>(fst, None, delta, max_states);
    let (l, r) = det_compute::<GallicWeightMin<W>, GallicCommonDivisor>(
        fst,
        None,
        delta,
        max_states,
    );
    let out = r->Ok_0;
    let step = W::step(delta);
    W::law_step(delta);
    if x.len() == 0 {
        lemma_det_ends::<W>(fst, delta, max_states, id, x, s, v);
        assert(x.len() * step == 0) by (nonlinear_arith)
            requires
                x.len() == 0,
        ;
        W::law_near_self(v, 0);
        v
    } else {
        let rest = x.drop_first();
        let n = rest.len() as int;
        assert((n + 1) * step == n * step + step) by (nonlinear_arith);
        let (k, tail, u) = lemma_path_begins::<W>(out, id, x, s, v);
        let tr = out.states[id as int].trs[k];
        let d = W::value((tr.weight->0).weight);
        let dest = l.op.table.tuples[tr.nextstate as int].pairs;
        let v1 = lemma_det_writes_near::<W>(
            fst,
            delta,
            max_states,
            tr.nextstate,
            rest,
            tail,
            u,
        );
        let (i, t, u1) = choose|i: int, t: Seq<Label>, u1: W::V| #[trigger]
            member_writes::<W>(fst, dest, rest, tail, v1, i, t, u1);
        let q = lemma_det_writes_first::<W>(fst, delta, max_states, id, x, k, i, t, u1);
        assert(rounded::<W>(q, dest[i].weight, delta));
        let left = W::value((dest[i].weight->0).weight);
        let exact = W::value(q.weight);
        W::law_quantize(q.weight, delta);
        W::law_near_product(left, exact, u1, step);
        W::law_near_product(W::product(left, u1), W::product(exact, u1), d, step);
        W::law_near_product(u, v1, d, n * step);
        let near = W::product(d, W::product(exact, u1));
        W::law_near_chain(v, W::product(d, v1), near, n * step, step);
        near
    }
}

/// The transducer `out` turns the input `x` into `y` alone, with a weight that is near
/// the one that `x` has in `fst`, and near the one with which `fst` turns `x` into `y`.
pub open spec fn nears_output<W: RoundedWeights>(
    out: FstM<W::M>,
    tails: Set<int>,
    fst: FstM<W::M>,
    x: Seq<Label>,
    y: Seq<Label>,
    steps: int,
) -> bool {
    let weight = relation_with_tails::<W>(out, tails, x, y);
    &&& forall|z: Seq<Label>|
        z != y ==> #[trigger] relation_with_tails::<W>(out, tails, x, z) == no_value::<W>()
    &&& W::near(weight, weight_of::<W>(fst, x), steps)
    &&& W::near(weight, relation::<W>(fst, x, y), steps)
}

/// Of the input `x` an output is kept that is near the best, and no other.
pub open spec fn nears_best_of<W: RoundedWeights>(
    out: FstM<W::M>,
    tails: Set<int>,
    fst: FstM<W::M>,
    x: Seq<Label>,
    steps: int,
) -> bool {
    exists|y: Seq<Label>| #[trigger] nears_output::<W>(out, tails, fst, x, y, steps)
}

/// Of every input an output is kept that is near the best, half a step for each symbol,
/// and no other.
pub open spec fn nears_best<W: RoundedWeights>(
    out: FstM<W::M>,
    tails: Set<int>,
    fst: FstM<W::M>,
    step: int,
) -> bool {
    forall|x: Seq<Label>| #[trigger] nears_best_of::<W>(out, tails, fst, x, x.len() * step)
}

proof fn lemma_nears_output<W: ExactDivision + RoundedOrder>(
    fst: FstM<W::M>,
    delta: W::Delta,
    max_states: Option<usize>,
    out: FstM<W::M>,
    tails: Set<int>,
    x: Seq<Label>,
)
    requires
        ({
            let r = det_compute::<GallicWeightMin<W>, GallicCommonDivisor>(
                to_gallic_model::<W, GallicWeightMin<W>>(fst),
                None,
                delta,
                max_states,
            ).1;
            r matches Ok(det) && relates_as_read::<W, GallicWeightMin<W>>(out, tails, det)
        }),
    ensures
        nears_best_of::<W>(out, tails, fst, x, x.len() * W::step(delta)),
{
    let g = to_gallic_model::<W, GallicWeightMin<W>>(fst);
    let (l, r) = det_compute::<GallicWeightMin<W>, GallicCommonDivisor>(
        g,
        None,
        delta,
        max_states,
    );
    let det = r->Ok_0;
    let best = weight_of::<W>(fst, x);
    let nothing = no_value::<W>();
    let steps = x.len() * W::step(delta);
    lemma_det_output::<GallicWeightMin<W>, GallicCommonDivisor>(g, None, delta, max_states);
    law_determinize_fsa_is_deterministic::<GallicWeightMin<W>, GallicCommonDivisor>(
        g,
        None,
        delta,
        max_states,
    );
    law_rounding_is_bounded::<GallicWeightMin<W>, GallicCommonDivisor>(
        g,
        None,
        delta,
        max_states,
        x,
    );
    assert forall|z: Seq<Label>| #[trigger]
        relation_with_tails::<W>(out, tails, x, z) == read::<W, GallicWeightMin<W>>(det, x)(z) by {
    }
    match det.start {
        None => {
            let y = Seq::<Label>::empty();
            assert(relation::<W>(fst, x, y) == best);
            assert(nears_output::<W>(out, tails, fst, x, y, steps));
        },
        Some(s0) => {
            let q = fst.start->0;
            lemma_weighs_from::<W>(fst, q, x);
            let y = lemma_one_output::<W>(det, s0, x);
            let v = weight_of::<GallicWeightMin<W>>(det, x);
            lemma_to_gallic_from::<W, GallicWeightMin<W>>(fst, q, x, y);
            lemma_accept_absorbs_read::<W>(g, q, x, y);
            let part = relation::<W>(fst, x, y);
            assert(W::sum(best, part) == best);
            assert(W::near(v, best, steps));
            if v == nothing {
                W::law_near_nothing(best, steps);
                W::law_sum_zero(part);
            } else {
                let near = lemma_det_writes_near::<W>(g, delta, max_states, s0, x, y, v);
                let pairs = l.op.table.tuples[s0 as int].pairs;
                let (i, t, u) = choose|i: int, t: Seq<Label>, u: W::V| #[trigger]
                    member_writes::<W>(g, pairs, x, y, near, i, t, u);
                let one = pairs[i].weight->0;
                assert(one.string + t =~= t);
                W::law_product_one(u);
                lemma_read_absorbs_path::<W>(g, q, x, y, near);
                W::law_near_between(v, best, part, near, steps);
            }
            assert(nears_output::<W>(out, tails, fst, x, y, steps));
        },
    }
}

/// Whatever the step, a transducer of which only the best output is asked for is turned
/// into one that is deterministic: it turns every input into one output, with a weight
/// that differs by no more than half a step for each symbol of the input from that of
/// the best path, and from that with which the given transducer writes this output. No
/// state has two transitions with the same input label, those aside that write what is
/// left of the output at the end, of which there is at most one at each state.
pub proof fn law_disambiguation_rounds_little<W: ExactDivision + RoundedOrder>(
    fst: FstM<W::M>,
    config: DeterminizeConfig<W::Delta>,
)
    requires
        !fst.properties.has(ACCEPTOR),
        config.det_type == DeterminizeType::DeterminizeDisambiguate,
        exact_step::<W>(W::Delta::kdelta_model()),
    ensures
        determinize_model::<W>(fst, config) matches Ok(out) ==> exists|tails: Set<int>| #[trigger]
            ends_in_tails(out, tails) && reads_deterministically(out, tails) && one_way_to_finish(
                out,
                tails,
            ) && nears_best::<W>(out, tails, fst, W::step(config.delta)),
{
    law_gallic_steps_are_exact::<W>(W::Delta::kdelta_model());
    if let Ok(out) = determinize_model::<W>(fst, config) {
        let via = determinized_states::<W>(fst, config)->Ok_0;
        let (delta, max_states) = (config.delta, config.max_states);
        let step = W::step(delta);
        lemma_via_reads::<W, GallicWeightMin<W>, GallicCommonDivisor>(fst, delta, max_states);
        let det = det_compute::<GallicWeightMin<W>, GallicCommonDivisor>(
            to_gallic_model::<W, GallicWeightMin<W>>(fst),
            None,
            delta,
            max_states,
        ).1->Ok_0;
        let tails = choose|tails: Set<int>| #[trigger]
            ends_in_tails(via, tails) && reads_deterministically(via, tails) && relates_as_read::<
                W,
                GallicWeightMin<W>,
            >(via, tails, det) && one_way_to_finish(via, tails);
        assert(ends_in_tails(via, tails) && reads_deterministically(via, tails)
            && relates_as_read::<W, GallicWeightMin<W>>(via, tails, det) && one_way_to_finish(
            via,
            tails,
        ));
        assert forall|x: Seq<Label>| #[trigger]
            nears_best_of::<W>(out, tails, fst, x, x.len() * step) by {
            lemma_nears_output::<W>(fst, delta, max_states, via, tails, x);
            let y = choose|y: Seq<Label>| #[trigger]
                nears_output::<W>(via, tails, fst, x, y, x.len() * step);
            assert forall|z: Seq<Label>| #[trigger]
                relation_with_tails::<W>(out, tails, x, z) == relation_with_tails::<W>(
                    via,
                    tails,
                    x,
                    z,
                ) by {
                if let Some(q) = out.start {
                    lemma_relate_from_states::<W>(out, via, tails, q, x, z);
                }
            }
            assert(nears_output::<W>(out, tails, fst, x, y, x.len() * step));
        }
        assert(ends_in_tails(out, tails));
    }
}

} // verus!
