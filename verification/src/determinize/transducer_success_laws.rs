//! When the determinization of a transducer succeeds.

use crate::determinize::determinize_fsa::{det_begin, det_compute};
use crate::determinize::determinize_fsa_op::{final_or_zero, DeterminizeFsaOp};
use crate::determinize::determinize_static::{
    determinize_model, determinize_via_model, DeterminizeConfig, DeterminizeType,
};
use crate::determinize::divisors::{
    list_divisor, CommonDivisor, DefaultCommonDivisor, GallicCommonDivisor,
};
use crate::determinize::laws::{law_determinize_fsa_is_deterministic, lemma_det_expansion};
use crate::determinize::success_laws::{
    divides_itself, is_final_weight, is_tr_weight, law_simple_automaton_determinizes,
    simple_automaton,
};
use crate::error::FstError;
use crate::factor_success_laws::{
    clean_list, clean_option, law_factoring_succeeds, law_strings_split_cleanly, no_empty_label,
    ready, splits_cleanly,
};
use crate::fst::properties::{ACCEPTOR, NULL_PROPERTIES};
use crate::fst::tr::{Label, EPS_LABEL, NO_STATE_ID};
use crate::fst::vector_fst::FstM;
use crate::lazy::laws::{closed_machine, law_output_keeps_bounds};
use crate::lazy::null_cache::NullCache;
use crate::semirings::gallic::{
    first_of, label_item, label_string, GallicWeightMin, GallicWeightRestrict, ItemM,
};
use crate::semirings::gallic_results::{law_gallic_products, law_gallic_quotients};
use crate::semirings::gallic_union::{list_quantize, GallicWeight};
use crate::semirings::semiring::{
    DivideType, QuantizationStep, Semiring, WeaklyDivisibleSemiring, WeightQuantize, IDEMPOTENT,
    LEFT_SEMIRING, PATH, RIGHT_SEMIRING,
};
use crate::weight_convert::{plain_tr, to_gallic_model, Gallic};
use vstd::prelude::*;

verus! {

/// No state has two transitions with the same input label; every weight of a transition
/// divides itself; and one and zero go with all weights as they should.
pub open spec fn simple_transducer<W: WeaklyDivisibleSemiring + WeightQuantize>(
    fst: FstM<W::M>,
    delta: W::Delta,
) -> bool {
    &&& simple_automaton::<W, DefaultCommonDivisor>(fst, delta)
    &&& W::plus_model(W::zero_model(), W::zero_model()) == Ok::<W::M, FstError>(W::zero_model())
    &&& W::quantize_model(W::one_model(), W::Delta::kdelta_model()) == Ok::<W::M, FstError>(
        W::one_model(),
    )
}

proof fn lemma_label_item<W: WeaklyDivisibleSemiring + WeightQuantize>(
    label: Label,
    w: W::M,
    delta: W::Delta,
)
    requires
        divides_itself::<W, DefaultCommonDivisor>(w, delta),
    ensures
        divides_itself::<GallicWeightRestrict<W>, GallicCommonDivisor>(
            GallicWeightRestrict::<W>::of_label_model(label, w),
            delta,
        ),
        divides_itself::<GallicWeightMin<W>, GallicCommonDivisor>(
            GallicWeightMin::<W>::of_label_model(label, w),
            delta,
        ),
        divides_itself::<GallicWeight<W>, GallicCommonDivisor>(
            GallicWeight::<W>::of_label_model(label, w),
            delta,
        ),
{
    let item = label_item(label, w);
    let empty = Seq::<Label>::empty();
    let one = ItemM { string: empty, weight: W::one_model() };
    let list = seq![item];
    assert(empty + item.string =~= item.string);
    assert(item.string + empty =~= item.string);
    assert(first_of(item.string) =~= item.string);
    law_gallic_products::<W>(one, item, None);
    law_gallic_quotients::<W>(item.string, empty, w, w, DivideType::DivideLeft);
    reveal_with_fuel(list_divisor, 2);
    let both = Seq::<ItemM<W::M>>::empty() + list;
    assert(both =~= list);
    assert(list.drop_last() =~= Seq::empty());
    assert(list.last() == item);
    reveal_with_fuel(list_quantize, 2);
    assert(seq![one].drop_last() =~= Seq::empty());
    assert(seq![one].last() == one);
    assert(list_quantize::<W>(seq![one], delta)->Ok_0 =~= seq![one]);
}

proof fn lemma_end_item<W: WeaklyDivisibleSemiring + WeightQuantize>(w: W::M)
    requires
        W::times_model(W::one_model(), w) == Ok::<W::M, FstError>(w),
        W::plus_model(W::zero_model(), w) == Ok::<W::M, FstError>(w),
    ensures
        ({
            let item = label_item(EPS_LABEL, w);
            let one = ItemM { string: Seq::<Label>::empty(), weight: W::one_model() };
            &&& GallicWeightRestrict::<W>::times_model(Some(one), Some(item)) == Ok::<
                Option<ItemM<W::M>>,
                FstError,
            >(Some(item))
            &&& GallicWeightMin::<W>::times_model(Some(one), Some(item)) == Ok::<
                Option<ItemM<W::M>>,
                FstError,
            >(Some(item))
            &&& GallicWeight::<W>::times_model(seq![one], seq![item]) == Ok::<
                Seq<ItemM<W::M>>,
                FstError,
            >(seq![item])
            &&& GallicWeightMin::<W>::plus_model(None, Some(item)) == Ok::<
                Option<ItemM<W::M>>,
                FstError,
            >(Some(item))
        }),
{
    let item = label_item(EPS_LABEL, w);
    let empty = Seq::<Label>::empty();
    let one = ItemM { string: empty, weight: W::one_model() };
    assert(empty + item.string =~= item.string);
    law_gallic_products::<W>(one, item, None);
}

proof fn lemma_simple_automata<W: WeaklyDivisibleSemiring + WeightQuantize>(
    fst: FstM<W::M>,
    delta: W::Delta,
)
    requires
        closed_machine(fst),
        simple_transducer::<W>(fst, delta),
    ensures
        simple_automaton::<GallicWeightRestrict<W>, GallicCommonDivisor>(
            to_gallic_model::<W, GallicWeightRestrict<W>>(fst),
            delta,
        ),
        simple_automaton::<GallicWeightMin<W>, GallicCommonDivisor>(
            to_gallic_model::<W, GallicWeightMin<W>>(fst),
            delta,
        ),
        simple_automaton::<GallicWeight<W>, GallicCommonDivisor>(
            to_gallic_model::<W, GallicWeight<W>>(fst),
            delta,
        ),
        closed_machine(to_gallic_model::<W, GallicWeightRestrict<W>>(fst)),
        closed_machine(to_gallic_model::<W, GallicWeightMin<W>>(fst)),
        closed_machine(to_gallic_model::<W, GallicWeight<W>>(fst)),
{
    let a = to_gallic_model::<W, GallicWeightRestrict<W>>(fst);
    let b = to_gallic_model::<W, GallicWeightMin<W>>(fst);
    let c = to_gallic_model::<W, GallicWeight<W>>(fst);
    assert forall|v: int, j: int|
        0 <= v < a.states.len() && 0 <= j < a.states[v].trs.len() implies (
    #[trigger] a.states[v].trs[j]).ilabel == fst.states[v].trs[j].ilabel && a.states[v].trs[j].nextstate
        < a.states.len() && divides_itself::<GallicWeightRestrict<W>, GallicCommonDivisor>(
        a.states[v].trs[j].weight,
        delta,
    ) by {
        let tr = fst.states[v].trs[j];
        lemma_label_item::<W>(tr.olabel, tr.weight, delta);
    }
    assert forall|v: int, j: int|
        0 <= v < b.states.len() && 0 <= j < b.states[v].trs.len() implies (
    #[trigger] b.states[v].trs[j]).ilabel == fst.states[v].trs[j].ilabel && b.states[v].trs[j].nextstate
        < b.states.len() && divides_itself::<GallicWeightMin<W>, GallicCommonDivisor>(
        b.states[v].trs[j].weight,
        delta,
    ) by {
        let tr = fst.states[v].trs[j];
        lemma_label_item::<W>(tr.olabel, tr.weight, delta);
    }
    assert forall|v: int, j: int|
        0 <= v < c.states.len() && 0 <= j < c.states[v].trs.len() implies (
    #[trigger] c.states[v].trs[j]).ilabel == fst.states[v].trs[j].ilabel && c.states[v].trs[j].nextstate
        < c.states.len() && divides_itself::<GallicWeight<W>, GallicCommonDivisor>(
        c.states[v].trs[j].weight,
        delta,
    ) by {
        let tr = fst.states[v].trs[j];
        lemma_label_item::<W>(tr.olabel, tr.weight, delta);
    }
    assert forall|v: int, i: int, j: int|
        0 <= v < fst.states.len() && 0 <= i < j < fst.states[v].trs.len() implies (
    #[trigger] fst.states[v].trs[i]).ilabel != (#[trigger] fst.states[v].trs[j]).ilabel by {}
    assert forall|v: int| 0 <= v < a.states.len() implies {
        let w = final_or_zero::<GallicWeightRestrict<W>>((#[trigger] a.states[v]).final_weight);
        &&& GallicWeightRestrict::<W>::times_model(GallicWeightRestrict::<W>::one_model(), w)
            == Ok::<Option<ItemM<W::M>>, FstError>(w)
        &&& GallicWeightRestrict::<W>::plus_model(GallicWeightRestrict::<W>::zero_model(), w)
            == Ok::<Option<ItemM<W::M>>, FstError>(w)
    } by {
        if let Some(w) = fst.states[v].final_weight {
            lemma_end_item::<W>(w);
        }
    }
    assert forall|v: int| 0 <= v < b.states.len() implies {
        let w = final_or_zero::<GallicWeightMin<W>>((#[trigger] b.states[v]).final_weight);
        &&& GallicWeightMin::<W>::times_model(GallicWeightMin::<W>::one_model(), w) == Ok::<
            Option<ItemM<W::M>>,
            FstError,
        >(w)
        &&& GallicWeightMin::<W>::plus_model(GallicWeightMin::<W>::zero_model(), w) == Ok::<
            Option<ItemM<W::M>>,
            FstError,
        >(w)
    } by {
        if let Some(w) = fst.states[v].final_weight {
            lemma_end_item::<W>(w);
        }
    }
    assert forall|v: int| 0 <= v < c.states.len() implies {
        let w = final_or_zero::<GallicWeight<W>>((#[trigger] c.states[v]).final_weight);
        &&& GallicWeight::<W>::times_model(GallicWeight::<W>::one_model(), w) == Ok::<
            Seq<ItemM<W::M>>,
            FstError,
        >(w)
        &&& GallicWeight::<W>::plus_model(GallicWeight::<W>::zero_model(), w) == Ok::<
            Seq<ItemM<W::M>>,
            FstError,
        >(w)
    } by {
        if let Some(w) = fst.states[v].final_weight {
            lemma_end_item::<W>(w);
        }
    }
}

/// From the determinized automaton on nothing fails but for want of ids.
proof fn lemma_simple_via<
    W: WeaklyDivisibleSemiring + WeightQuantize,
    G: Gallic<W> + WeaklyDivisibleSemiring + WeightQuantize,
    CD: CommonDivisor<G>,
>(
    fst: FstM<W::M>,
    delta: G::Delta,
    max_states: Option<usize>,
    clean: spec_fn(G::M) -> bool,
)
    requires
        closed_machine(to_gallic_model::<W, G>(fst)),
        simple_automaton::<G, CD>(to_gallic_model::<W, G>(fst), delta),
        splits_cleanly::<W, G>(clean, G::Delta::kdelta_model()),
        G::properties_model().has(LEFT_SEMIRING),
        to_gallic_model::<W, G>(fst).properties.has(ACCEPTOR),
        fst.states.len() + 1 < NO_STATE_ID,
        max_states matches Some(bound) ==> fst.states.len() < bound,
        forall|label: Label, w: W::M|
            G::extract_model(#[trigger] G::of_label_model(label, w)) is Ok,
        forall|w: W::M| clean(#[trigger] G::of_label_model(EPS_LABEL, w)),
    ensures
        determinize_via_model::<W, G, CD>(fst, delta, max_states) matches Err(e) ==> e
            == FstError::TooManyStates,
{
    let a = to_gallic_model::<W, G>(fst);
    law_simple_automaton_determinizes::<G, CD>(a, None, delta, max_states);
    let out = det_compute::<G, CD>(a, None, delta, max_states).1->Ok_0;
    law_determinize_fsa_is_deterministic::<G, CD>(a, None, delta, max_states);
    let begin = det_begin::<G>(a, None, delta);
    lemma_det_expansion::<G, CD>(begin.op);
    law_output_keeps_bounds::<G, DeterminizeFsaOp<'_, G, CD>, NullCache<G>>(
        begin,
        a.isymt,
        a.osymt,
        max_states,
        None,
    );
    assert(ready::<W, G>(out, clean)) by {
        assert forall|v: int, j: int|
            0 <= v < out.states.len() && 0 <= j < out.states[v].trs.len() implies plain_tr::<W, G>(
            #[trigger] out.states[v].trs[j],
        ) && G::times_model(G::one_model(), out.states[v].trs[j].weight) == Ok::<G::M, FstError>(
            out.states[v].trs[j].weight,
        ) by {
            let w = out.states[v].trs[j].weight;
            assert(is_tr_weight(a, w));
            let (u, i) = choose|u: int, i: int|
                0 <= u < a.states.len() && 0 <= i < a.states[u].trs.len() && (
                #[trigger] a.states[u].trs[i]).weight == w;
            assert(divides_itself::<G, CD>(a.states[u].trs[i].weight, delta));
            let tr = fst.states[u].trs[i];
            assert(w == G::of_label_model(tr.olabel, tr.weight));
        }
        assert forall|v: int| 0 <= v < out.states.len() implies match (
        #[trigger] out.states[v]).final_weight {
            Some(w) => clean(w) && G::times_model(G::one_model(), w) == Ok::<G::M, FstError>(w),
            None => true,
        } by {
            if let Some(w) = out.states[v].final_weight {
                assert(is_final_weight(a, w));
                let u = choose|u: int|
                    0 <= u < a.states.len() && (#[trigger] a.states[u]).final_weight == Some(w);
                assert(final_or_zero::<G>(a.states[u].final_weight) == w);
                let f = fst.states[u].final_weight->0;
                assert(w == G::of_label_model(EPS_LABEL, f));
            }
        }
    }
    law_factoring_succeeds::<W, G>(out, G::Delta::kdelta_model(), clean);
}

proof fn lemma_left_bits(bits: u32)
    by (bit_vector)
    requires
        bits & LEFT_SEMIRING == LEFT_SEMIRING,
    ensures
        (bits & (LEFT_SEMIRING | RIGHT_SEMIRING | IDEMPOTENT)) & LEFT_SEMIRING == LEFT_SEMIRING,
        NULL_PROPERTIES & ACCEPTOR == ACCEPTOR,
        ACCEPTOR & ACCEPTOR == ACCEPTOR,
{
}

/// A transducer in which no state has two transitions with the same input label, and whose
/// weights divide themselves, can be determinized in every way that its weights allow, with
/// a bound of one state more too, unless there are no ids left for what it writes at the
/// end.
pub proof fn law_simple_transducer_determinizes<W: WeaklyDivisibleSemiring + WeightQuantize>(
    fst: FstM<W::M>,
    config: DeterminizeConfig<W::Delta>,
)
    requires
        !fst.properties.has(ACCEPTOR),
        W::properties_model().has(LEFT_SEMIRING),
        config.det_type == DeterminizeType::DeterminizeDisambiguate ==> W::properties_model().has(
            PATH,
        ),
        closed_machine(fst),
        simple_transducer::<W>(fst, config.delta),
        fst.states.len() + 1 < NO_STATE_ID,
        config.max_states matches Some(bound) ==> fst.states.len() < bound,
    ensures
        determinize_model::<W>(fst, config) matches Err(e) ==> e == FstError::TooManyStates,
{
    let (delta, bound) = (config.delta, config.max_states);
    lemma_simple_automata::<W>(fst, delta);
    law_strings_split_cleanly::<W>(W::Delta::kdelta_model());
    lemma_left_bits(W::properties_model().bits);
    match config.det_type {
        DeterminizeType::DeterminizeDisambiguate => {
            lemma_simple_via::<W, GallicWeightMin<W>, GallicCommonDivisor>(
                fst,
                delta,
                bound,
                clean_option::<W::M>(),
            );
        },
        DeterminizeType::DeterminizeFunctional => {
            lemma_simple_via::<W, GallicWeightRestrict<W>, GallicCommonDivisor>(
                fst,
                delta,
                bound,
                clean_option::<W::M>(),
            );
        },
        DeterminizeType::DeterminizeNonFunctional => {
            assert forall|w: W::M|
                clean_list::<W::M>()(#[trigger] GallicWeight::<W>::of_label_model(EPS_LABEL, w)) by {
                assert(no_empty_label(label_string(EPS_LABEL)));
            }
            lemma_simple_via::<W, GallicWeight<W>, GallicCommonDivisor>(
                fst,
                delta,
                bound,
                clean_list::<W::M>(),
            );
        },
    }
}

} // verus!
