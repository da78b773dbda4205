//! What holds of the determinization of every machine.

use crate::determinize::determinize_static::{
    determinize_fsa_model, determinize_model, determinized_states, DeterminizeConfig,
    DeterminizeType,
};
use crate::determinize::disambiguation_laws::{
    keeps_best, keeps_best_of, keeps_output, law_disambiguation_keeps_best_outputs,
};
use crate::determinize::divisors::{CommonDivisor, DefaultCommonDivisor, GallicCommonDivisor};
use crate::determinize::laws::{
    accept_by, accept_from, deterministic, law_determinize_fsa_bound_decides,
    law_determinize_fsa_bound_is_harmless, law_determinize_fsa_is_deterministic,
    law_determinize_fsa_is_equivalent, lemma_det_output_size, weight_of,
};
use crate::determinize::transducer_laws::{
    ends_in_tails, finish_by, finish_from, functional, law_determinized_transducer_is_functional,
    law_functional_determinization_is_equivalent, law_nonfunctional_determinization_is_equivalent,
    one_way_to_finish, reads_deterministically, relate_with_tails_by, relate_with_tails_from,
    relation, relation_with_tails, same_relation,
};
use crate::error::FstError;
use crate::fst::properties::ACCEPTOR;
use crate::fst::tr::{Label, StateId, TrM};
use crate::fst::vector_fst::FstM;
use crate::semirings::gallic::{label_string, GallicWeightMin, GallicWeightRestrict};
use crate::semirings::gallic_union::GallicWeight;
use crate::semirings::laws::{exact_step, ExactDivision, SelectiveSum, SemiringLaws};
use crate::semirings::semiring::{QuantizationStep, WeaklyDivisibleSemiring, WeightQuantize, PATH};
use crate::semirings::series::no_value;
use crate::weight_convert::{to_gallic_model, Gallic};
use vstd::prelude::*;

verus! {

/// What a machine accepts depends on its states alone.
pub proof fn lemma_accept_from_states<W: SemiringLaws>(
    a: FstM<W::M>,
    b: FstM<W::M>,
    q: StateId,
    string: Seq<Label>,
)
    requires
        a.states == b.states,
    ensures
        accept_from::<W>(a, q, string) == accept_from::<W>(b, q, string),
    decreases string.len(), 1int, 0int,
{
    if a.has_state(q) && string.len() > 0 {
        lemma_accept_by_states::<W>(a, b, a.states[q as int].trs, string);
    }
}

proof fn lemma_accept_by_states<W: SemiringLaws>(
    a: FstM<W::M>,
    b: FstM<W::M>,
    trs: Seq<TrM<W::M>>,
    string: Seq<Label>,
)
    requires
        a.states == b.states,
    ensures
        accept_by::<W>(a, trs, string) == accept_by::<W>(b, trs, string),
    decreases string.len(), 0int, trs.len(),
{
    if trs.len() > 0 && string.len() > 0 {
        lemma_accept_by_states::<W>(a, b, trs.drop_last(), string);
        lemma_accept_from_states::<W>(a, b, trs.last().nextstate, string.drop_first());
    }
}

/// What a machine finishes with depends on its states alone.
proof fn lemma_finish_from_states<W: SemiringLaws>(
    a: FstM<W::M>,
    b: FstM<W::M>,
    tails: Set<int>,
    q: StateId,
    y: Seq<Label>,
    n: nat,
)
    requires
        a.states == b.states,
    ensures
        finish_from::<W>(a, tails, q, y, n) == finish_from::<W>(b, tails, q, y, n),
    decreases n, 1int, 0int,
{
    if a.has_state(q) && n > 0 {
        lemma_finish_by_states::<W>(a, b, tails, a.states[q as int].trs, y, n);
    }
}

proof fn lemma_finish_by_states<W: SemiringLaws>(
    a: FstM<W::M>,
    b: FstM<W::M>,
    tails: Set<int>,
    trs: Seq<TrM<W::M>>,
    y: Seq<Label>,
    n: nat,
)
    requires
        a.states == b.states,
    ensures
        finish_by::<W>(a, tails, trs, y, n) == finish_by::<W>(b, tails, trs, y, n),
    decreases n, 0int, trs.len(),
{
    if trs.len() > 0 && n > 0 {
        lemma_finish_by_states::<W>(a, b, tails, trs.drop_last(), y, n);
        let written = label_string(trs.last().olabel);
        lemma_finish_from_states::<W>(
            a,
            b,
            tails,
            trs.last().nextstate,
            y.skip(written.len() as int),
            (n - 1) as nat,
        );
    }
}

/// What a machine relates depends on its states alone.
pub proof fn lemma_relate_from_states<W: SemiringLaws>(
    a: FstM<W::M>,
    b: FstM<W::M>,
    tails: Set<int>,
    q: StateId,
    x: Seq<Label>,
    y: Seq<Label>,
)
    requires
        a.states == b.states,
    ensures
        relate_with_tails_from::<W>(a, tails, q, x, y) == relate_with_tails_from::<W>(
            b,
            tails,
            q,
            x,
            y,
        ),
    decreases x.len(), 1int, 0int,
{
    if x.len() == 0 {
        lemma_finish_from_states::<W>(a, b, tails, q, y, y.len() + 1);
    } else if a.has_state(q) {
        lemma_relate_by_states::<W>(a, b, tails, a.states[q as int].trs, x, y);
    }
}

proof fn lemma_relate_by_states<W: SemiringLaws>(
    a: FstM<W::M>,
    b: FstM<W::M>,
    tails: Set<int>,
    trs: Seq<TrM<W::M>>,
    x: Seq<Label>,
    y: Seq<Label>,
)
    requires
        a.states == b.states,
    ensures
        relate_with_tails_by::<W>(a, tails, trs, x, y) == relate_with_tails_by::<W>(
            b,
            tails,
            trs,
            x,
            y,
        ),
    decreases x.len(), 0int, trs.len(),
{
    if trs.len() > 0 && x.len() > 0 {
        lemma_relate_by_states::<W>(a, b, tails, trs.drop_last(), x, y);
        let written = label_string(trs.last().olabel);
        lemma_relate_from_states::<W>(
            a,
            b,
            tails,
            trs.last().nextstate,
            x.drop_first(),
            y.skip(written.len() as int),
        );
    }
}

/// The determinization of an acceptor is an equivalent machine in which no state
/// has two transitions with the same input label, as long as rounding does not
/// change weights.
pub proof fn law_determinize_acceptor_is_equivalent<W: ExactDivision>(
    fst: FstM<W::M>,
    config: DeterminizeConfig<W::Delta>,
    string: Seq<Label>,
)
    requires
        fst.properties.has(ACCEPTOR),
        exact_step::<W>(config.delta),
    ensures
        determinize_model::<W>(fst, config) matches Ok(out) ==> weight_of::<W>(out, string)
            == weight_of::<W>(fst, string),
{
    if let Ok(out) = determinize_model::<W>(fst, config) {
        let det = determinized_states::<W>(fst, config)->Ok_0;
        law_determinize_fsa_is_equivalent::<W, DefaultCommonDivisor>(
            fst,
            None,
            config.delta,
            config.max_states,
            string,
        );
        if let Some(q) = out.start {
            lemma_accept_from_states::<W>(out, det, q, string);
        }
    }
}

/// In the determinization of an acceptor no state has two transitions with the same
/// input label, and the transitions of a state are sorted by label.
pub proof fn law_determinize_acceptor_is_deterministic<
    W: WeaklyDivisibleSemiring + WeightQuantize,
>(fst: FstM<W::M>, config: DeterminizeConfig<W::Delta>)
    requires
        fst.properties.has(ACCEPTOR),
    ensures
        determinize_model::<W>(fst, config) matches Ok(out) ==> deterministic(out),
{
    law_determinize_fsa_is_deterministic::<W, DefaultCommonDivisor>(
        fst,
        None,
        config.delta,
        config.max_states,
    );
}

/// The determinization of a transducer whose outputs are all kept is an equivalent
/// machine: it turns every input into the same outputs with the same weights, and
/// no state has two transitions with the same input label, those aside that write
/// what is left of the output at the end. Of a functional transducer there is at
/// most one of these at each state. Rounding must not change weights.
pub proof fn law_determinize_transducer_is_equivalent<W: ExactDivision>(
    fst: FstM<W::M>,
    config: DeterminizeConfig<W::Delta>,
)
    requires
        !fst.properties.has(ACCEPTOR),
        config.det_type != DeterminizeType::DeterminizeDisambiguate,
        exact_step::<W>(config.delta),
        exact_step::<W>(W::Delta::kdelta_model()),
    ensures
        determinize_model::<W>(fst, config) matches Ok(out) ==> exists|tails: Set<int>| #[trigger]
            ends_in_tails(out, tails) && reads_deterministically(out, tails) && same_relation::<W>(
                out,
                tails,
                fst,
            ) && (config.det_type == DeterminizeType::DeterminizeFunctional ==> one_way_to_finish(
                out,
                tails,
            )),
{
    if let Ok(out) = determinize_model::<W>(fst, config) {
        let det = determinized_states::<W>(fst, config)->Ok_0;
        law_functional_determinization_is_equivalent::<W>(fst, config.delta, config.max_states);
        law_nonfunctional_determinization_is_equivalent::<W>(fst, config.delta, config.max_states);
        let functional = config.det_type == DeterminizeType::DeterminizeFunctional;
        let tails = choose|tails: Set<int>| #[trigger]
            ends_in_tails(det, tails) && reads_deterministically(det, tails) && same_relation::<W>(
                det,
                tails,
                fst,
            ) && (functional ==> one_way_to_finish(det, tails));
        assert(ends_in_tails(det, tails) && reads_deterministically(det, tails) && same_relation::<
            W,
        >(det, tails, fst) && (functional ==> one_way_to_finish(det, tails)));
        assert forall|x: Seq<Label>, y: Seq<Label>|
            #[trigger] relation_with_tails::<W>(out, tails, x, y) == relation::<W>(fst, x, y) by {
            assert(relation_with_tails::<W>(det, tails, x, y) == relation::<W>(fst, x, y));
            if let Some(q) = out.start {
                lemma_relate_from_states::<W>(out, det, tails, q, x, y);
            }
        }
        assert(ends_in_tails(out, tails));
    }
}

/// When a transducer is said to be functional and its determinization succeeds, it is
/// functional. Rounding must not change weights.
pub proof fn law_determinize_rejects_what_is_not_functional<W: ExactDivision>(
    fst: FstM<W::M>,
    config: DeterminizeConfig<W::Delta>,
)
    requires
        !fst.properties.has(ACCEPTOR),
        config.det_type == DeterminizeType::DeterminizeFunctional,
        exact_step::<W>(config.delta),
        exact_step::<W>(W::Delta::kdelta_model()),
    ensures
        determinize_model::<W>(fst, config) is Ok ==> functional::<W>(fst),
{
    if determinize_model::<W>(fst, config) is Ok {
        law_determinized_transducer_is_functional::<W>(fst, config.delta, config.max_states);
    }
}

/// The determinization of a transducer of which only the best output is asked for turns
/// every input into one output, a best one of the transducer, with its weight. No state
/// has two transitions with the same input label, and there is one way to write what is
/// left of the output at the end. Rounding must not change weights.
pub proof fn law_determinize_disambiguates<W: ExactDivision + SelectiveSum>(
    fst: FstM<W::M>,
    config: DeterminizeConfig<W::Delta>,
)
    requires
        !fst.properties.has(ACCEPTOR),
        config.det_type == DeterminizeType::DeterminizeDisambiguate,
        exact_step::<W>(config.delta),
        exact_step::<W>(W::Delta::kdelta_model()),
    ensures
        determinize_model::<W>(fst, config) matches Ok(out) ==> exists|tails: Set<int>| #[trigger]
            ends_in_tails(out, tails) && reads_deterministically(out, tails) && one_way_to_finish(
                out,
                tails,
            ) && keeps_best::<W>(out, tails, fst),
{
    if let Ok(out) = determinize_model::<W>(fst, config) {
        let det = determinized_states::<W>(fst, config)->Ok_0;
        law_disambiguation_keeps_best_outputs::<W>(fst, config.delta, config.max_states);
        let tails = choose|tails: Set<int>| #[trigger]
            ends_in_tails(det, tails) && reads_deterministically(det, tails) && one_way_to_finish(
                det,
                tails,
            ) && keeps_best::<W>(det, tails, fst);
        assert(ends_in_tails(det, tails) && reads_deterministically(det, tails)
            && one_way_to_finish(det, tails) && keeps_best::<W>(det, tails, fst));
        assert forall|x: Seq<Label>| #[trigger] keeps_best_of::<W>(out, tails, fst, x) by {
            assert(keeps_best_of::<W>(det, tails, fst, x));
            let y = choose|y: Seq<Label>| #[trigger] keeps_output::<W>(det, tails, fst, x, y);
            assert forall|z: Seq<Label>| #[trigger]
                relation_with_tails::<W>(out, tails, x, z) == (if z == y {
                    weight_of::<W>(fst, x)
                } else {
                    no_value::<W>()
                }) by {
                assert(relation_with_tails::<W>(det, tails, x, z) == (if z == y {
                    weight_of::<W>(fst, x)
                } else {
                    no_value::<W>()
                }));
                if let Some(q) = out.start {
                    lemma_relate_from_states::<W>(out, det, tails, q, x, z);
                }
            }
            assert(keeps_output::<W>(out, tails, fst, x, y));
        }
        assert(keeps_best::<W>(out, tails, fst));
        assert(ends_in_tails(out, tails));
    }
}

/// A bound on the number of states that is not exceeded changes nothing: with it
/// the same machine comes out as without.
pub proof fn law_determinize_bound_is_harmless<W: WeaklyDivisibleSemiring + WeightQuantize>(
    fst: FstM<W::M>,
    config: DeterminizeConfig<W::Delta>,
)
    requires
        determinize_model::<W>(fst, config) is Ok,
    ensures
        determinize_model::<W>(fst, DeterminizeConfig { max_states: None, ..config })
            == determinize_model::<W>(fst, config),
{
    let (delta, bound) = (config.delta, config.max_states);
    if fst.properties.has(ACCEPTOR) {
        law_determinize_fsa_bound_is_harmless::<W, DefaultCommonDivisor>(fst, None, delta, bound);
    } else {
        match config.det_type {
            DeterminizeType::DeterminizeDisambiguate => {
                law_determinize_fsa_bound_is_harmless::<GallicWeightMin<W>, GallicCommonDivisor>(
                    to_gallic_model::<W, GallicWeightMin<W>>(fst),
                    None,
                    delta,
                    bound,
                );
            },
            DeterminizeType::DeterminizeFunctional => {
                law_determinize_fsa_bound_is_harmless::<
                    GallicWeightRestrict<W>,
                    GallicCommonDivisor,
                >(to_gallic_model::<W, GallicWeightRestrict<W>>(fst), None, delta, bound);
            },
            DeterminizeType::DeterminizeNonFunctional => {
                law_determinize_fsa_bound_is_harmless::<GallicWeight<W>, GallicCommonDivisor>(
                    to_gallic_model::<W, GallicWeight<W>>(fst),
                    None,
                    delta,
                    bound,
                );
            },
        }
    }
}

/// What comes out of the determinization of an acceptor keeps the bound on the
/// number of states.
pub proof fn law_determinize_acceptor_keeps_bound<W: WeaklyDivisibleSemiring + WeightQuantize>(
    fst: FstM<W::M>,
    config: DeterminizeConfig<W::Delta>,
    bound: usize,
)
    requires
        fst.properties.has(ACCEPTOR),
        config.max_states == Some(bound),
    ensures
        determinize_model::<W>(fst, config) matches Ok(out) ==> out.states.len() <= bound,
{
    lemma_det_output_size::<W, DefaultCommonDivisor>(fst, config.delta, config.max_states);
}

/// The bound on the number of states of a determinized acceptor decides exactly: if
/// without it a machine comes out, the same comes out with it, unless that has more states
/// than allowed; then determinization ends with an error that names the bound.
pub proof fn law_determinize_acceptor_bound_decides<W: WeaklyDivisibleSemiring + WeightQuantize>(
    fst: FstM<W::M>,
    config: DeterminizeConfig<W::Delta>,
    bound: usize,
)
    requires
        fst.properties.has(ACCEPTOR),
        config.max_states == Some(bound),
    ensures
        ({
            let exceeded = Err::<FstM<W::M>, FstError>(
                FstError::StateBudgetExceeded { limit: bound },
            );
            let bounded = determinize_model::<W>(fst, config);
            match determinize_model::<W>(fst, DeterminizeConfig { max_states: None, ..config }) {
                Ok(out) => if out.states.len() <= bound {
                    bounded == Ok::<FstM<W::M>, FstError>(out)
                } else {
                    bounded == exceeded
                },
                Err(e) => bounded == Err::<FstM<W::M>, FstError>(e) || bounded == exceeded,
            }
        }),
{
    law_determinize_fsa_bound_decides::<W, DefaultCommonDivisor>(fst, config.delta, bound);
}

/// How many states the determinized automaton has whose weights carry the output.
pub open spec fn carrier_size<
    W: WeaklyDivisibleSemiring + WeightQuantize,
    G: Gallic<W> + WeaklyDivisibleSemiring + WeightQuantize,
    CD: CommonDivisor<G>,
>(fst: FstM<W::M>, delta: G::Delta) -> Result<nat, FstError> {
    match determinize_fsa_model::<G, CD>(to_gallic_model::<W, G>(fst), delta, None) {
        Ok(out) => Ok(out.states.len()),
        Err(e) => Err(e),
    }
}

/// How many states the determinized automaton of a transducer has whose weights carry the
/// output.
pub open spec fn automaton_size<W: WeaklyDivisibleSemiring + WeightQuantize>(
    fst: FstM<W::M>,
    config: DeterminizeConfig<W::Delta>,
) -> Result<nat, FstError> {
    match config.det_type {
        DeterminizeType::DeterminizeDisambiguate => carrier_size::<
            W,
            GallicWeightMin<W>,
            GallicCommonDivisor,
        >(fst, config.delta),
        DeterminizeType::DeterminizeFunctional => carrier_size::<
            W,
            GallicWeightRestrict<W>,
            GallicCommonDivisor,
        >(fst, config.delta),
        DeterminizeType::DeterminizeNonFunctional => carrier_size::<
            W,
            GallicWeight<W>,
            GallicCommonDivisor,
        >(fst, config.delta),
    }
}

/// The bound on the number of states of a determinized transducer holds of the automaton
/// whose weights carry the output, and decides exactly: determinization succeeds only if
/// that has at most so many states, and is then the same as without the bound. If it has
/// more, determinization ends with an error that names the bound. If there is no such
/// automaton, it fails for the same reason or because the bound is exceeded before.
pub proof fn law_determinize_transducer_bound_decides<
    W: WeaklyDivisibleSemiring + WeightQuantize,
>(fst: FstM<W::M>, config: DeterminizeConfig<W::Delta>, bound: usize)
    requires
        !fst.properties.has(ACCEPTOR),
        config.max_states == Some(bound),
        config.det_type == DeterminizeType::DeterminizeDisambiguate ==> W::properties_model().has(
            PATH,
        ),
    ensures
        ({
            let exceeded = Err::<FstM<W::M>, FstError>(
                FstError::StateBudgetExceeded { limit: bound },
            );
            let bounded = determinize_model::<W>(fst, config);
            match automaton_size::<W>(fst, config) {
                Ok(n) => if n <= bound {
                    bounded == determinize_model::<W>(
                        fst,
                        DeterminizeConfig { max_states: None, ..config },
                    )
                } else {
                    bounded == exceeded
                },
                Err(e) => bounded == Err::<FstM<W::M>, FstError>(e) || bounded == exceeded,
            }
        }),
        determinize_model::<W>(fst, config) is Ok ==> automaton_size::<W>(fst, config) is Ok
            && automaton_size::<W>(fst, config)->Ok_0 <= bound,
{
    let delta = config.delta;
    match config.det_type {
        DeterminizeType::DeterminizeDisambiguate => {
            law_determinize_fsa_bound_decides::<GallicWeightMin<W>, GallicCommonDivisor>(
                to_gallic_model::<W, GallicWeightMin<W>>(fst),
                delta,
                bound,
            );
        },
        DeterminizeType::DeterminizeFunctional => {
            law_determinize_fsa_bound_decides::<GallicWeightRestrict<W>, GallicCommonDivisor>(
                to_gallic_model::<W, GallicWeightRestrict<W>>(fst),
                delta,
                bound,
            );
        },
        DeterminizeType::DeterminizeNonFunctional => {
            law_determinize_fsa_bound_decides::<GallicWeight<W>, GallicCommonDivisor>(
                to_gallic_model::<W, GallicWeight<W>>(fst),
                delta,
                bound,
            );
        },
    }
}

/// Determinization keeps the symbol tables of the machine.
pub proof fn law_determinize_keeps_symbols<W: WeaklyDivisibleSemiring + WeightQuantize>(
    fst: FstM<W::M>,
    config: DeterminizeConfig<W::Delta>,
)
    ensures
        determinize_model::<W>(fst, config) matches Ok(out) ==> (fst.isymt is Some ==> out.isymt
            == fst.isymt) && (fst.osymt is Some ==> out.osymt == fst.osymt),
{
}

} // verus!
