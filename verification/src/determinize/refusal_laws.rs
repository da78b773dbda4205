//! What a determinization refuses, and what it does not look at.

use crate::determinize::determinize_static::{
    determinize_fsa_model, determinize_model, with_distance_model, DeterminizeConfig,
    DeterminizeType,
};
use crate::determinize::divisors::CommonDivisor;
use crate::error::FstError;
use crate::fst::properties::ACCEPTOR;
use crate::fst::vector_fst::FstM;
use crate::semirings::semiring::{
    WeaklyDivisibleSemiring, WeightQuantize, IDEMPOTENT, LEFT_SEMIRING, PATH, RIGHT_SEMIRING,
};
use vstd::prelude::*;

verus! {

proof fn lemma_left_lost(bits: u32)
    by (bit_vector)
    requires
        bits & LEFT_SEMIRING != LEFT_SEMIRING,
    ensures
        (bits & (LEFT_SEMIRING | RIGHT_SEMIRING | IDEMPOTENT)) & LEFT_SEMIRING != LEFT_SEMIRING,
{
}

/// Weights that do not distribute from the left are refused, whatever the machine is; and
/// so are weights of which the best is not one of them, where the best string is asked for.
pub proof fn law_unsuitable_weights_are_refused<W: WeaklyDivisibleSemiring + WeightQuantize>(
    fst: FstM<W::M>,
    config: DeterminizeConfig<W::Delta>,
)
    ensures
        ({
            let best = config.det_type == DeterminizeType::DeterminizeDisambiguate
                && !fst.properties.has(ACCEPTOR);
            let refused = determinize_model::<W>(fst, config);
            &&& best && !W::properties_model().has(PATH) ==> refused == Err::<
                FstM<W::M>,
                FstError,
            >(FstError::NoPathProperty)
            &&& !W::properties_model().has(LEFT_SEMIRING) && !(best && !W::properties_model().has(
                PATH,
            )) ==> refused == Err::<FstM<W::M>, FstError>(FstError::NotLeftDistributive)
        }),
{
    if !W::properties_model().has(LEFT_SEMIRING) {
        lemma_left_lost(W::properties_model().bits);
    }
}

/// A machine that is not known to be an acceptor is refused where an automaton is asked
/// for, with distances or without.
pub proof fn law_automaton_is_asked_for<
    W: WeaklyDivisibleSemiring + WeightQuantize,
    CD: CommonDivisor<W>,
>(
    fst: FstM<W::M>,
    in_dist: Seq<W::M>,
    delta: W::Delta,
    max_states: Option<usize>,
)
    requires
        W::properties_model().has(LEFT_SEMIRING),
        !fst.properties.has(ACCEPTOR),
    ensures
        determinize_fsa_model::<W, CD>(fst, delta, max_states) == Err::<FstM<W::M>, FstError>(
            FstError::NotAcceptor,
        ),
        with_distance_model::<W>(fst, in_dist, delta) == Err::<(FstM<W::M>, Seq<W::M>), FstError>(
            FstError::NotAcceptor,
        ),
{
}

/// For an acceptor it does not matter what is asked for: it writes what it reads.
pub proof fn law_acceptor_is_of_every_type<W: WeaklyDivisibleSemiring + WeightQuantize>(
    fst: FstM<W::M>,
    a: DeterminizeConfig<W::Delta>,
    b: DeterminizeConfig<W::Delta>,
)
    requires
        fst.properties.has(ACCEPTOR),
        a.delta == b.delta,
        a.max_states == b.max_states,
    ensures
        match (determinize_model::<W>(fst, a), determinize_model::<W>(fst, b)) {
            (Ok(x), Ok(y)) => x.states == y.states && x.start == y.start && x.isymt == y.isymt
                && x.osymt == y.osymt,
            (Err(x), Err(y)) => x == y,
            _ => false,
        },
{
}

/// A machine without a start state determinizes to one without states.
pub proof fn law_machine_without_start_determinizes<
    W: WeaklyDivisibleSemiring + WeightQuantize,
>(
    fst: FstM<W::M>,
    config: DeterminizeConfig<W::Delta>,
)
    requires
        fst.start is None,
        W::properties_model().has(LEFT_SEMIRING),
        fst.properties.has(ACCEPTOR),
    ensures
        determinize_model::<W>(fst, config) matches Ok(out) && out.start is None
            && out.states.len() == 0,
{
}

} // verus!
