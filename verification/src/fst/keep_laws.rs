//! How much of what is known of a machine stays known.

use crate::connect::connect_model;
use crate::fst::properties::{
    flip_model, with_model, ACCEPTOR, ACCESSIBLE, ACYCLIC, ADD_STATE_KEEPS, COACCESSIBLE, CYCLIC,
    DELETE_STATES_KEEPS, DELETE_TRS_KEEPS, EPSILONS, INITIAL_ACYCLIC, INITIAL_CYCLIC,
    I_DETERMINISTIC, I_EPSILONS, I_LABEL_SORTED, NOT_ACCEPTOR, NOT_ACCESSIBLE, NOT_COACCESSIBLE,
    NOT_I_DETERMINISTIC, NOT_I_LABEL_SORTED, NOT_O_DETERMINISTIC, NOT_O_LABEL_SORTED, NOT_STRING,
    NOT_TOP_SORTED, NO_EPSILONS, NO_I_EPSILONS, NO_O_EPSILONS, NULL_PROPERTIES, O_DETERMINISTIC,
    O_EPSILONS, O_LABEL_SORTED, SET_FINAL_KEEPS, SET_START_KEEPS, STRING, TOP_SORTED, UNWEIGHTED,
    UNWEIGHTED_CYCLES, WEIGHTED, WEIGHTED_CYCLES,
};
use crate::fst::tr::StateId;
use crate::fst::vector_fst::{weighted_model, with_final, FstM};
use crate::semirings::semiring::Semiring;
use vstd::prelude::*;

verus! {

/// The flags that say something good of all labels on the transitions.
pub open spec fn good_label_flags() -> u64 {
    ACCEPTOR | I_DETERMINISTIC | O_DETERMINISTIC | NO_EPSILONS | NO_I_EPSILONS | NO_O_EPSILONS
        | I_LABEL_SORTED | O_LABEL_SORTED
}

/// The flags that say something bad of some labels on the transitions.
pub open spec fn bad_label_flags() -> u64 {
    NOT_ACCEPTOR | NOT_I_DETERMINISTIC | NOT_O_DETERMINISTIC | EPSILONS | I_EPSILONS | O_EPSILONS
        | NOT_I_LABEL_SORTED | NOT_O_LABEL_SORTED
}

/// The flags about where transitions lead, whatever the start state is.
pub open spec fn shape_flags() -> u64 {
    CYCLIC | ACYCLIC | TOP_SORTED | NOT_TOP_SORTED | WEIGHTED_CYCLES | UNWEIGHTED_CYCLES
}

/// The flags about what the start state can reach.
pub open spec fn start_flags() -> u64 {
    INITIAL_CYCLIC | INITIAL_ACYCLIC | ACCESSIBLE | NOT_ACCESSIBLE
}

/// The flags about what can reach a final state.
pub open spec fn end_flags() -> u64 {
    COACCESSIBLE | NOT_COACCESSIBLE
}

spec fn on(bits: u64, flag: u64) -> bool {
    bits & flag == flag
}

proof fn lemma_start_change(bits: u64, r: u64)
    by (bit_vector)
    requires
        r == with_model(bits & SET_START_KEEPS, on(bits, ACYCLIC), INITIAL_ACYCLIC),
    ensures
        ({
            let same = good_label_flags() | bad_label_flags() | WEIGHTED | UNWEIGHTED
                | shape_flags() | end_flags();
            r & same == bits & same
        }),
        on(r, INITIAL_ACYCLIC) <==> on(bits, ACYCLIC),
        r & (INITIAL_CYCLIC | ACCESSIBLE | NOT_ACCESSIBLE | STRING | NOT_STRING) == 0,
{
}

/// When the start state changes, everything stays known but what depends on it; and where
/// there are no cycles at all, the new start state is on none.
pub proof fn law_new_start_keeps_knowledge<M>(fst: FstM<M>, s: StateId)
    ensures
        ({
            let (p, r) = (fst.properties, fst.with_start(s).properties);
            let same = good_label_flags() | bad_label_flags() | WEIGHTED | UNWEIGHTED
                | shape_flags() | end_flags();
            &&& r.bits & same == p.bits & same
            &&& r.has(INITIAL_ACYCLIC) <==> p.has(ACYCLIC)
            &&& r.bits & (INITIAL_CYCLIC | ACCESSIBLE | NOT_ACCESSIBLE | STRING | NOT_STRING) == 0
        }),
{
    lemma_start_change(fst.properties.bits, fst.with_start(s).properties.bits);
}

proof fn lemma_final_change(bits: u64, old_weighted: bool, new_weighted: bool, a: u64, r: u64)
    by (bit_vector)
    requires
        a == (if old_weighted {
            bits & !WEIGHTED
        } else {
            bits
        }),
        r == flip_model(a, new_weighted, WEIGHTED, UNWEIGHTED) & (SET_FINAL_KEEPS | WEIGHTED
            | UNWEIGHTED),
    ensures
        ({
            let same = good_label_flags() | bad_label_flags() | shape_flags() | start_flags();
            r & same == bits & same
        }),
        on(r, WEIGHTED) <==> new_weighted || (on(bits, WEIGHTED) && !old_weighted),
        on(r, UNWEIGHTED) <==> on(bits, UNWEIGHTED) && !new_weighted,
        r & (end_flags() | STRING | NOT_STRING) == 0,
{
}

/// When a final weight changes, everything stays known but what depends on it. A weight
/// other than zero and one is noted; and where one was taken away, it is no longer known
/// that there is one.
pub proof fn law_new_final_weight_keeps_knowledge<W: Semiring>(
    fst: FstM<W::M>,
    s: StateId,
    w: Option<W::M>,
)
    ensures
        ({
            let (p, r) = (fst.properties, with_final::<W>(fst, s, w).properties);
            let before = weighted_model::<W>(fst.states[s as int].final_weight);
            let after = weighted_model::<W>(w);
            let same = good_label_flags() | bad_label_flags() | shape_flags() | start_flags();
            &&& r.bits & same == p.bits & same
            &&& r.has(WEIGHTED) <==> after || (p.has(WEIGHTED) && !before)
            &&& r.has(UNWEIGHTED) <==> p.has(UNWEIGHTED) && !after
            &&& r.bits & (end_flags() | STRING | NOT_STRING) == 0
        }),
{
    let bits = fst.properties.bits;
    let before = weighted_model::<W>(fst.states[s as int].final_weight);
    let after = weighted_model::<W>(w);
    let a = if before {
        bits & !WEIGHTED
    } else {
        bits
    };
    lemma_final_change(bits, before, after, a, with_final::<W>(fst, s, w).properties.bits);
}

proof fn lemma_more_states(bits: u64, r: u64)
    by (bit_vector)
    requires
        r == bits & ADD_STATE_KEEPS,
    ensures
        ({
            let same = good_label_flags() | bad_label_flags() | WEIGHTED | UNWEIGHTED
                | shape_flags() | INITIAL_CYCLIC | INITIAL_ACYCLIC | NOT_ACCESSIBLE
                | NOT_COACCESSIBLE | NOT_STRING;
            r & same == bits & same
        }),
        r & (ACCESSIBLE | COACCESSIBLE | STRING) == 0,
{
}

/// When states are added, everything stays known but that every state can be reached, can
/// reach a final state, and lies on the one path there is.
pub proof fn law_more_states_keep_knowledge<M>(fst: FstM<M>, n: nat)
    requires
        n > 0,
    ensures
        ({
            let (p, r) = (fst.properties, fst.with_states(n).properties);
            let same = good_label_flags() | bad_label_flags() | WEIGHTED | UNWEIGHTED
                | shape_flags() | INITIAL_CYCLIC | INITIAL_ACYCLIC | NOT_ACCESSIBLE
                | NOT_COACCESSIBLE | NOT_STRING;
            &&& r.bits & same == p.bits & same
            &&& r.bits & (ACCESSIBLE | COACCESSIBLE | STRING) == 0
        }),
{
    lemma_more_states(fst.properties.bits, fst.with_states(n).properties.bits);
}

proof fn lemma_fewer(bits: u64, t: u64, s: u64, c: u64)
    by (bit_vector)
    requires
        t == bits & DELETE_TRS_KEEPS,
        s == bits & DELETE_STATES_KEEPS,
        c == s | (ACCESSIBLE | COACCESSIBLE),
    ensures
        ({
            let same = good_label_flags() | UNWEIGHTED | ACYCLIC | INITIAL_ACYCLIC | TOP_SORTED
                | UNWEIGHTED_CYCLES;
            let lost = bad_label_flags() | WEIGHTED | CYCLIC | INITIAL_CYCLIC | NOT_TOP_SORTED
                | WEIGHTED_CYCLES | STRING | NOT_STRING;
            &&& t & same == bits & same
            &&& s & same == bits & same
            &&& c & same == bits & same
            &&& t & lost == 0
            &&& s & lost == 0
            &&& c & lost == 0
        }),
        t & (ACCESSIBLE | COACCESSIBLE) == 0,
        t & (NOT_ACCESSIBLE | NOT_COACCESSIBLE) == bits & (NOT_ACCESSIBLE | NOT_COACCESSIBLE),
        s & (start_flags() & !INITIAL_ACYCLIC | end_flags()) == 0,
        on(c, ACCESSIBLE | COACCESSIBLE),
        c & (NOT_ACCESSIBLE | NOT_COACCESSIBLE) == 0,
{
}

/// When transitions or states are taken away, what is good of all of them stays known, and
/// nothing that was due to some of them. A state that could not be reached, or could not
/// reach a final state, still cannot, as long as it is there; and after trimming, every
/// state is known to do both.
pub proof fn law_fewer_transitions_keep_knowledge<M>(fst: FstM<M>)
    ensures
        ({
            let p = fst.properties;
            let t = p.mask_model(DELETE_TRS_KEEPS);
            let s = p.mask_model(DELETE_STATES_KEEPS);
            let c = connect_model(fst).properties;
            let same = good_label_flags() | UNWEIGHTED | ACYCLIC | INITIAL_ACYCLIC | TOP_SORTED
                | UNWEIGHTED_CYCLES;
            let lost = bad_label_flags() | WEIGHTED | CYCLIC | INITIAL_CYCLIC | NOT_TOP_SORTED
                | WEIGHTED_CYCLES | STRING | NOT_STRING;
            &&& t.bits & same == p.bits & same
            &&& s.bits & same == p.bits & same
            &&& c.bits & same == p.bits & same
            &&& t.bits & lost == 0
            &&& s.bits & lost == 0
            &&& c.bits & lost == 0
            &&& t.bits & (ACCESSIBLE | COACCESSIBLE) == 0
            &&& t.bits & (NOT_ACCESSIBLE | NOT_COACCESSIBLE) == p.bits & (NOT_ACCESSIBLE
                | NOT_COACCESSIBLE)
            &&& c.has(ACCESSIBLE | COACCESSIBLE)
            &&& c.bits & (NOT_ACCESSIBLE | NOT_COACCESSIBLE) == 0
        }),
{
    let p = fst.properties;
    lemma_fewer(
        p.bits,
        p.mask_model(DELETE_TRS_KEEPS).bits,
        p.mask_model(DELETE_STATES_KEEPS).bits,
        connect_model(fst).properties.bits,
    );
}

proof fn lemma_null(bits: u64)
    by (bit_vector)
    requires
        bits == NULL_PROPERTIES,
    ensures
        on(
            bits,
            good_label_flags() | UNWEIGHTED | ACYCLIC | INITIAL_ACYCLIC | TOP_SORTED | ACCESSIBLE
                | COACCESSIBLE | STRING | UNWEIGHTED_CYCLES,
        ),
        bits & (bad_label_flags() | WEIGHTED | CYCLIC | INITIAL_CYCLIC | NOT_TOP_SORTED
            | NOT_ACCESSIBLE | NOT_COACCESSIBLE | NOT_STRING | WEIGHTED_CYCLES) == 0,
{
}

/// Everything good is known of a machine without states, and nothing bad.
pub proof fn law_all_is_good_of_nothing<M>()
    ensures
        ({
            let p = FstM::<M>::empty().properties;
            &&& p.has(
                good_label_flags() | UNWEIGHTED | ACYCLIC | INITIAL_ACYCLIC | TOP_SORTED
                    | ACCESSIBLE | COACCESSIBLE | STRING | UNWEIGHTED_CYCLES,
            )
            &&& p.bits & (bad_label_flags() | WEIGHTED | CYCLIC | INITIAL_CYCLIC | NOT_TOP_SORTED
                | NOT_ACCESSIBLE | NOT_COACCESSIBLE | NOT_STRING | WEIGHTED_CYCLES) == 0
        }),
{
    lemma_null(FstM::<M>::empty().properties.bits);
}

} // verus!
