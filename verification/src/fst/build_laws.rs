//! What building a machine up changes, and what it leaves as it is.

use crate::fst::tr::{StateId, TrM};
use crate::fst::vector_fst::{with_final, with_tr, FstM};
use crate::prune::{emptied, without_trs};
use crate::semirings::semiring::Semiring;
use vstd::prelude::*;

verus! {

/// Both machines are the same but for the state `s`, and what is known of them.
pub open spec fn same_elsewhere<M>(a: FstM<M>, b: FstM<M>, s: StateId) -> bool {
    &&& a.start == b.start
    &&& a.isymt == b.isymt
    &&& a.osymt == b.osymt
    &&& a.states.len() == b.states.len()
    &&& forall|v: int|
        0 <= v < a.states.len() && v != s ==> #[trigger] b.states[v] == a.states[v]
}

/// New states come after those that are there. They are not final and have no transitions.
/// Nothing else changes.
pub proof fn law_states_are_added_last<M>(fst: FstM<M>, n: nat)
    ensures
        ({
            let b = fst.with_states(n);
            &&& b.states.len() == fst.states.len() + n
            &&& forall|v: int|
                0 <= v < fst.states.len() ==> #[trigger] b.states[v] == fst.states[v]
            &&& forall|v: int|
                fst.states.len() <= v < b.states.len() ==> (
                #[trigger] b.states[v]).final_weight is None && b.states[v].trs.len() == 0
            &&& b.start == fst.start && b.isymt == fst.isymt && b.osymt == fst.osymt
        }),
{
}

/// Choosing a start state changes nothing else.
pub proof fn law_start_is_set<M>(fst: FstM<M>, s: StateId)
    ensures
        fst.with_start(s).start == Some(s),
        fst.with_start(s).states == fst.states,
        fst.with_start(s).isymt == fst.isymt,
        fst.with_start(s).osymt == fst.osymt,
{
}

/// A transition is added after those that the state has. Its final weight, and all other
/// states, stay as they are.
pub proof fn law_transition_is_added_last<W: Semiring>(fst: FstM<W::M>, s: StateId, tr: TrM<W::M>)
    requires
        fst.has_state(s),
    ensures
        ({
            let b = with_tr::<W>(fst, s, tr);
            let (old_state, new_state) = (fst.states[s as int], b.states[s as int]);
            &&& same_elsewhere(fst, b, s)
            &&& new_state.final_weight == old_state.final_weight
            &&& new_state.trs.len() == old_state.trs.len() + 1
            &&& new_state.trs.last() == tr
            &&& new_state.trs.drop_last() == old_state.trs
        }),
{
    let b = with_tr::<W>(fst, s, tr);
    assert(b.states[s as int].trs.drop_last() =~= fst.states[s as int].trs);
}

/// A final weight takes the place of the one that the state had. Its transitions, and all
/// other states, stay as they are.
pub proof fn law_final_weight_is_set<W: Semiring>(fst: FstM<W::M>, s: StateId, w: Option<W::M>)
    requires
        fst.has_state(s),
    ensures
        ({
            let b = with_final::<W>(fst, s, w);
            &&& same_elsewhere(fst, b, s)
            &&& b.states[s as int].final_weight == w
            &&& b.states[s as int].trs == fst.states[s as int].trs
        }),
{
}

/// The transitions of a state can be replaced, or removed, without changing anything else
/// but what is known.
pub proof fn law_transitions_are_replaced<M>(fst: FstM<M>, s: StateId, trs: Seq<TrM<M>>)
    requires
        fst.has_state(s),
    ensures
        same_elsewhere(fst, fst.with_trs(s, trs), s),
        fst.with_trs(s, trs).states[s as int].trs == trs,
        fst.with_trs(s, trs).states[s as int].final_weight == fst.states[s as int].final_weight,
        fst.with_trs(s, trs).properties.bits == 0,
        same_elsewhere(fst, without_trs(fst, s), s),
        without_trs(fst, s).states[s as int].trs.len() == 0,
        without_trs(fst, s).states[s as int].final_weight == fst.states[s as int].final_weight,
{
}

/// A machine that is emptied keeps its symbol tables and nothing else.
pub proof fn law_emptied_keeps_symbols<M>(fst: FstM<M>)
    ensures
        emptied(fst).states.len() == 0,
        emptied(fst).start is None,
        emptied(fst).isymt == fst.isymt,
        emptied(fst).osymt == fst.osymt,
        FstM::<M>::empty().states.len() == 0,
        FstM::<M>::empty().start is None,
        FstM::<M>::empty().isymt is None,
        FstM::<M>::empty().osymt is None,
{
}

} // verus!
