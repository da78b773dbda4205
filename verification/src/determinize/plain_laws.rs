//! What asking for distances does to a determinization.

use crate::determinize::determinize_fsa::det_compute;
use crate::determinize::determinize_fsa_op::{
    expand_pairs, expand_trs, name_groups, norm_model, DetM, DeterminizeFsaOp, ExpandM, GroupM,
};
use crate::determinize::determinize_static::{determinize_fsa_model, with_distance_model};
use crate::determinize::divisors::{CommonDivisor, DefaultCommonDivisor};
use crate::determinize::element::{ElementM, TupleM};
use crate::determinize::laws::{
    deterministic, law_determinize_fsa_is_deterministic, law_determinize_fsa_is_equivalent,
    weight_of,
};
use crate::determinize::rounding_laws::law_rounding_is_bounded;
use crate::determinize::state_table::{find_model, subset_distance, TableM};
use crate::error::FstError;
use crate::fst::tr::{Label, StateId, TrM};
use crate::fst::vector_fst::FstM;
use crate::lazy::fst_op::FstOp;
use crate::lazy::null_cache::NullCache;
use crate::lazy::simulation_laws::{
    does_the_same, fails_with_it, law_failure_is_owed, law_same_operation_gives_same_machine,
};
use crate::semirings::laws::{exact_step, ExactDivision};
use crate::semirings::rounding::RoundedWeights;
use crate::semirings::semiring::{Semiring, WeaklyDivisibleSemiring, WeightQuantize};
use vstd::prelude::*;

verus! {

/// The table without distances.
pub open spec fn plain<M>(t: TableM<M>) -> TableM<M> {
    TableM { in_dist: None, out_dist: Seq::empty(), ..t }
}

/// Some subset has no distance, and this is the error.
pub open spec fn no_distance<W: Semiring>(in_dist: Option<Seq<W::M>>, e: FstError) -> bool {
    in_dist is Some && exists|pairs: Seq<ElementM<W::M>>| #[trigger]
        subset_distance::<W>(pairs, in_dist->0) == Err::<W::M, FstError>(e)
}

proof fn lemma_find_plain<W: Semiring>(t: TableM<W::M>, tuple: TupleM<W::M>)
    ensures
        find_model::<W>(t, tuple).0.in_dist == t.in_dist,
        match find_model::<W>(t, tuple).1 {
            Ok(id) => find_model::<W>(plain(t), tuple) == (
                plain(find_model::<W>(t, tuple).0),
                Ok::<StateId, FstError>(id),
            ),
            Err(e) => no_distance::<W>(t.in_dist, e) || find_model::<W>(plain(t), tuple).1 is Err,
        },
{
}

proof fn lemma_expand_trs_plain<W: Semiring, CD: CommonDivisor<W>>(
    t: TableM<W::M>,
    e: ExpandM<W::M>,
    weight: W::M,
    trs: Seq<TrM<W::M>>,
)
    ensures
        expand_trs::<W, CD>(plain(t), e, weight, trs) == expand_trs::<W, CD>(t, e, weight, trs),
    decreases trs.len(),
{
    if trs.len() > 0 {
        lemma_expand_trs_plain::<W, CD>(t, e, weight, trs.drop_last());
    }
}

proof fn lemma_expand_pairs_plain<W: Semiring, CD: CommonDivisor<W>>(
    fst: FstM<W::M>,
    t: TableM<W::M>,
    pairs: Seq<ElementM<W::M>>,
)
    ensures
        expand_pairs::<W, CD>(fst, plain(t), pairs) == expand_pairs::<W, CD>(fst, t, pairs),
    decreases pairs.len(),
{
    if pairs.len() > 0 {
        lemma_expand_pairs_plain::<W, CD>(fst, t, pairs.drop_last());
        if let Ok(e) = expand_pairs::<W, CD>(fst, t, pairs.drop_last()) {
            if fst.has_state(pairs.last().state) {
                lemma_expand_trs_plain::<W, CD>(
                    t,
                    e,
                    pairs.last().weight,
                    fst.states[pairs.last().state as int].trs,
                );
            }
        }
    }
}

proof fn lemma_name_groups_plain<
    W: WeaklyDivisibleSemiring + WeightQuantize,
    CD: CommonDivisor<W>,
>(t: TableM<W::M>, groups: Seq<GroupM<W::M>>, delta: W::Delta)
    ensures
        name_groups::<W, CD>(t, groups, delta).0.in_dist == t.in_dist,
        match name_groups::<W, CD>(t, groups, delta).1 {
            Ok(trs) => name_groups::<W, CD>(plain(t), groups, delta) == (
                plain(name_groups::<W, CD>(t, groups, delta).0),
                Ok::<Seq<TrM<W::M>>, FstError>(trs),
            ),
            Err(e) => no_distance::<W>(t.in_dist, e) || name_groups::<W, CD>(
                plain(t),
                groups,
                delta,
            ).1 is Err,
        },
    decreases groups.len(),
{
    if groups.len() > 0 {
        lemma_name_groups_plain::<W, CD>(t, groups.drop_last(), delta);
        let (t1, r) = name_groups::<W, CD>(t, groups.drop_last(), delta);
        if let Ok((weight, pairs)) = norm_model::<W, CD>(groups.last().pairs, delta) {
            lemma_find_plain::<W>(t1, TupleM { pairs, filter_state: 0 });
        }
    }
}

/// The second determinization is the first without distances.
spec fn without_distances<M, D>(in_dist: Option<Seq<M>>) -> spec_fn(DetM<M, D>, DetM<M, D>) -> bool {
    |a: DetM<M, D>, b: DetM<M, D>|
        a.table.in_dist == in_dist && b == (DetM { table: plain(a.table), ..a })
}

proof fn lemma_does_without_distances<
    W: WeaklyDivisibleSemiring + WeightQuantize,
    CD: CommonDivisor<W>,
>(in_dist: Option<Seq<W::M>>)
    ensures
        does_the_same::<W, DeterminizeFsaOp<'_, W, CD>>(
            without_distances::<W::M, W::Delta>(in_dist),
        ),
        fails_with_it::<W, DeterminizeFsaOp<'_, W, CD>>(
            without_distances::<W::M, W::Delta>(in_dist),
            |e: FstError| no_distance::<W>(in_dist, e),
        ),
{
    let related = without_distances::<W::M, W::Delta>(in_dist);
    assert forall|a: DetM<W::M, W::Delta>, b: DetM<W::M, W::Delta>| #[trigger]
        related(a, b) && DeterminizeFsaOp::<'_, W, CD>::valid(a) implies {
        &&& DeterminizeFsaOp::<'_, W, CD>::valid(b)
        &&& DeterminizeFsaOp::<'_, W, CD>::properties_model(a) == DeterminizeFsaOp::<
            '_,
            W,
            CD,
        >::properties_model(b)
        &&& match DeterminizeFsaOp::<'_, W, CD>::start_model(a).1 {
            Ok(start) => DeterminizeFsaOp::<'_, W, CD>::start_model(b).1 == Ok::<
                Option<StateId>,
                FstError,
            >(start) && related(
                DeterminizeFsaOp::<'_, W, CD>::start_model(a).0,
                DeterminizeFsaOp::<'_, W, CD>::start_model(b).0,
            ),
            Err(e) => no_distance::<W>(in_dist, e) || DeterminizeFsaOp::<'_, W, CD>::start_model(
                b,
            ).1 is Err,
        }
    } by {
        if let Some(q) = a.fst.start {
            let tuple = TupleM {
                pairs: seq![ElementM { state: q, weight: W::one_model() }],
                filter_state: q,
            };
            lemma_find_plain::<W>(a.table, tuple);
        }
    }
    assert forall|a: DetM<W::M, W::Delta>, b: DetM<W::M, W::Delta>, id: StateId|
        #![trigger related(a, b), DeterminizeFsaOp::<'_, W, CD>::trs_model(a, id)]
        related(a, b) && DeterminizeFsaOp::<'_, W, CD>::valid(a) && DeterminizeFsaOp::<
            '_,
            W,
            CD,
        >::known(a, id) implies match DeterminizeFsaOp::<'_, W, CD>::trs_model(a, id).1 {
        Ok(trs) => DeterminizeFsaOp::<'_, W, CD>::trs_model(b, id).1 == Ok::<
            Seq<TrM<W::M>>,
            FstError,
        >(trs) && related(
            DeterminizeFsaOp::<'_, W, CD>::trs_model(a, id).0,
            DeterminizeFsaOp::<'_, W, CD>::trs_model(b, id).0,
        ),
        Err(e) => no_distance::<W>(in_dist, e) || DeterminizeFsaOp::<'_, W, CD>::trs_model(
            b,
            id,
        ).1 is Err,
    } by {
        let pairs = a.table.tuples[id as int].pairs;
        lemma_expand_pairs_plain::<W, CD>(a.fst, a.table, pairs);
        if let Ok(e) = expand_pairs::<W, CD>(a.fst, a.table, pairs) {
            lemma_name_groups_plain::<W, CD>(a.table, e.groups, a.delta);
        }
    }
}

/// Asking for distances changes nothing else: the machine that comes out with them is the
/// one that comes out without; and if one comes out without them and none with them, some
/// subset has no distance.
pub proof fn law_distances_are_harmless<
    W: WeaklyDivisibleSemiring + WeightQuantize,
    CD: CommonDivisor<W>,
>(fst: FstM<W::M>, in_dist: Seq<W::M>, delta: W::Delta, max_states: Option<usize>)
    ensures
        det_compute::<W, CD>(fst, Some(in_dist), delta, max_states).1 matches Ok(out)
            ==> det_compute::<W, CD>(fst, None, delta, max_states).1 == Ok::<FstM<W::M>, FstError>(
            out,
        ),
        det_compute::<W, CD>(fst, None, delta, max_states).1 is Ok ==> (det_compute::<W, CD>(
            fst,
            Some(in_dist),
            delta,
            max_states,
        ).1 matches Err(e) ==> no_distance::<W>(Some(in_dist), e)),
{
    lemma_does_without_distances::<W, CD>(Some(in_dist));
    let a = DetM { fst, table: TableM::<W::M>::empty(Some(in_dist), None), delta };
    let b = DetM { fst, table: TableM::<W::M>::empty(None, None), delta };
    let related = without_distances::<W::M, W::Delta>(Some(in_dist));
    assert(related(a, b));
    law_same_operation_gives_same_machine::<W, DeterminizeFsaOp<'_, W, CD>, NullCache<W>>(
        a,
        b,
        related,
        fst.isymt,
        fst.osymt,
        max_states,
        None,
    );
    if det_compute::<W, CD>(fst, None, delta, max_states).1 is Ok {
        law_failure_is_owed::<W, DeterminizeFsaOp<'_, W, CD>, NullCache<W>>(
            a,
            b,
            related,
            |e: FstError| no_distance::<W>(Some(in_dist), e),
            fst.isymt,
            fst.osymt,
            max_states,
            None,
        );
    }
}

/// The machine that comes back with distances is the determinization of the automaton, as
/// it comes out without them, start state included. There is a distance for each of its
/// states, and no state has two transitions with the same label.
pub proof fn law_determinize_with_distance_determinizes<
    W: WeaklyDivisibleSemiring + WeightQuantize,
>(fst: FstM<W::M>, in_dist: Seq<W::M>, delta: W::Delta)
    ensures
        with_distance_model::<W>(fst, in_dist, delta) matches Ok((out, dist)) ==> {
            &&& determinize_fsa_model::<W, DefaultCommonDivisor>(fst, delta, None) == Ok::<
                FstM<W::M>,
                FstError,
            >(out)
            &&& dist.len() == out.states.len()
            &&& deterministic(out)
        },
{
    law_distances_are_harmless::<W, DefaultCommonDivisor>(fst, in_dist, delta, None);
    law_determinize_fsa_is_deterministic::<W, DefaultCommonDivisor>(
        fst,
        Some(in_dist),
        delta,
        None,
    );
}

/// Determinization with distances succeeds where determinization without them does, unless
/// some subset has no distance; and it refuses the same machines.
pub proof fn law_determinize_with_distance_succeeds<
    W: WeaklyDivisibleSemiring + WeightQuantize,
>(fst: FstM<W::M>, in_dist: Seq<W::M>, delta: W::Delta)
    ensures
        with_distance_model::<W>(fst, in_dist, delta) matches Err(e) ==> no_distance::<W>(
            Some(in_dist),
            e,
        ) || determinize_fsa_model::<W, DefaultCommonDivisor>(fst, delta, None) is Err,
{
    law_distances_are_harmless::<W, DefaultCommonDivisor>(fst, in_dist, delta, None);
}

/// The machine that comes back with distances gives every string the weight that the
/// automaton gives it. Rounding must not change weights.
pub proof fn law_determinize_with_distance_is_equivalent<W: ExactDivision>(
    fst: FstM<W::M>,
    in_dist: Seq<W::M>,
    delta: W::Delta,
    string: Seq<Label>,
)
    requires
        exact_step::<W>(delta),
    ensures
        with_distance_model::<W>(fst, in_dist, delta) matches Ok((out, dist)) ==> weight_of::<W>(
            out,
            string,
        ) == weight_of::<W>(fst, string),
{
    law_determinize_fsa_is_equivalent::<W, DefaultCommonDivisor>(
        fst,
        Some(in_dist),
        delta,
        None,
        string,
    );
}

/// Whatever the step, the machine that comes back with distances gives every string the
/// weight that the automaton gives it, but for half a step for each of its symbols.
pub proof fn law_determinize_with_distance_rounds<W: RoundedWeights + ExactDivision>(
    fst: FstM<W::M>,
    in_dist: Seq<W::M>,
    delta: W::Delta,
    string: Seq<Label>,
)
    ensures
        with_distance_model::<W>(fst, in_dist, delta) matches Ok((out, dist)) ==> W::near(
            weight_of::<W>(out, string),
            weight_of::<W>(fst, string),
            string.len() * W::step(delta),
        ),
{
    law_rounding_is_bounded::<W, DefaultCommonDivisor>(fst, Some(in_dist), delta, None, string);
}

} // verus!
