//! When determinization succeeds.

use crate::determinize::determinize_fsa::{det_begin, det_compute};
use crate::determinize::determinize_fsa_op::{
    divide_all, divisor_of, expand_one, expand_pairs, expand_trs, final_or_zero, group_pairs,
    groups_upto, has_pair, merge_equal, name_groups, norm_model, pairs_upto, residual,
    subset_final, with_group, DetM, DeterminizeFsaOp, ExpandM, GroupM,
};
use crate::determinize::determinize_static::{
    determinize_model, with_distance_model, DeterminizeConfig,
};
use crate::determinize::divisors::{CommonDivisor, DefaultCommonDivisor};
use crate::determinize::element::{ElementM, TupleM};
use crate::determinize::laws::{
    law_determinize_fsa_bound_decides, lemma_det_expansion, lemma_det_output, stands_for,
    written_for,
};
use crate::determinize::state_table::{distance_of, find_model, lemma_find, subset_distance, TableM};
use crate::error::FstError;
use crate::fst::properties::ACCEPTOR;
use crate::fst::tr::{Label, StateId, TrM, NO_STATE_ID};
use crate::fst::vector_fst::FstM;
use crate::lazy::fst_op::FstOp;
use crate::lazy::laws::{closed_machine, law_machine_stays_valid};
use crate::lazy::null_cache::NullCache;
use crate::lazy::reach_laws::law_failure_has_a_reason;
use crate::semirings::semiring::{
    DivideType, Semiring, WeaklyDivisibleSemiring, WeightQuantize, LEFT_SEMIRING,
};
use crate::semirings::tropical::{nearest_multiple, TickDelta, TropicalWeight};
use vstd::prelude::*;

verus! {

/// Sums, products and quotients of ones are one, and so is one, rounded; and zero goes with
/// them as it should.
pub open spec fn unit_is_stable<W: WeaklyDivisibleSemiring + WeightQuantize>(
    delta: W::Delta,
) -> bool {
    let (zero, one) = (W::zero_model(), W::one_model());
    &&& W::plus_model(zero, zero) == Ok::<W::M, FstError>(zero)
    &&& W::plus_model(zero, one) == Ok::<W::M, FstError>(one)
    &&& W::plus_model(one, zero) == Ok::<W::M, FstError>(one)
    &&& W::plus_model(one, one) == Ok::<W::M, FstError>(one)
    &&& W::times_model(one, zero) == Ok::<W::M, FstError>(zero)
    &&& W::times_model(one, one) == Ok::<W::M, FstError>(one)
    &&& W::divide_model(one, one, DivideType::DivideLeft) == Ok::<W::M, FstError>(one)
    &&& W::quantize_model(one, delta) == Ok::<W::M, FstError>(one)
}

/// The tropical one is stable, whatever the rounding step.
pub proof fn law_tropical_unit_is_stable(delta: TickDelta)
    ensures
        unit_is_stable::<TropicalWeight>(delta),
{
    let step = delta.ticks as int;
    assert(nearest_multiple(0, step) == 0) by {
        if step > 0 {
            vstd::arithmetic::div_mod::lemma_basic_div(step, 2 * step);
            let q = (2 * 0 + step) / (2 * step);
            assert(q == 0);
            assert(q * step == 0) by (nonlinear_arith)
                requires
                    q == 0,
            ;
        }
    }
}

/// Every weight of the machine is one; a final weight may also be zero.
pub open spec fn weightless<W: Semiring>(fst: FstM<W::M>) -> bool {
    &&& forall|v: int, j: int|
        0 <= v < fst.states.len() && 0 <= j < fst.states[v].trs.len() ==> (
        #[trigger] fst.states[v].trs[j]).weight == W::one_model()
    &&& forall|v: int|
        0 <= v < fst.states.len() ==> match (#[trigger] fst.states[v]).final_weight {
            Some(w) => w == W::one_model() || w == W::zero_model(),
            None => true,
        }
}

/// The elements are states of the machine, each with the weight one.
spec fn plain_pairs<W: Semiring>(fst: FstM<W::M>, pairs: Seq<ElementM<W::M>>) -> bool {
    forall|i: int|
        0 <= i < pairs.len() ==> (#[trigger] pairs[i]).weight == W::one_model() && fst.has_state(
            pairs[i].state,
        )
}

spec fn plain_groups<W: Semiring>(fst: FstM<W::M>, groups: Seq<GroupM<W::M>>) -> bool {
    forall|i: int| 0 <= i < groups.len() ==> plain_pairs::<W>(fst, (#[trigger] groups[i]).pairs)
}

proof fn lemma_upto_ranges<M>(groups: Seq<GroupM<M>>, label: Label)
    ensures
        0 <= groups_upto(groups, label) <= groups.len(),
    decreases groups.len(),
{
    if groups.len() > 0 {
        lemma_upto_ranges(groups.drop_last(), label);
    }
}

proof fn lemma_pairs_upto_range<M>(pairs: Seq<ElementM<M>>, state: StateId)
    ensures
        0 <= pairs_upto(pairs, state) <= pairs.len(),
    decreases pairs.len(),
{
    if pairs.len() > 0 {
        lemma_pairs_upto_range(pairs.drop_last(), state);
    }
}

proof fn lemma_plain_group<W: Semiring>(
    fst: FstM<W::M>,
    groups: Seq<GroupM<W::M>>,
    label: Label,
    pairs: Seq<ElementM<W::M>>,
)
    requires
        plain_groups::<W>(fst, groups),
        plain_pairs::<W>(fst, pairs),
    ensures
        plain_groups::<W>(fst, with_group(groups, label, pairs)),
        plain_pairs::<W>(fst, group_pairs(groups, label)),
{
    lemma_upto_ranges(groups, label);
    let after = with_group(groups, label, pairs);
    let k = groups_upto(groups, label);
    assert forall|i: int| 0 <= i < after.len() implies plain_pairs::<W>(
        fst,
        (#[trigger] after[i]).pairs,
    ) by {
        if k > 0 && groups[k - 1].label == label {
            if i != k - 1 {
                assert(after[i] == groups[i]);
            }
        } else if i < k {
            assert(after[i] == groups[i]);
        } else if i > k {
            assert(after[i] == groups[i - 1]);
        }
    }
}

proof fn lemma_plain_one<W: WeaklyDivisibleSemiring + WeightQuantize>(
    fst: FstM<W::M>,
    t: TableM<W::M>,
    e: ExpandM<W::M>,
    label: Label,
    state: StateId,
    delta: W::Delta,
)
    requires
        unit_is_stable::<W>(delta),
        t.max_elements is None,
        plain_groups::<W>(fst, e.groups),
        fst.has_state(state),
    ensures
        expand_one::<W, DefaultCommonDivisor>(t, e, label, state, W::one_model()) matches Ok(after)
            && plain_groups::<W>(fst, after.groups),
{
    lemma_plain_group::<W>(fst, e.groups, label, Seq::empty());
    let pairs = group_pairs(e.groups, label);
    let k = pairs_upto(pairs, state);
    lemma_pairs_upto_range(pairs, state);
    let element = ElementM { state, weight: W::one_model() };
    if has_pair(pairs, state) {
        let more = pairs.update(k - 1, element);
        assert(plain_pairs::<W>(fst, more));
        lemma_plain_group::<W>(fst, e.groups, label, more);
    } else {
        let more = pairs.insert(k, element);
        assert forall|i: int| 0 <= i < more.len() implies (#[trigger] more[i]).weight
            == W::one_model() && fst.has_state(more[i].state) by {
            if i < k {
                assert(more[i] == pairs[i]);
            } else if i > k {
                assert(more[i] == pairs[i - 1]);
            }
        }
        lemma_plain_group::<W>(fst, e.groups, label, more);
    }
}

proof fn lemma_plain_trs<W: WeaklyDivisibleSemiring + WeightQuantize>(
    fst: FstM<W::M>,
    t: TableM<W::M>,
    e: ExpandM<W::M>,
    trs: Seq<TrM<W::M>>,
    delta: W::Delta,
)
    requires
        unit_is_stable::<W>(delta),
        t.max_elements is None,
        plain_groups::<W>(fst, e.groups),
        forall|j: int|
            0 <= j < trs.len() ==> (#[trigger] trs[j]).weight == W::one_model() && fst.has_state(
                trs[j].nextstate,
            ),
    ensures
        expand_trs::<W, DefaultCommonDivisor>(t, e, W::one_model(), trs) matches Ok(after)
            && plain_groups::<W>(fst, after.groups),
    decreases trs.len(),
{
    if trs.len() > 0 {
        let init = trs.drop_last();
        assert forall|j: int| 0 <= j < init.len() implies (#[trigger] init[j]).weight
            == W::one_model() && fst.has_state(init[j].nextstate) by {
            assert(init[j] == trs[j]);
        }
        lemma_plain_trs::<W>(fst, t, e, init, delta);
        let sofar = expand_trs::<W, DefaultCommonDivisor>(t, e, W::one_model(), init)->Ok_0;
        let last = trs[trs.len() - 1];
        assert(last == trs.last());
        lemma_plain_one::<W>(fst, t, sofar, last.ilabel, last.nextstate, delta);
    }
}

proof fn lemma_plain_expansion<W: WeaklyDivisibleSemiring + WeightQuantize>(
    fst: FstM<W::M>,
    t: TableM<W::M>,
    pairs: Seq<ElementM<W::M>>,
    delta: W::Delta,
)
    requires
        unit_is_stable::<W>(delta),
        closed_machine(fst),
        weightless::<W>(fst),
        t.max_elements is None,
        plain_pairs::<W>(fst, pairs),
    ensures
        expand_pairs::<W, DefaultCommonDivisor>(fst, t, pairs) matches Ok(e) && plain_groups::<W>(
            fst,
            e.groups,
        ),
        subset_final::<W>(fst, pairs) matches Ok(w) && (w == W::one_model() || w
            == W::zero_model()),
    decreases pairs.len(),
{
    if pairs.len() > 0 {
        let init = pairs.drop_last();
        assert forall|i: int| 0 <= i < init.len() implies (#[trigger] init[i]).weight
            == W::one_model() && fst.has_state(init[i].state) by {
            assert(init[i] == pairs[i]);
        }
        lemma_plain_expansion::<W>(fst, t, init, delta);
        let e = expand_pairs::<W, DefaultCommonDivisor>(fst, t, init)->Ok_0;
        let last = pairs[pairs.len() - 1];
        assert(last == pairs.last());
        let q = last.state as int;
        let trs = fst.states[q].trs;
        assert forall|j: int| 0 <= j < trs.len() implies (#[trigger] trs[j]).weight
            == W::one_model() && fst.has_state(trs[j].nextstate) by {
            assert(fst.states[q].trs[j] == trs[j]);
        }
        lemma_plain_trs::<W>(fst, t, e, trs, delta);
        assert(fst.states[q].final_weight == fst.states[q].final_weight);
    }
}

proof fn lemma_plain_norm<W: WeaklyDivisibleSemiring + WeightQuantize>(
    fst: FstM<W::M>,
    pairs: Seq<ElementM<W::M>>,
    delta: W::Delta,
)
    requires
        unit_is_stable::<W>(delta),
        plain_pairs::<W>(fst, pairs),
    ensures
        divisor_of::<W, DefaultCommonDivisor>(pairs) == Ok::<W::M, FstError>(
            if pairs.len() == 0 {
                W::zero_model()
            } else {
                W::one_model()
            },
        ),
        divide_all::<W>(pairs, W::one_model(), delta) == Ok::<Seq<ElementM<W::M>>, FstError>(pairs),
    decreases pairs.len(),
{
    if pairs.len() > 0 {
        let init = pairs.drop_last();
        assert forall|i: int| 0 <= i < init.len() implies (#[trigger] init[i]).weight
            == W::one_model() && fst.has_state(init[i].state) by {
            assert(init[i] == pairs[i]);
        }
        lemma_plain_norm::<W>(fst, init, delta);
        let last = pairs[pairs.len() - 1];
        assert(last == pairs.last());
        assert(init.push(ElementM { state: last.state, weight: W::one_model() }) =~= pairs);
    } else {
        assert(pairs =~= Seq::empty());
    }
}

/// Every subset of the table holds states of the machine with the weight one.
spec fn plain_table<W: Semiring>(fst: FstM<W::M>, t: TableM<W::M>) -> bool {
    &&& t.max_elements is None
    &&& t.in_dist is None
    &&& forall|i: int|
        0 <= i < t.tuples.len() ==> plain_pairs::<W>(fst, (#[trigger] t.tuples[i]).pairs)
}

proof fn lemma_plain_find<W: Semiring>(fst: FstM<W::M>, t: TableM<W::M>, tuple: TupleM<W::M>)
    requires
        plain_table::<W>(fst, t),
        plain_pairs::<W>(fst, tuple.pairs),
    ensures
        plain_table::<W>(fst, find_model::<W>(t, tuple).0),
        find_model::<W>(t, tuple).1 matches Err(e) ==> e == FstError::TooManyStates
            && t.tuples.len() >= NO_STATE_ID,
{
}

proof fn lemma_plain_names<W: WeaklyDivisibleSemiring + WeightQuantize>(
    fst: FstM<W::M>,
    t: TableM<W::M>,
    groups: Seq<GroupM<W::M>>,
    delta: W::Delta,
)
    requires
        unit_is_stable::<W>(delta),
        plain_table::<W>(fst, t),
        plain_groups::<W>(fst, groups),
    ensures
        plain_table::<W>(fst, name_groups::<W, DefaultCommonDivisor>(t, groups, delta).0),
        name_groups::<W, DefaultCommonDivisor>(t, groups, delta).1 matches Err(e) ==> e
            == FstError::TooManyStates,
    decreases groups.len(),
{
    if groups.len() > 0 {
        let init = groups.drop_last();
        assert forall|i: int| 0 <= i < init.len() implies plain_pairs::<W>(
            fst,
            (#[trigger] init[i]).pairs,
        ) by {
            assert(init[i] == groups[i]);
        }
        lemma_plain_names::<W>(fst, t, init, delta);
        let (t1, r) = name_groups::<W, DefaultCommonDivisor>(t, init, delta);
        let pairs = groups[groups.len() - 1].pairs;
        assert(groups.last().pairs == pairs);
        lemma_plain_norm::<W>(fst, pairs, delta);
        if pairs.len() == 0 {
            assert(divide_all::<W>(pairs, W::zero_model(), delta)->Ok_0 =~= pairs);
        }
        let dest = norm_model::<W, DefaultCommonDivisor>(pairs, delta)->Ok_0.1;
        assert(dest == pairs);
        lemma_plain_find::<W>(fst, t1, TupleM { pairs: dest, filter_state: 0 });
    }
}

/// Determinizing an acceptor without weights fails for no other reason than that there are
/// more subsets than ids, or than the bound allows: no weight is ever in the way, however
/// many transitions of a state read the same label.
pub proof fn law_weightless_automaton_determinizes<W: WeaklyDivisibleSemiring + WeightQuantize>(
    fst: FstM<W::M>,
    delta: W::Delta,
    max_states: Option<usize>,
)
    requires
        unit_is_stable::<W>(delta),
        closed_machine(fst),
        weightless::<W>(fst),
    ensures
        det_compute::<W, DefaultCommonDivisor>(fst, None, delta, max_states).1 matches Err(e)
            ==> match e {
            FstError::TooManyStates => true,
            FstError::StateBudgetExceeded { limit } => max_states == Some(limit),
            _ => false,
        },
{
    let good = |s: DetM<W::M, W::Delta>|
        s.fst == fst && s.delta == delta && plain_table::<W>(fst, s.table);
    let allowed = |e: FstError| e == FstError::TooManyStates;
    let begin = det_begin::<W>(fst, None, delta);
    lemma_det_expansion::<W, DefaultCommonDivisor>(begin.op);
    assert forall|s: DetM<W::M, W::Delta>|
        DeterminizeFsaOp::<'_, W, DefaultCommonDivisor>::valid(s) && #[trigger] good(s) implies good(
        DeterminizeFsaOp::<'_, W, DefaultCommonDivisor>::start_model(s).0,
    ) && (DeterminizeFsaOp::<'_, W, DefaultCommonDivisor>::start_model(s).1 matches Err(e)
        ==> allowed(e)) by {
        if let Some(q) = fst.start {
            let pairs = seq![ElementM { state: q, weight: W::one_model() }];
            assert(plain_pairs::<W>(fst, pairs));
            lemma_plain_find::<W>(fst, s.table, TupleM { pairs, filter_state: q });
        }
    }
    assert forall|s: DetM<W::M, W::Delta>, id: StateId|
        #![trigger good(s), DeterminizeFsaOp::<'_, W, DefaultCommonDivisor>::trs_model(s, id)]
        DeterminizeFsaOp::<'_, W, DefaultCommonDivisor>::valid(s) && good(s)
            && DeterminizeFsaOp::<'_, W, DefaultCommonDivisor>::known(s, id) implies good(
        DeterminizeFsaOp::<'_, W, DefaultCommonDivisor>::trs_model(s, id).0,
    ) && (DeterminizeFsaOp::<'_, W, DefaultCommonDivisor>::trs_model(s, id).1 matches Err(e)
        ==> allowed(e)) by {
        let pairs = s.table.tuples[id as int].pairs;
        lemma_plain_expansion::<W>(fst, s.table, pairs, delta);
        let e = expand_pairs::<W, DefaultCommonDivisor>(fst, s.table, pairs)->Ok_0;
        lemma_plain_names::<W>(fst, s.table, e.groups, delta);
    }
    assert forall|s: DetM<W::M, W::Delta>, id: StateId|
        #![trigger good(s), DeterminizeFsaOp::<'_, W, DefaultCommonDivisor>::final_weight_model(
            s,
            id,
        )]
        DeterminizeFsaOp::<'_, W, DefaultCommonDivisor>::valid(s) && good(s)
            && DeterminizeFsaOp::<'_, W, DefaultCommonDivisor>::known(s, id) implies good(
        DeterminizeFsaOp::<'_, W, DefaultCommonDivisor>::final_weight_model(s, id).0,
    ) && (DeterminizeFsaOp::<'_, W, DefaultCommonDivisor>::final_weight_model(s, id).1 matches Err(
        e,
    ) ==> allowed(e)) by {
        let pairs = s.table.tuples[id as int].pairs;
        lemma_plain_expansion::<W>(fst, s.table, pairs, delta);
    }
    law_failure_has_a_reason::<W, DeterminizeFsaOp<'_, W, DefaultCommonDivisor>, NullCache<W>>(
        begin,
        fst.isymt,
        fst.osymt,
        max_states,
        None,
        good,
        allowed,
    );
}

/// The same of determinization with a configuration.
pub proof fn law_weightless_acceptor_determinizes<W: WeaklyDivisibleSemiring + WeightQuantize>(
    fst: FstM<W::M>,
    config: DeterminizeConfig<W::Delta>,
)
    requires
        fst.properties.has(ACCEPTOR),
        W::properties_model().has(LEFT_SEMIRING),
        unit_is_stable::<W>(config.delta),
        closed_machine(fst),
        weightless::<W>(fst),
    ensures
        determinize_model::<W>(fst, config) matches Err(e) ==> match e {
            FstError::TooManyStates => true,
            FstError::StateBudgetExceeded { limit } => config.max_states == Some(limit),
            _ => false,
        },
{
    law_weightless_automaton_determinizes::<W>(fst, config.delta, config.max_states);
}

/// The weight is its own common divisor; divided by itself it gives one; and one goes with
/// it as it should.
pub open spec fn divides_itself<
    W: WeaklyDivisibleSemiring + WeightQuantize,
    CD: CommonDivisor<W>,
>(w: W::M, delta: W::Delta) -> bool {
    let (zero, one) = (W::zero_model(), W::one_model());
    &&& W::times_model(one, w) == Ok::<W::M, FstError>(w)
    &&& CD::common_divisor_model(zero, w) == Ok::<W::M, FstError>(w)
    &&& W::divide_model(w, w, DivideType::DivideLeft) == Ok::<W::M, FstError>(one)
    &&& W::quantize_model(one, delta) == Ok::<W::M, FstError>(one)
}

/// A finite tropical weight divides itself, whatever the rounding step.
pub proof fn law_tropical_divides_itself(x: int, delta: TickDelta)
    requires
        i64::MIN <= x <= i64::MAX,
    ensures
        divides_itself::<TropicalWeight, DefaultCommonDivisor>(Some(x), delta),
{
    law_tropical_unit_is_stable(delta);
}

/// No state has two transitions with the same input label, and every weight of a
/// transition divides itself. A final weight is as it is.
pub open spec fn simple_automaton<
    W: WeaklyDivisibleSemiring + WeightQuantize,
    CD: CommonDivisor<W>,
>(
    fst: FstM<W::M>,
    delta: W::Delta,
) -> bool {
    &&& forall|v: int, i: int, j: int|
        0 <= v < fst.states.len() && 0 <= i < j < fst.states[v].trs.len() ==> (
        #[trigger] fst.states[v].trs[i]).ilabel != (#[trigger] fst.states[v].trs[j]).ilabel
    &&& forall|v: int, j: int|
        0 <= v < fst.states.len() && 0 <= j < fst.states[v].trs.len() ==> divides_itself::<W, CD>(
            (#[trigger] fst.states[v].trs[j]).weight,
            delta,
        )
    &&& forall|v: int|
        0 <= v < fst.states.len() ==> {
            let w = final_or_zero::<W>((#[trigger] fst.states[v]).final_weight);
            &&& W::times_model(W::one_model(), w) == Ok::<W::M, FstError>(w)
            &&& W::plus_model(W::zero_model(), w) == Ok::<W::M, FstError>(w)
        }
}

/// The subset is a single state of the machine with the weight one.
spec fn single<W: Semiring>(fst: FstM<W::M>, pairs: Seq<ElementM<W::M>>) -> bool {
    pairs.len() == 1 && pairs[0].weight == W::one_model() && fst.has_state(pairs[0].state)
}

/// Each group is a single state, and its label and weight are those of one of the
/// transitions.
spec fn single_groups<
    W: WeaklyDivisibleSemiring + WeightQuantize,
    CD: CommonDivisor<W>,
>(
    fst: FstM<W::M>,
    groups: Seq<GroupM<W::M>>,
    trs: Seq<TrM<W::M>>,
    delta: W::Delta,
) -> bool {
    forall|i: int|
        0 <= i < groups.len() ==> {
            let g = #[trigger] groups[i];
            &&& g.pairs.len() == 1
            &&& divides_itself::<W, CD>(g.pairs[0].weight, delta)
            &&& fst.has_state(g.pairs[0].state)
            &&& exists|j: int|
                0 <= j < trs.len() && (#[trigger] trs[j]).ilabel == g.label && trs[j].weight
                    == g.pairs[0].weight
        }
}

proof fn lemma_single_trs<
    W: WeaklyDivisibleSemiring + WeightQuantize,
    CD: CommonDivisor<W>,
>(
    fst: FstM<W::M>,
    t: TableM<W::M>,
    trs: Seq<TrM<W::M>>,
    delta: W::Delta,
)
    requires
        forall|i: int, j: int|
            0 <= i < j < trs.len() ==> (#[trigger] trs[i]).ilabel != (#[trigger] trs[j]).ilabel,
        forall|j: int|
            0 <= j < trs.len() ==> divides_itself::<W, CD>((#[trigger] trs[j]).weight, delta)
                && fst.has_state(trs[j].nextstate),
    ensures
        match expand_trs::<W, CD>(t, ExpandM::<W::M>::empty(), W::one_model(), trs) {
            Ok(after) => single_groups::<W, CD>(fst, after.groups, trs, delta),
            Err(_) => t.max_elements is Some,
        },
    decreases trs.len(),
{
    if trs.len() > 0 {
        let init = trs.drop_last();
        assert forall|i: int, j: int| 0 <= i < j < init.len() implies (#[trigger] init[i]).ilabel
            != (#[trigger] init[j]).ilabel by {
            assert(init[i] == trs[i] && init[j] == trs[j]);
        }
        assert forall|j: int| 0 <= j < init.len() implies divides_itself::<W, CD>(
            (#[trigger] init[j]).weight,
            delta,
        ) && fst.has_state(init[j].nextstate) by {
            assert(init[j] == trs[j]);
        }
        lemma_single_trs::<W, CD>(fst, t, init, delta);
        let empty = ExpandM::<W::M>::empty();
        if expand_trs::<W, CD>(t, empty, W::one_model(), trs) is Ok || t.max_elements is None {
            let sofar = expand_trs::<W, CD>(t, empty, W::one_model(), init)->Ok_0;
            let n = trs.len() - 1;
            let last = trs[n];
            assert(last == trs.last());
            let label = last.ilabel;
            let k = groups_upto(sofar.groups, label);
            lemma_upto_ranges(sofar.groups, label);
            assert(!(k > 0 && sofar.groups[k - 1].label == label)) by {
                if k > 0 {
                    let j = choose|j: int|
                        0 <= j < init.len() && (#[trigger] init[j]).ilabel == sofar.groups[k - 1].label
                            && init[j].weight == sofar.groups[k - 1].pairs[0].weight;
                    assert(init[j] == trs[j]);
                    assert(trs[j].ilabel != trs[n].ilabel);
                }
            }
            let element = ElementM { state: last.nextstate, weight: last.weight };
            let pairs = group_pairs(sofar.groups, label);
            assert(pairs =~= Seq::empty());
            assert(pairs.insert(0, element) =~= seq![element]);
            let after = expand_trs::<W, CD>(t, empty, W::one_model(), trs)->Ok_0;
            assert(after.groups == sofar.groups.insert(k, GroupM { label, pairs: seq![element] }));
            assert forall|i: int| 0 <= i < after.groups.len() implies {
                let g = #[trigger] after.groups[i];
                &&& g.pairs.len() == 1
                &&& divides_itself::<W, CD>(g.pairs[0].weight, delta)
                &&& fst.has_state(g.pairs[0].state)
                &&& exists|j: int|
                    0 <= j < trs.len() && (#[trigger] trs[j]).ilabel == g.label && trs[j].weight
                        == g.pairs[0].weight
            } by {
                if i == k {
                    assert(trs[n].ilabel == label && trs[n].weight == element.weight);
                } else {
                    let h = if i < k {
                        sofar.groups[i]
                    } else {
                        sofar.groups[i - 1]
                    };
                    assert(after.groups[i] == h);
                    let j = choose|j: int|
                        0 <= j < init.len() && (#[trigger] init[j]).ilabel == h.label && init[j].weight
                            == h.pairs[0].weight;
                    assert(trs[j].ilabel == h.label && trs[j].weight == h.pairs[0].weight);
                }
            }
        }
    }
}

/// Each of the distances can be multiplied with one and added to zero.
pub open spec fn distances_add<W: Semiring>(in_dist: Seq<W::M>) -> bool {
    forall|q: StateId| {
        let d = #[trigger] distance_of::<W>(in_dist, q);
        W::times_model(W::one_model(), d) matches Ok(e) && W::plus_model(W::zero_model(), e) is Ok
    }
}

/// Every subset of the table is a single state with the weight one, and its mark is that
/// of the start or of the others.
spec fn single_table<W: Semiring>(fst: FstM<W::M>, t: TableM<W::M>) -> bool {
    &&& t.max_elements is None
    &&& t.in_dist matches Some(d) ==> distances_add::<W>(d)
    &&& forall|i: int|
        0 <= i < t.tuples.len() ==> single::<W>(fst, (#[trigger] t.tuples[i]).pairs) && (
        t.tuples[i].filter_state == 0 || (fst.start == Some(t.tuples[i].filter_state)
            && t.tuples[i].pairs[0].state == t.tuples[i].filter_state))
}

/// A table of single states has at most one entry more than there are states.
proof fn lemma_single_table_len<W: Semiring>(fst: FstM<W::M>, t: TableM<W::M>)
    requires
        single_table::<W>(fst, t),
        t.tuples.no_duplicates(),
    ensures
        t.tuples.len() <= fst.states.len() + 1,
{
    let n = fst.states.len() as int;
    let places = Seq::new(
        t.tuples.len(),
        |i: int|
            if t.tuples[i].filter_state == 0 {
                t.tuples[i].pairs[0].state as int
            } else {
                n
            },
    );
    assert(places.no_duplicates()) by {
        assert forall|i: int, j: int|
            0 <= i < places.len() && 0 <= j < places.len() && i != j implies places[i]
            != places[j] by {
            assert(t.tuples[i] != t.tuples[j]);
            assert(single::<W>(fst, t.tuples[i].pairs) && single::<W>(fst, t.tuples[j].pairs));
            if places[i] == places[j] {
                assert(t.tuples[i].pairs =~= t.tuples[j].pairs);
            }
        }
    }
    places.unique_seq_to_set();
    vstd::set_lib::lemma_int_range(0, n + 1);
    let range = vstd::set_lib::set_int_range(0, n + 1);
    assert(places.to_set().subset_of(range)) by {
        assert forall|x: int| places.to_set().contains(x) implies range.contains(x) by {
            let i = choose|i: int| 0 <= i < places.len() && places[i] == x;
            assert(single::<W>(fst, t.tuples[i].pairs));
        }
    }
    vstd::set_lib::lemma_len_subset(places.to_set(), range);
}

proof fn lemma_single_find<W: Semiring>(fst: FstM<W::M>, t: TableM<W::M>, tuple: TupleM<W::M>)
    requires
        t.valid(),
        fst.states.len() + 1 < NO_STATE_ID,
        single_table::<W>(fst, t),
        single::<W>(fst, tuple.pairs),
        tuple.filter_state == 0 || (fst.start == Some(tuple.filter_state) && tuple.pairs[0].state
            == tuple.filter_state),
    ensures
        find_model::<W>(t, tuple).0.valid(),
        single_table::<W>(fst, find_model::<W>(t, tuple).0),
        find_model::<W>(t, tuple).1 is Ok,
{
    lemma_find::<W>(t, tuple);
    lemma_single_table_len::<W>(fst, t);
    if let Some(d) = t.in_dist {
        let pairs = tuple.pairs;
        reveal_with_fuel(subset_distance, 2);
        assert(pairs.drop_last() =~= Seq::empty());
        assert(pairs.last() == pairs[0]);
        assert(W::times_model(W::one_model(), distance_of::<W>(d, pairs[0].state)) is Ok);
    }
}

proof fn lemma_single_names<
    W: WeaklyDivisibleSemiring + WeightQuantize,
    CD: CommonDivisor<W>,
>(
    fst: FstM<W::M>,
    t: TableM<W::M>,
    groups: Seq<GroupM<W::M>>,
    trs: Seq<TrM<W::M>>,
    delta: W::Delta,
)
    requires
        t.valid(),
        fst.states.len() + 1 < NO_STATE_ID,
        single_table::<W>(fst, t),
        single_groups::<W, CD>(fst, groups, trs, delta),
    ensures
        name_groups::<W, CD>(t, groups, delta).0.valid(),
        single_table::<W>(fst, name_groups::<W, CD>(t, groups, delta).0),
        name_groups::<W, CD>(t, groups, delta).1 is Ok,
    decreases groups.len(),
{
    if groups.len() > 0 {
        let init = groups.drop_last();
        assert(forall|i: int| 0 <= i < init.len() ==> #[trigger] init[i] == groups[i]);
        lemma_single_names::<W, CD>(fst, t, init, trs, delta);
        let (t1, r) = name_groups::<W, CD>(t, init, delta);
        let g = groups[groups.len() - 1];
        assert(groups.last() == g);
        let pairs = g.pairs;
        let w = pairs[0].weight;
        let dest = seq![ElementM { state: pairs[0].state, weight: W::one_model() }];
        assert(pairs.drop_last() =~= Seq::empty());
        assert(pairs.last() == pairs[0]);
        reveal_with_fuel(divisor_of, 2);
        reveal_with_fuel(divide_all, 2);
        reveal_with_fuel(merge_equal, 2);
        assert(merge_equal::<W>(pairs)->Ok_0 =~= pairs);
        assert(divisor_of::<W, CD>(pairs) == Ok::<W::M, FstError>(w));
        assert(residual::<W>(w, w, delta) == Ok::<W::M, FstError>(W::one_model()));
        assert(divide_all::<W>(pairs, w, delta)->Ok_0 =~= dest);
        lemma_single_find::<W>(fst, t1, TupleM { pairs: dest, filter_state: 0 });
    }
}

/// The weights of one machine are weights of the other: those of transitions of
/// transitions, and final weights final weights.
pub open spec fn weights_from<M>(fst: FstM<M>, out: FstM<M>) -> bool {
    &&& forall|v: int, j: int|
        0 <= v < out.states.len() && 0 <= j < out.states[v].trs.len() ==> is_tr_weight(
            fst,
            (#[trigger] out.states[v].trs[j]).weight,
        )
    &&& forall|v: int|
        0 <= v < out.states.len() ==> match (#[trigger] out.states[v]).final_weight {
            Some(w) => is_final_weight(fst, w),
            None => true,
        }
}

/// Some transition has the weight.
pub open spec fn is_tr_weight<M>(fst: FstM<M>, w: M) -> bool {
    exists|v: int, j: int|
        0 <= v < fst.states.len() && 0 <= j < fst.states[v].trs.len() && (
        #[trigger] fst.states[v].trs[j]).weight == w
}

/// Some state has the final weight.
pub open spec fn is_final_weight<M>(fst: FstM<M>, w: M) -> bool {
    exists|v: int|
        0 <= v < fst.states.len() && (#[trigger] fst.states[v]).final_weight == Some(w)
}

/// An automaton in which no state has two transitions with the same input label, and whose
/// weights divide themselves, can be determinized, with distances or without. What comes
/// out has at most one state more, for the start state may come twice; and without
/// distances it comes out with a bound of so many states too.
pub proof fn law_simple_automaton_determinizes<
    W: WeaklyDivisibleSemiring + WeightQuantize,
    CD: CommonDivisor<W>,
>(
    fst: FstM<W::M>,
    in_dist: Option<Seq<W::M>>,
    delta: W::Delta,
    max_states: Option<usize>,
)
    requires
        closed_machine(fst),
        in_dist matches Some(d) ==> distances_add::<W>(d),
        in_dist is Some ==> max_states is None,
        simple_automaton::<W, CD>(fst, delta),
        fst.states.len() + 1 < NO_STATE_ID,
        max_states matches Some(bound) ==> fst.states.len() < bound,
    ensures
        det_compute::<W, CD>(fst, in_dist, delta, max_states).1 matches Ok(out)
            && out.states.len() <= fst.states.len() + 1 && weights_from(fst, out),
{
    let good = |s: DetM<W::M, W::Delta>|
        s.fst == fst && s.delta == delta && single_table::<W>(fst, s.table);
    let allowed = |e: FstError| false;
    let begin = det_begin::<W>(fst, in_dist, delta);
    lemma_det_expansion::<W, CD>(begin.op);
    assert forall|s: DetM<W::M, W::Delta>|
        DeterminizeFsaOp::<'_, W, CD>::valid(s) && #[trigger] good(s) implies good(
        DeterminizeFsaOp::<'_, W, CD>::start_model(s).0,
    ) && DeterminizeFsaOp::<'_, W, CD>::start_model(s).1 is Ok by {
        if let Some(q) = fst.start {
            let pairs = seq![ElementM { state: q, weight: W::one_model() }];
            assert(single::<W>(fst, pairs));
            lemma_single_find::<W>(fst, s.table, TupleM { pairs, filter_state: q });
        }
    }
    assert forall|s: DetM<W::M, W::Delta>, id: StateId|
        #![trigger good(s), DeterminizeFsaOp::<'_, W, CD>::trs_model(s, id)]
        DeterminizeFsaOp::<'_, W, CD>::valid(s) && good(s)
            && DeterminizeFsaOp::<'_, W, CD>::known(s, id) implies good(
        DeterminizeFsaOp::<'_, W, CD>::trs_model(s, id).0,
    ) && DeterminizeFsaOp::<'_, W, CD>::trs_model(s, id).1 is Ok by {
        let pairs = s.table.tuples[id as int].pairs;
        assert(single::<W>(fst, pairs));
        let q = pairs[0].state as int;
        let trs = fst.states[q].trs;
        assert forall|i: int, j: int| 0 <= i < j < trs.len() implies (#[trigger] trs[i]).ilabel != (
        #[trigger] trs[j]).ilabel by {
            assert(fst.states[q].trs[i].ilabel != fst.states[q].trs[j].ilabel);
        }
        assert forall|j: int| 0 <= j < trs.len() implies divides_itself::<W, CD>(
            (#[trigger] trs[j]).weight,
            delta,
        ) && fst.has_state(trs[j].nextstate) by {
            assert(divides_itself::<W, CD>(fst.states[q].trs[j].weight, delta));
        }
        lemma_single_trs::<W, CD>(fst, s.table, trs, delta);
        reveal_with_fuel(expand_pairs, 2);
        assert(pairs.drop_last() =~= Seq::empty());
        assert(pairs.last() == pairs[0]);
        let e = expand_pairs::<W, CD>(fst, s.table, pairs)->Ok_0;
        lemma_single_names::<W, CD>(fst, s.table, e.groups, trs, delta);
    }
    assert forall|s: DetM<W::M, W::Delta>, id: StateId|
        #![trigger good(s), DeterminizeFsaOp::<'_, W, CD>::final_weight_model(
            s,
            id,
        )]
        DeterminizeFsaOp::<'_, W, CD>::valid(s) && good(s)
            && DeterminizeFsaOp::<'_, W, CD>::known(s, id) implies good(
        DeterminizeFsaOp::<'_, W, CD>::final_weight_model(s, id).0,
    ) && DeterminizeFsaOp::<'_, W, CD>::final_weight_model(s, id).1 is Ok by {
        let pairs = s.table.tuples[id as int].pairs;
        assert(single::<W>(fst, pairs));
        reveal_with_fuel(subset_final, 2);
        assert(pairs.drop_last() =~= Seq::empty());
        assert(pairs.last() == pairs[0]);
        assert(fst.states[pairs[0].state as int].final_weight
            == fst.states[pairs[0].state as int].final_weight);
    }
    law_failure_has_a_reason::<W, DeterminizeFsaOp<'_, W, CD>, NullCache<W>>(
        begin,
        fst.isymt,
        fst.osymt,
        None,
        None,
        good,
        allowed,
    );
    law_machine_stays_valid::<W, DeterminizeFsaOp<'_, W, CD>, NullCache<W>>(
        begin,
        fst.isymt,
        fst.osymt,
        None,
        None,
        good,
    );
    let (l, r) = det_compute::<W, CD>(fst, in_dist, delta, None);
    lemma_det_output::<W, CD>(fst, in_dist, delta, None);
    lemma_single_table_len::<W>(fst, l.op.table);
    let out = r->Ok_0;
    assert forall|v: int| 0 <= v < out.states.len() implies (forall|j: int|
        0 <= j < out.states[v].trs.len() ==> is_tr_weight(
            fst,
            (#[trigger] out.states[v].trs[j]).weight,
        )) && match (#[trigger] out.states[v]).final_weight {
        Some(w) => is_final_weight(fst, w),
        None => true,
    } by {
        let state = out.states[v];
        assert(written_for::<W, CD>(l.op, v as StateId, state));
        let (t, e) = choose|t: TableM<W::M>, e: ExpandM<W::M>| #[trigger]
            stands_for::<W, CD>(l.op, t, e, v as StateId, state);
        let pairs = l.op.table.tuples[v].pairs;
        assert(single::<W>(fst, pairs));
        let q = pairs[0].state as int;
        let trs = fst.states[q].trs;
        assert forall|i: int, j: int| 0 <= i < j < trs.len() implies (#[trigger] trs[i]).ilabel != (
        #[trigger] trs[j]).ilabel by {
            assert(fst.states[q].trs[i].ilabel != fst.states[q].trs[j].ilabel);
        }
        assert forall|j: int| 0 <= j < trs.len() implies divides_itself::<W, CD>(
            (#[trigger] trs[j]).weight,
            delta,
        ) && fst.has_state(trs[j].nextstate) by {
            assert(divides_itself::<W, CD>(fst.states[q].trs[j].weight, delta));
        }
        lemma_single_trs::<W, CD>(fst, t, trs, delta);
        reveal_with_fuel(expand_pairs, 2);
        reveal_with_fuel(subset_final, 2);
        assert(pairs.drop_last() =~= Seq::empty());
        assert(pairs.last() == pairs[0]);
        assert forall|j: int| 0 <= j < state.trs.len() implies is_tr_weight(
            fst,
            (#[trigger] state.trs[j]).weight,
        ) by {
            let g = e.groups[j];
            reveal_with_fuel(divisor_of, 2);
            assert(g.pairs.drop_last() =~= Seq::empty());
            assert(g.pairs.last() == g.pairs[0]);
            let i = choose|i: int|
                0 <= i < trs.len() && (#[trigger] trs[i]).ilabel == g.label && trs[i].weight
                    == g.pairs[0].weight;
            assert(fst.states[q].trs[i].weight == state.trs[j].weight);
        }
        assert(fst.states[q].final_weight == fst.states[q].final_weight);
    }
    assert(weights_from(fst, out)) by {
        assert forall|v: int, j: int|
            0 <= v < out.states.len() && 0 <= j < out.states[v].trs.len() implies is_tr_weight(
            fst,
            (#[trigger] out.states[v].trs[j]).weight,
        ) by {
            assert(out.states[v] == out.states[v]);
        }
    }
    if let Some(bound) = max_states {
        law_determinize_fsa_bound_decides::<W, CD>(fst, delta, bound);
    }
}

/// An acceptor in which no state has two transitions with the same label, and whose weights
/// divide themselves, can be determinized.
pub proof fn law_simple_acceptor_determinizes<W: WeaklyDivisibleSemiring + WeightQuantize>(
    fst: FstM<W::M>,
    config: DeterminizeConfig<W::Delta>,
)
    requires
        fst.properties.has(ACCEPTOR),
        W::properties_model().has(LEFT_SEMIRING),
        closed_machine(fst),
        simple_automaton::<W, DefaultCommonDivisor>(fst, config.delta),
        fst.states.len() + 1 < NO_STATE_ID,
        config.max_states matches Some(bound) ==> fst.states.len() < bound,
    ensures
        determinize_model::<W>(fst, config) matches Ok(out) && out.states.len()
            <= fst.states.len() + 1,
{
    law_simple_automaton_determinizes::<W, DefaultCommonDivisor>(
        fst,
        None,
        config.delta,
        config.max_states,
    );
}

/// The same with distances, as long as each of them can be multiplied with one and added to
/// zero.
pub proof fn law_simple_acceptor_determinizes_with_distance<
    W: WeaklyDivisibleSemiring + WeightQuantize,
>(fst: FstM<W::M>, in_dist: Seq<W::M>, delta: W::Delta)
    requires
        fst.properties.has(ACCEPTOR),
        W::properties_model().has(LEFT_SEMIRING),
        closed_machine(fst),
        simple_automaton::<W, DefaultCommonDivisor>(fst, delta),
        distances_add::<W>(in_dist),
        fst.states.len() + 1 < NO_STATE_ID,
    ensures
        with_distance_model::<W>(fst, in_dist, delta) is Ok,
{
    law_simple_automaton_determinizes::<W, DefaultCommonDivisor>(fst, Some(in_dist), delta, None);
}

} // verus!
