//! Determinizing a machine whose weights never get in the way.

use crate::determinize::determinize_fsa::{det_begin, det_compute};
use crate::determinize::determinize_fsa_op::{
    divide_all, divisor_of, expand_one, expand_pairs, expand_trs, final_or_zero, group_pairs,
    groups_upto, has_pair, merge_equal, name_groups, norm_model, pairs_upto, residual, subset_final,
    with_group, DetM, DeterminizeFsaOp, ExpandM, GroupM,
};
use crate::determinize::divisors::CommonDivisor;
use crate::determinize::element::{ElementM, TupleM};
use crate::determinize::laws::{lemma_det_expansion, lemma_det_output, stands_for, written_for};
use crate::determinize::state_table::{find_model, TableM};
use crate::error::FstError;
use crate::fst::tr::{Label, StateId, TrM};
use crate::fst::vector_fst::FstM;
use crate::lazy::fst_op::FstOp;
use crate::lazy::laws::{closed_machine, law_machine_stays_valid};
use crate::lazy::null_cache::NullCache;
use crate::lazy::reach_laws::law_failure_has_a_reason;
use crate::semirings::semiring::{DivideType, Semiring, WeaklyDivisibleSemiring, WeightQuantize};
use vstd::prelude::*;

verus! {

/// The result, if there is one, has the property, and the error, if there is one, is
/// allowed.
pub open spec fn gives<M>(
    r: Result<M, FstError>,
    good: spec_fn(M) -> bool,
    allowed: spec_fn(FstError) -> bool,
) -> bool {
    match r {
        Ok(c) => good(c),
        Err(e) => allowed(e),
    }
}

/// What is computed from lean weights is lean, or fails with an error that is allowed; and
/// zero goes with them as it should.
pub open spec fn stays_lean<G: WeaklyDivisibleSemiring + WeightQuantize, CD: CommonDivisor<G>>(
    lean: spec_fn(G::M) -> bool,
    divisor: spec_fn(G::M) -> bool,
    allowed: spec_fn(FstError) -> bool,
    delta: G::Delta,
) -> bool {
    let (zero, one) = (G::zero_model(), G::one_model());
    &&& lean(one)
    &&& G::plus_model(zero, zero) == Ok::<G::M, FstError>(zero)
    &&& forall|a: G::M|
        lean(a) ==> #[trigger] G::times_model(a, zero) == Ok::<G::M, FstError>(zero)
    &&& forall|a: G::M|
        lean(a) ==> #[trigger] G::plus_model(zero, a) == Ok::<G::M, FstError>(a)
    &&& forall|a: G::M|
        lean(a) ==> #[trigger] G::plus_model(a, zero) == Ok::<G::M, FstError>(a)
    &&& forall|a: G::M|
        lean(a) ==> gives(#[trigger] CD::common_divisor_model(zero, a), divisor, allowed)
    &&& forall|a: G::M|
        lean(a) ==> gives(#[trigger] G::quantize_model(a, delta), lean, allowed)
    &&& forall|a: G::M, b: G::M|
        lean(a) && lean(b) ==> gives(#[trigger] G::times_model(a, b), lean, allowed)
    &&& forall|a: G::M, b: G::M|
        lean(a) && lean(b) ==> gives(#[trigger] G::plus_model(a, b), lean, allowed)
    &&& forall|d: G::M, a: G::M|
        divisor(d) && lean(a) ==> gives(
            #[trigger] CD::common_divisor_model(d, a),
            divisor,
            allowed,
        )
    &&& forall|d: G::M, a: G::M|
        divisor(d) && lean(a) ==> gives(
            #[trigger] G::divide_model(a, d, DivideType::DivideLeft),
            lean,
            allowed,
        )
}

/// Every weight of the machine is lean.
pub open spec fn lean_machine<M>(fst: FstM<M>, lean: spec_fn(M) -> bool) -> bool {
    &&& forall|v: int, j: int|
        0 <= v < fst.states.len() && 0 <= j < fst.states[v].trs.len() ==> lean(
            (#[trigger] fst.states[v].trs[j]).weight,
        )
    &&& forall|v: int|
        0 <= v < fst.states.len() ==> match (#[trigger] fst.states[v]).final_weight {
            Some(w) => lean(w),
            None => true,
        }
}

spec fn lean_pairs<M>(
    fst: FstM<M>,
    lean: spec_fn(M) -> bool,
    pairs: Seq<ElementM<M>>,
) -> bool {
    forall|i: int|
        0 <= i < pairs.len() ==> lean((#[trigger] pairs[i]).weight) && fst.has_state(pairs[i].state)
}

spec fn lean_groups<M>(
    fst: FstM<M>,
    lean: spec_fn(M) -> bool,
    groups: Seq<GroupM<M>>,
) -> bool {
    forall|i: int|
        0 <= i < groups.len() ==> (#[trigger] groups[i]).pairs.len() > 0 && lean_pairs(
            fst,
            lean,
            groups[i].pairs,
        )
}

pub proof fn lemma_upto_ranges<M>(groups: Seq<GroupM<M>>, label: Label)
    ensures
        0 <= groups_upto(groups, label) <= groups.len(),
    decreases groups.len(),
{
    if groups.len() > 0 {
        lemma_upto_ranges(groups.drop_last(), label);
    }
}

pub proof fn lemma_pairs_upto_range<M>(pairs: Seq<ElementM<M>>, state: StateId)
    ensures
        0 <= pairs_upto(pairs, state) <= pairs.len(),
    decreases pairs.len(),
{
    if pairs.len() > 0 {
        lemma_pairs_upto_range(pairs.drop_last(), state);
    }
}

proof fn lemma_lean_group<M>(
    fst: FstM<M>,
    lean: spec_fn(M) -> bool,
    groups: Seq<GroupM<M>>,
    label: Label,
    pairs: Seq<ElementM<M>>,
)
    requires
        lean_groups(fst, lean, groups),
    ensures
        lean_pairs(fst, lean, group_pairs(groups, label)),
        pairs.len() > 0 && lean_pairs(fst, lean, pairs) ==> lean_groups(
            fst,
            lean,
            with_group(groups, label, pairs),
        ),
{
    lemma_upto_ranges(groups, label);
    let after = with_group(groups, label, pairs);
    let k = groups_upto(groups, label);
    if pairs.len() > 0 && lean_pairs(fst, lean, pairs) {
        assert forall|i: int| 0 <= i < after.len() implies (#[trigger] after[i]).pairs.len() > 0
            && lean_pairs(fst, lean, after[i].pairs) by {
            if k > 0 && groups[k - 1].label == label {
                if i != k - 1 {
                    assert(after[i] == groups[i]);
                }
            } else if i < k {
                assert(after[i] == groups[i]);
            } else if i > k {
                assert(after[i] == groups[i - 1]);
            }
        }
    }
}

/// Everything that the lemmas below are about.
spec fn lean_setting<G: WeaklyDivisibleSemiring + WeightQuantize, CD: CommonDivisor<G>>(
    fst: FstM<G::M>,
    lean: spec_fn(G::M) -> bool,
    divisor: spec_fn(G::M) -> bool,
    allowed: spec_fn(FstError) -> bool,
    delta: G::Delta,
) -> bool {
    &&& stays_lean::<G, CD>(lean, divisor, allowed, delta)
    &&& closed_machine(fst)
    &&& lean_machine(fst, lean)
}

proof fn lemma_lean_one<G: WeaklyDivisibleSemiring + WeightQuantize, CD: CommonDivisor<G>>(
    fst: FstM<G::M>,
    lean: spec_fn(G::M) -> bool,
    divisor: spec_fn(G::M) -> bool,
    allowed: spec_fn(FstError) -> bool,
    delta: G::Delta,
    t: TableM<G::M>,
    e: ExpandM<G::M>,
    label: Label,
    state: StateId,
    weight: G::M,
)
    requires
        lean_setting::<G, CD>(fst, lean, divisor, allowed, delta),
        lean_groups(fst, lean, e.groups),
        lean(weight),
        fst.has_state(state),
    ensures
        match expand_one::<G, CD>(t, e, label, state, weight) {
            Ok(after) => lean_groups(fst, lean, after.groups),
            Err(f) => allowed(f) || t.max_elements is Some,
        },
{
    lemma_lean_group(fst, lean, e.groups, label, Seq::empty());
    let pairs = group_pairs(e.groups, label);
    let k = pairs_upto(pairs, state);
    lemma_pairs_upto_range(pairs, state);
    if CD::merge_before_divisor_model() && has_pair(pairs, state) {
        assert(lean(pairs[k - 1].weight));
        if let Ok(sum) = G::plus_model(pairs[k - 1].weight, weight) {
            let more = pairs.update(k - 1, ElementM { state, weight: sum });
            assert(lean_pairs(fst, lean, more));
            lemma_lean_group(fst, lean, e.groups, label, more);
        }
    } else {
        let more = pairs.insert(k, ElementM { state, weight });
        assert forall|i: int| 0 <= i < more.len() implies lean((#[trigger] more[i]).weight)
            && fst.has_state(more[i].state) by {
            if i < k {
                assert(more[i] == pairs[i]);
            } else if i > k {
                assert(more[i] == pairs[i - 1]);
            }
        }
        lemma_lean_group(fst, lean, e.groups, label, more);
    }
}

proof fn lemma_lean_trs<G: WeaklyDivisibleSemiring + WeightQuantize, CD: CommonDivisor<G>>(
    fst: FstM<G::M>,
    lean: spec_fn(G::M) -> bool,
    divisor: spec_fn(G::M) -> bool,
    allowed: spec_fn(FstError) -> bool,
    delta: G::Delta,
    t: TableM<G::M>,
    e: ExpandM<G::M>,
    weight: G::M,
    trs: Seq<TrM<G::M>>,
)
    requires
        lean_setting::<G, CD>(fst, lean, divisor, allowed, delta),
        lean_groups(fst, lean, e.groups),
        lean(weight),
        forall|j: int|
            0 <= j < trs.len() ==> lean((#[trigger] trs[j]).weight) && fst.has_state(
                trs[j].nextstate,
            ),
    ensures
        match expand_trs::<G, CD>(t, e, weight, trs) {
            Ok(after) => lean_groups(fst, lean, after.groups),
            Err(f) => allowed(f) || t.max_elements is Some,
        },
    decreases trs.len(),
{
    if trs.len() > 0 {
        let init = trs.drop_last();
        assert(forall|j: int| 0 <= j < init.len() ==> #[trigger] init[j] == trs[j]);
        lemma_lean_trs::<G, CD>(fst, lean, divisor, allowed, delta, t, e, weight, init);
        if let Ok(sofar) = expand_trs::<G, CD>(t, e, weight, init) {
            let last = trs[trs.len() - 1];
            assert(last == trs.last());
            assert(lean(last.weight));
            assert(gives(G::times_model(weight, last.weight), lean, allowed));
            if let Ok(w) = G::times_model(weight, last.weight) {
                lemma_lean_one::<G, CD>(
                    fst,
                    lean,
                    divisor,
                    allowed,
                    delta,
                    t,
                    sofar,
                    last.ilabel,
                    last.nextstate,
                    w,
                );
            }
        }
    }
}

proof fn lemma_lean_expansion<G: WeaklyDivisibleSemiring + WeightQuantize, CD: CommonDivisor<G>>(
    fst: FstM<G::M>,
    lean: spec_fn(G::M) -> bool,
    divisor: spec_fn(G::M) -> bool,
    allowed: spec_fn(FstError) -> bool,
    delta: G::Delta,
    t: TableM<G::M>,
    pairs: Seq<ElementM<G::M>>,
)
    requires
        lean_setting::<G, CD>(fst, lean, divisor, allowed, delta),
        lean_pairs(fst, lean, pairs),
    ensures
        match expand_pairs::<G, CD>(fst, t, pairs) {
            Ok(e) => lean_groups(fst, lean, e.groups),
            Err(f) => allowed(f) || t.max_elements is Some,
        },
        match subset_final::<G>(fst, pairs) {
            Ok(w) => w == G::zero_model() || lean(w),
            Err(f) => allowed(f),
        },
    decreases pairs.len(),
{
    if pairs.len() > 0 {
        let init = pairs.drop_last();
        assert(forall|i: int| 0 <= i < init.len() ==> #[trigger] init[i] == pairs[i]);
        lemma_lean_expansion::<G, CD>(fst, lean, divisor, allowed, delta, t, init);
        let last = pairs[pairs.len() - 1];
        assert(last == pairs.last());
        let q = last.state as int;
        let trs = fst.states[q].trs;
        if let Ok(e) = expand_pairs::<G, CD>(fst, t, init) {
            assert forall|j: int| 0 <= j < trs.len() implies lean((#[trigger] trs[j]).weight)
                && fst.has_state(trs[j].nextstate) by {
                assert(lean(fst.states[q].trs[j].weight));
            }
            lemma_lean_trs::<G, CD>(fst, lean, divisor, allowed, delta, t, e, last.weight, trs);
        }
        if let Ok(sum) = subset_final::<G>(fst, init) {
            let f = final_or_zero::<G>(fst.states[q].final_weight);
            assert(f == G::zero_model() || lean(f)) by {
                assert(fst.states[q].final_weight == fst.states[q].final_weight);
            }
            assert(lean(last.weight));
            if let Ok(through) = G::times_model(last.weight, f) {
                assert(through == G::zero_model() || lean(through));
            }
        }
    }
}

proof fn lemma_lean_divisor<G: WeaklyDivisibleSemiring + WeightQuantize, CD: CommonDivisor<G>>(
    fst: FstM<G::M>,
    lean: spec_fn(G::M) -> bool,
    divisor: spec_fn(G::M) -> bool,
    allowed: spec_fn(FstError) -> bool,
    delta: G::Delta,
    pairs: Seq<ElementM<G::M>>,
)
    requires
        stays_lean::<G, CD>(lean, divisor, allowed, delta),
        lean_pairs(fst, lean, pairs),
    ensures
        match divisor_of::<G, CD>(pairs) {
            Ok(d) => if pairs.len() > 0 {
                divisor(d)
            } else {
                d == G::zero_model()
            },
            Err(e) => allowed(e),
        },
        match merge_equal::<G>(pairs) {
            Ok(m) => lean_pairs(fst, lean, m) && (pairs.len() > 0 ==> m.len() > 0),
            Err(e) => allowed(e),
        },
    decreases pairs.len(),
{
    if pairs.len() > 0 {
        let init = pairs.drop_last();
        assert(forall|i: int| 0 <= i < init.len() ==> #[trigger] init[i] == pairs[i]);
        lemma_lean_divisor::<G, CD>(fst, lean, divisor, allowed, delta, init);
        let last = pairs[pairs.len() - 1];
        assert(last == pairs.last());
        assert(lean(last.weight));
        if let Ok(m) = merge_equal::<G>(init) {
            if m.len() > 0 {
                assert(lean(m[m.len() - 1].weight));
            }
        }
    }
}

proof fn lemma_lean_quotients<G: WeaklyDivisibleSemiring + WeightQuantize, CD: CommonDivisor<G>>(
    fst: FstM<G::M>,
    lean: spec_fn(G::M) -> bool,
    divisor: spec_fn(G::M) -> bool,
    allowed: spec_fn(FstError) -> bool,
    delta: G::Delta,
    pairs: Seq<ElementM<G::M>>,
    d: G::M,
)
    requires
        stays_lean::<G, CD>(lean, divisor, allowed, delta),
        lean_pairs(fst, lean, pairs),
        divisor(d),
    ensures
        match divide_all::<G>(pairs, d, delta) {
            Ok(m) => lean_pairs(fst, lean, m),
            Err(e) => allowed(e),
        },
    decreases pairs.len(),
{
    if pairs.len() > 0 {
        let init = pairs.drop_last();
        assert(forall|i: int| 0 <= i < init.len() ==> #[trigger] init[i] == pairs[i]);
        lemma_lean_quotients::<G, CD>(fst, lean, divisor, allowed, delta, init, d);
        let last = pairs[pairs.len() - 1];
        assert(last == pairs.last());
        assert(lean(last.weight));
        assert(gives(G::divide_model(last.weight, d, DivideType::DivideLeft), lean, allowed));
        assert(gives(residual::<G>(last.weight, d, delta), lean, allowed));
    }
}

proof fn lemma_lean_norm<G: WeaklyDivisibleSemiring + WeightQuantize, CD: CommonDivisor<G>>(
    fst: FstM<G::M>,
    lean: spec_fn(G::M) -> bool,
    divisor: spec_fn(G::M) -> bool,
    allowed: spec_fn(FstError) -> bool,
    delta: G::Delta,
    pairs: Seq<ElementM<G::M>>,
)
    requires
        stays_lean::<G, CD>(lean, divisor, allowed, delta),
        lean_pairs(fst, lean, pairs),
        pairs.len() > 0,
    ensures
        match norm_model::<G, CD>(pairs, delta) {
            Ok((d, dest)) => divisor(d) && lean_pairs(fst, lean, dest),
            Err(e) => allowed(e),
        },
{
    lemma_lean_divisor::<G, CD>(fst, lean, divisor, allowed, delta, pairs);
    if let Ok(d) = divisor_of::<G, CD>(pairs) {
        lemma_lean_quotients::<G, CD>(fst, lean, divisor, allowed, delta, pairs, d);
        if let Ok(m) = merge_equal::<G>(pairs) {
            lemma_lean_quotients::<G, CD>(fst, lean, divisor, allowed, delta, m, d);
        }
    }
}

/// Every subset of the table is lean.
spec fn lean_table<M>(fst: FstM<M>, lean: spec_fn(M) -> bool, t: TableM<M>) -> bool {
    &&& t.max_elements is None
    &&& t.in_dist is None
    &&& forall|i: int|
        0 <= i < t.tuples.len() ==> lean_pairs(fst, lean, (#[trigger] t.tuples[i]).pairs)
}

proof fn lemma_lean_find<G: Semiring>(
    fst: FstM<G::M>,
    lean: spec_fn(G::M) -> bool,
    t: TableM<G::M>,
    tuple: TupleM<G::M>,
)
    requires
        lean_table(fst, lean, t),
        lean_pairs(fst, lean, tuple.pairs),
    ensures
        lean_table(fst, lean, find_model::<G>(t, tuple).0),
        find_model::<G>(t, tuple).1 matches Err(e) ==> e == FstError::TooManyStates,
{
}

proof fn lemma_lean_names<G: WeaklyDivisibleSemiring + WeightQuantize, CD: CommonDivisor<G>>(
    fst: FstM<G::M>,
    lean: spec_fn(G::M) -> bool,
    divisor: spec_fn(G::M) -> bool,
    allowed: spec_fn(FstError) -> bool,
    delta: G::Delta,
    t: TableM<G::M>,
    groups: Seq<GroupM<G::M>>,
)
    requires
        stays_lean::<G, CD>(lean, divisor, allowed, delta),
        lean_table(fst, lean, t),
        lean_groups(fst, lean, groups),
    ensures
        lean_table(fst, lean, name_groups::<G, CD>(t, groups, delta).0),
        name_groups::<G, CD>(t, groups, delta).1 matches Err(e) ==> allowed(e) || e
            == FstError::TooManyStates,
    decreases groups.len(),
{
    if groups.len() > 0 {
        let init = groups.drop_last();
        assert(forall|i: int| 0 <= i < init.len() ==> #[trigger] init[i] == groups[i]);
        lemma_lean_names::<G, CD>(fst, lean, divisor, allowed, delta, t, init);
        let t1 = name_groups::<G, CD>(t, init, delta).0;
        let g = groups[groups.len() - 1];
        assert(groups.last() == g);
        lemma_lean_norm::<G, CD>(fst, lean, divisor, allowed, delta, g.pairs);
        if let Ok((d, dest)) = norm_model::<G, CD>(g.pairs, delta) {
            lemma_lean_find::<G>(fst, lean, t1, TupleM { pairs: dest, filter_state: 0 });
        }
    }
}

/// If what is computed from lean weights is lean, an automaton with lean weights can be
/// determinized, unless computing with them fails with an error that is allowed, there are
/// more subsets than ids, or than the bound allows. The weights of its transitions are then common
/// divisors, and its final weights lean.
pub proof fn law_lean_automaton_determinizes<
    G: WeaklyDivisibleSemiring + WeightQuantize,
    CD: CommonDivisor<G>,
>(
    fst: FstM<G::M>,
    delta: G::Delta,
    max_states: Option<usize>,
    lean: spec_fn(G::M) -> bool,
    divisor: spec_fn(G::M) -> bool,
    allowed: spec_fn(FstError) -> bool,
)
    requires
        stays_lean::<G, CD>(lean, divisor, allowed, delta),
        closed_machine(fst),
        lean_machine(fst, lean),
    ensures
        match det_compute::<G, CD>(fst, None, delta, max_states).1 {
            Ok(out) => {
                &&& forall|v: int, j: int|
                    0 <= v < out.states.len() && 0 <= j < out.states[v].trs.len() ==> divisor(
                        (#[trigger] out.states[v].trs[j]).weight,
                    )
                &&& forall|v: int|
                    0 <= v < out.states.len() ==> match (#[trigger] out.states[v]).final_weight {
                        Some(w) => lean(w),
                        None => true,
                    }
            },
            Err(e) => allowed(e) || e == FstError::TooManyStates || (
            e matches FstError::StateBudgetExceeded { limit } && max_states == Some(limit)),
        },
{
    let good = |s: DetM<G::M, G::Delta>|
        s.fst == fst && s.delta == delta && lean_table(fst, lean, s.table);
    let failure = |e: FstError| allowed(e) || e == FstError::TooManyStates;
    let begin = det_begin::<G>(fst, None, delta);
    lemma_det_expansion::<G, CD>(begin.op);
    assert forall|s: DetM<G::M, G::Delta>|
        DeterminizeFsaOp::<'_, G, CD>::valid(s) && #[trigger] good(s) implies good(
        DeterminizeFsaOp::<'_, G, CD>::start_model(s).0,
    ) && (DeterminizeFsaOp::<'_, G, CD>::start_model(s).1 matches Err(e) ==> failure(e)) by {
        if let Some(q) = fst.start {
            let pairs = seq![ElementM { state: q, weight: G::one_model() }];
            assert(lean_pairs(fst, lean, pairs));
            lemma_lean_find::<G>(fst, lean, s.table, TupleM { pairs, filter_state: q });
        }
    }
    assert forall|s: DetM<G::M, G::Delta>, id: StateId|
        #![trigger good(s), DeterminizeFsaOp::<'_, G, CD>::trs_model(s, id)]
        DeterminizeFsaOp::<'_, G, CD>::valid(s) && good(s) && DeterminizeFsaOp::<
            '_,
            G,
            CD,
        >::known(s, id) implies good(DeterminizeFsaOp::<'_, G, CD>::trs_model(s, id).0) && (
    DeterminizeFsaOp::<'_, G, CD>::trs_model(s, id).1 matches Err(e) ==> failure(e)) by {
        let pairs = s.table.tuples[id as int].pairs;
        lemma_lean_expansion::<G, CD>(fst, lean, divisor, allowed, delta, s.table, pairs);
        if let Ok(e) = expand_pairs::<G, CD>(fst, s.table, pairs) {
            lemma_lean_names::<G, CD>(fst, lean, divisor, allowed, delta, s.table, e.groups);
        }
    }
    assert forall|s: DetM<G::M, G::Delta>, id: StateId|
        #![trigger good(s), DeterminizeFsaOp::<'_, G, CD>::final_weight_model(s, id)]
        DeterminizeFsaOp::<'_, G, CD>::valid(s) && good(s) && DeterminizeFsaOp::<
            '_,
            G,
            CD,
        >::known(s, id) implies good(DeterminizeFsaOp::<'_, G, CD>::final_weight_model(s, id).0)
        && (DeterminizeFsaOp::<'_, G, CD>::final_weight_model(s, id).1 matches Err(e) ==> failure(
        e,
    )) by {
        let pairs = s.table.tuples[id as int].pairs;
        lemma_lean_expansion::<G, CD>(fst, lean, divisor, allowed, delta, s.table, pairs);
    }
    law_failure_has_a_reason::<G, DeterminizeFsaOp<'_, G, CD>, NullCache<G>>(
        begin,
        fst.isymt,
        fst.osymt,
        max_states,
        None,
        good,
        failure,
    );
    law_machine_stays_valid::<G, DeterminizeFsaOp<'_, G, CD>, NullCache<G>>(
        begin,
        fst.isymt,
        fst.osymt,
        max_states,
        None,
        good,
    );
    let (l, r) = det_compute::<G, CD>(fst, None, delta, max_states);
    if let Ok(out) = r {
        lemma_det_output::<G, CD>(fst, None, delta, max_states);
        assert forall|v: int| 0 <= v < out.states.len() implies (forall|j: int|
            0 <= j < out.states[v].trs.len() ==> divisor(
                (#[trigger] out.states[v].trs[j]).weight,
            )) && match (#[trigger] out.states[v]).final_weight {
            Some(w) => lean(w),
            None => true,
        } by {
            let state = out.states[v];
            assert(written_for::<G, CD>(l.op, v as StateId, state));
            let (t, e) = choose|t: TableM<G::M>, e: ExpandM<G::M>| #[trigger]
                stands_for::<G, CD>(l.op, t, e, v as StateId, state);
            let pairs = l.op.table.tuples[v].pairs;
            assert(lean_pairs(fst, lean, pairs));
            lemma_lean_expansion::<G, CD>(fst, lean, divisor, allowed, delta, t, pairs);
            assert forall|j: int| 0 <= j < state.trs.len() implies divisor(
                (#[trigger] state.trs[j]).weight,
            ) by {
                assert(lean_pairs(fst, lean, e.groups[j].pairs));
                lemma_lean_norm::<G, CD>(fst, lean, divisor, allowed, delta, e.groups[j].pairs);
            }
        }
        assert forall|v: int, j: int|
            0 <= v < out.states.len() && 0 <= j < out.states[v].trs.len() implies divisor(
            (#[trigger] out.states[v].trs[j]).weight,
        ) by {
            assert(out.states[v] == out.states[v]);
        }
    }
}

} // verus!
