//! Determinization of an automaton, state by state.

use crate::determinize::divisors::CommonDivisor;
use crate::determinize::element::{
    elements_model, DeterminizeElement, DeterminizeStateTuple, DeterminizeTr, ElementM, TupleM,
    WeightedSubset,
};
use crate::determinize::state_table::{
    budget_model, find_model, lemma_find, options_model, weights_model, DeterminizeStateTable,
    TableM,
};
use crate::error::FstError;
use crate::fst::properties::{FstProperties, ACCEPTOR};
use crate::fst::tr::{trs_model, Label, StateId, Tr, TrM, TrsVec};
use crate::fst::vector_fst::{option_model, FstM, VectorFst};
use crate::lazy::fst_op::FstOp;
use crate::lazy::lazy_fst::saturating;
use crate::semirings::semiring::{DivideType, Semiring, WeaklyDivisibleSemiring, WeightQuantize};
use std::marker::PhantomData;
use std::sync::Arc;
use vstd::prelude::*;

verus! {

/// What leaves a subset on one label: where it leads, and with which weights.
#[verifier::ext_equal]
pub struct GroupM<M> {
    pub label: Label,
    /// Ordered by state.
    pub pairs: Seq<ElementM<M>>,
}

/// What leaves a subset, as far as it has been looked at.
#[verifier::ext_equal]
pub struct ExpandM<M> {
    /// Ordered by label.
    pub groups: Seq<GroupM<M>>,
    /// How many elements the groups hold.
    pub elements: int,
}

impl<M> ExpandM<M> {
    pub open spec fn empty() -> Self {
        ExpandM { groups: Seq::empty(), elements: 0 }
    }
}

/// How many elements of an ordered list come before the first with a state
/// larger than `state`.
pub open spec fn pairs_upto<M>(pairs: Seq<ElementM<M>>, state: StateId) -> int
    decreases pairs.len(),
{
    if pairs.len() == 0 {
        0
    } else if pairs.last().state <= state {
        pairs.len() as int
    } else {
        pairs_upto(pairs.drop_last(), state)
    }
}

/// How many groups of an ordered list come before the first with a label larger
/// than `label`.
pub open spec fn groups_upto<M>(groups: Seq<GroupM<M>>, label: Label) -> int
    decreases groups.len(),
{
    if groups.len() == 0 {
        0
    } else if groups.last().label <= label {
        groups.len() as int
    } else {
        groups_upto(groups.drop_last(), label)
    }
}

/// The group of `label`; empty if there is none yet.
pub open spec fn group_pairs<M>(groups: Seq<GroupM<M>>, label: Label) -> Seq<ElementM<M>> {
    let k = groups_upto(groups, label);
    if k > 0 && groups[k - 1].label == label {
        groups[k - 1].pairs
    } else {
        Seq::empty()
    }
}

/// The groups with another list for `label`.
pub open spec fn with_group<M>(
    groups: Seq<GroupM<M>>,
    label: Label,
    pairs: Seq<ElementM<M>>,
) -> Seq<GroupM<M>> {
    let k = groups_upto(groups, label);
    if k > 0 && groups[k - 1].label == label {
        groups.update(k - 1, GroupM { label, pairs })
    } else {
        groups.insert(k, GroupM { label, pairs })
    }
}

/// Whether an ordered list has an element for `state`.
pub open spec fn has_pair<M>(pairs: Seq<ElementM<M>>, state: StateId) -> bool {
    let k = pairs_upto(pairs, state);
    k > 0 && pairs[k - 1].state == state
}

/// What leaves a subset, with one more way to go: on `label` to `state` with the
/// given weight. Weights to the same state are summed if the divisor allows it,
/// and are kept side by side in the order met otherwise.
pub open spec fn expand_one<W: Semiring, CD: CommonDivisor<W>>(
    t: TableM<W::M>,
    e: ExpandM<W::M>,
    label: Label,
    state: StateId,
    weight: W::M,
) -> Result<ExpandM<W::M>, FstError> {
    let pairs = group_pairs(e.groups, label);
    let k = pairs_upto(pairs, state);
    if CD::merge_before_divisor_model() && has_pair(pairs, state) {
        match W::plus_model(pairs[k - 1].weight, weight) {
            Err(err) => Err(err),
            Ok(sum) => Ok(
                ExpandM {
                    groups: with_group(
                        e.groups,
                        label,
                        pairs.update(k - 1, ElementM { state, weight: sum }),
                    ),
                    elements: e.elements,
                },
            ),
        }
    } else {
        let elements = saturating(e.elements, 1);
        match budget_model(t, elements) {
            Err(err) => Err(err),
            Ok(_) => Ok(
                ExpandM {
                    groups: with_group(
                        e.groups,
                        label,
                        pairs.insert(k, ElementM { state, weight }),
                    ),
                    elements,
                },
            ),
        }
    }
}

/// What leaves a subset after the transitions of one of its states were looked
/// at in order.
pub open spec fn expand_trs<W: Semiring, CD: CommonDivisor<W>>(
    t: TableM<W::M>,
    e: ExpandM<W::M>,
    weight: W::M,
    trs: Seq<TrM<W::M>>,
) -> Result<ExpandM<W::M>, FstError>
    decreases trs.len(),
{
    if trs.len() == 0 {
        Ok(e)
    } else {
        match expand_trs::<W, CD>(t, e, weight, trs.drop_last()) {
            Err(err) => Err(err),
            Ok(sofar) => match W::times_model(weight, trs.last().weight) {
                Err(err) => Err(err),
                Ok(r) => expand_one::<W, CD>(
                    t,
                    sofar,
                    trs.last().ilabel,
                    trs.last().nextstate,
                    r,
                ),
            },
        }
    }
}

/// What leaves a subset.
pub open spec fn expand_pairs<W: Semiring, CD: CommonDivisor<W>>(
    fst: FstM<W::M>,
    t: TableM<W::M>,
    pairs: Seq<ElementM<W::M>>,
) -> Result<ExpandM<W::M>, FstError>
    decreases pairs.len(),
{
    if pairs.len() == 0 {
        Ok(ExpandM::empty())
    } else {
        match expand_pairs::<W, CD>(fst, t, pairs.drop_last()) {
            Err(err) => Err(err),
            Ok(e) => if !fst.has_state(pairs.last().state) {
                Err(FstError::StateNotFound { state: pairs.last().state })
            } else {
                expand_trs::<W, CD>(
                    t,
                    e,
                    pairs.last().weight,
                    fst.states[pairs.last().state as int].trs,
                )
            },
        }
    }
}

/// The common divisor of the weights of a list, taken in order.
pub open spec fn divisor_of<W: Semiring, CD: CommonDivisor<W>>(
    pairs: Seq<ElementM<W::M>>,
) -> Result<W::M, FstError>
    decreases pairs.len(),
{
    if pairs.len() == 0 {
        Ok(W::zero_model())
    } else {
        match divisor_of::<W, CD>(pairs.drop_last()) {
            Err(err) => Err(err),
            Ok(d) => CD::common_divisor_model(d, pairs.last().weight),
        }
    }
}

/// An ordered list in which the weights of equal states have been summed.
pub open spec fn merge_equal<W: Semiring>(pairs: Seq<ElementM<W::M>>) -> Result<
    Seq<ElementM<W::M>>,
    FstError,
>
    decreases pairs.len(),
{
    if pairs.len() == 0 {
        Ok(Seq::empty())
    } else {
        match merge_equal::<W>(pairs.drop_last()) {
            Err(err) => Err(err),
            Ok(merged) => if merged.len() > 0 && merged.last().state == pairs.last().state {
                match W::plus_model(merged.last().weight, pairs.last().weight) {
                    Err(err) => Err(err),
                    Ok(sum) => Ok(
                        merged.update(
                            merged.len() - 1,
                            ElementM { state: pairs.last().state, weight: sum },
                        ),
                    ),
                }
            } else {
                Ok(merged.push(pairs.last()))
            },
        }
    }
}

/// A weight from which `divisor` has been taken out, rounded.
pub open spec fn residual<W: WeaklyDivisibleSemiring + WeightQuantize>(
    weight: W::M,
    divisor: W::M,
    delta: W::Delta,
) -> Result<W::M, FstError> {
    match W::divide_model(weight, divisor, DivideType::DivideLeft) {
        Err(err) => Err(err),
        Ok(w) => W::quantize_model(w, delta),
    }
}

/// A list from whose weights `divisor` has been taken out, rounded.
pub open spec fn divide_all<W: WeaklyDivisibleSemiring + WeightQuantize>(
    pairs: Seq<ElementM<W::M>>,
    divisor: W::M,
    delta: W::Delta,
) -> Result<Seq<ElementM<W::M>>, FstError>
    decreases pairs.len(),
{
    if pairs.len() == 0 {
        Ok(Seq::empty())
    } else {
        match divide_all::<W>(pairs.drop_last(), divisor, delta) {
            Err(err) => Err(err),
            Ok(divided) => match residual::<W>(pairs.last().weight, divisor, delta) {
                Err(err) => Err(err),
                Ok(w) => Ok(divided.push(ElementM { state: pairs.last().state, weight: w })),
            },
        }
    }
}

/// What leaves on one label, with the common divisor taken out: the divisor and
/// the subset that the transition leads to.
pub open spec fn norm_model<W: WeaklyDivisibleSemiring + WeightQuantize, CD: CommonDivisor<W>>(
    pairs: Seq<ElementM<W::M>>,
    delta: W::Delta,
) -> Result<(W::M, Seq<ElementM<W::M>>), FstError> {
    match divisor_of::<W, CD>(pairs) {
        Err(err) => Err(err),
        Ok(divisor) => {
            let merged = if CD::merge_before_divisor_model() {
                Ok(pairs)
            } else {
                merge_equal::<W>(pairs)
            };
            match merged {
                Err(err) => Err(err),
                Ok(m) => match divide_all::<W>(m, divisor, delta) {
                    Err(err) => Err(err),
                    Ok(dest) => Ok((divisor, dest)),
                },
            }
        },
    }
}

/// The transitions for the groups, one each; their destinations are looked up in
/// the table in order.
pub open spec fn name_groups<W: WeaklyDivisibleSemiring + WeightQuantize, CD: CommonDivisor<W>>(
    t: TableM<W::M>,
    groups: Seq<GroupM<W::M>>,
    delta: W::Delta,
) -> (TableM<W::M>, Result<Seq<TrM<W::M>>, FstError>)
    decreases groups.len(),
{
    if groups.len() == 0 {
        (t, Ok(Seq::empty()))
    } else {
        let (t1, r) = name_groups::<W, CD>(t, groups.drop_last(), delta);
        match r {
            Err(err) => (t1, Err(err)),
            Ok(trs) => match norm_model::<W, CD>(groups.last().pairs, delta) {
                Err(err) => (t1, Err(err)),
                Ok((weight, pairs)) => {
                    let (t2, found) = find_model::<W>(t1, TupleM { pairs, filter_state: 0 });
                    match found {
                        Err(err) => (t2, Err(err)),
                        Ok(nextstate) => (
                            t2,
                            Ok(
                                trs.push(
                                    TrM {
                                        ilabel: groups.last().label,
                                        olabel: groups.last().label,
                                        weight,
                                        nextstate,
                                    },
                                ),
                            ),
                        ),
                    }
                },
            },
        }
    }
}

/// The weight with which a subset accepts: the sum over its elements of the
/// weight times the final weight.
pub open spec fn subset_final<W: Semiring>(
    fst: FstM<W::M>,
    pairs: Seq<ElementM<W::M>>,
) -> Result<W::M, FstError>
    decreases pairs.len(),
{
    if pairs.len() == 0 {
        Ok(W::zero_model())
    } else {
        match subset_final::<W>(fst, pairs.drop_last()) {
            Err(err) => Err(err),
            Ok(sum) => if !fst.has_state(pairs.last().state) {
                Err(FstError::StateNotFound { state: pairs.last().state })
            } else {
                match W::times_model(
                    pairs.last().weight,
                    final_or_zero::<W>(fst.states[pairs.last().state as int].final_weight),
                ) {
                    Err(err) => Err(err),
                    Ok(through) => W::plus_model(sum, through),
                }
            },
        }
    }
}

/// A final weight; zero where there is none.
pub open spec fn final_or_zero<W: Semiring>(w: Option<W::M>) -> W::M {
    match w {
        Some(v) => v,
        None => W::zero_model(),
    }
}

/// The state of a determinization.
pub struct DetM<M, D> {
    pub fst: FstM<M>,
    pub table: TableM<M>,
    pub delta: D,
}

/// The operation that determinizes an automaton.
pub struct DeterminizeFsaOp<'a, W: WeightQuantize, CD> {
    fst: &'a VectorFst<W>,
    state_table: DeterminizeStateTable<W>,
    delta: W::Delta,
    divisor: PhantomData<CD>,
}

/// Ordered by state; equal states may stand next to each other.
pub open spec fn pairs_ordered<M>(pairs: Seq<ElementM<M>>) -> bool {
    forall|i: int, j: int| 0 <= i < j < pairs.len() ==> pairs[i].state <= pairs[j].state
}

/// Ordered by state, each state once.
pub open spec fn states_ascend<M>(pairs: Seq<ElementM<M>>) -> bool {
    forall|i: int, j: int| 0 <= i < j < pairs.len() ==> pairs[i].state < pairs[j].state
}

/// Whether some element of a list is for `state`.
pub open spec fn names_state<M>(pairs: Seq<ElementM<M>>, state: StateId) -> bool {
    exists|i: int| 0 <= i < pairs.len() && (#[trigger] pairs[i]).state == state
}

/// The sum of the weights that a list has for `state`, in order; `None` if it has none.
pub open spec fn weight_to<W: Semiring>(pairs: Seq<ElementM<W::M>>, state: StateId) -> Result<
    Option<W::M>,
    FstError,
>
    decreases pairs.len(),
{
    if pairs.len() == 0 {
        Ok(None)
    } else {
        match weight_to::<W>(pairs.drop_last(), state) {
            Err(err) => Err(err),
            Ok(sum) => if pairs.last().state != state {
                Ok(sum)
            } else {
                match sum {
                    None => Ok(Some(pairs.last().weight)),
                    Some(w) => match W::plus_model(w, pairs.last().weight) {
                        Err(err) => Err(err),
                        Ok(more) => Ok(Some(more)),
                    },
                }
            },
        }
    }
}

/// Whether every weight of `dest` is the sum of what `pairs` has for its state, with
/// `divisor` taken out.
pub open spec fn sums_divided<W: WeaklyDivisibleSemiring + WeightQuantize>(
    pairs: Seq<ElementM<W::M>>,
    dest: Seq<ElementM<W::M>>,
    divisor: W::M,
    delta: W::Delta,
) -> bool {
    forall|j: int|
        0 <= j < dest.len() ==> (weight_to::<W>(pairs, (#[trigger] dest[j]).state) matches Ok(
            Some(w),
        ) && residual::<W>(w, divisor, delta) == Ok::<W::M, FstError>(dest[j].weight))
}

/// Whether every list has each state once.
pub open spec fn groups_ascend<M>(groups: Seq<GroupM<M>>) -> bool {
    forall|i: int| 0 <= i < groups.len() ==> states_ascend((#[trigger] groups[i]).pairs)
}

/// Ordered by label, each label once, and each list ordered by state.
pub open spec fn groups_ordered<M>(groups: Seq<GroupM<M>>) -> bool {
    &&& forall|i: int, j: int| 0 <= i < j < groups.len() ==> groups[i].label < groups[j].label
    &&& forall|i: int| 0 <= i < groups.len() ==> pairs_ordered((#[trigger] groups[i]).pairs)
}

proof fn lemma_pairs_upto<M>(pairs: Seq<ElementM<M>>, state: StateId, k: int)
    requires
        pairs_ordered(pairs),
        0 <= k <= pairs.len(),
        k > 0 ==> pairs[k - 1].state <= state,
        k < pairs.len() ==> pairs[k].state > state,
    ensures
        pairs_upto(pairs, state) == k,
    decreases pairs.len(),
{
    if pairs.len() > 0 && k < pairs.len() {
        lemma_pairs_upto(pairs.drop_last(), state, k);
    }
}

proof fn lemma_groups_upto<M>(groups: Seq<GroupM<M>>, label: Label, k: int)
    requires
        groups_ordered(groups),
        0 <= k <= groups.len(),
        k > 0 ==> groups[k - 1].label <= label,
        k < groups.len() ==> groups[k].label > label,
    ensures
        groups_upto(groups, label) == k,
    decreases groups.len(),
{
    if groups.len() > 0 && k < groups.len() {
        lemma_groups_upto(groups.drop_last(), label, k);
    }
}

/// Where `pairs_upto` points.
proof fn lemma_pairs_upto_split<M>(pairs: Seq<ElementM<M>>, state: StateId)
    requires
        pairs_ordered(pairs),
    ensures
        0 <= pairs_upto(pairs, state) <= pairs.len(),
        forall|i: int|
            0 <= i < pairs_upto(pairs, state) ==> (#[trigger] pairs[i]).state <= state,
        forall|i: int|
            pairs_upto(pairs, state) <= i < pairs.len() ==> (#[trigger] pairs[i]).state > state,
    decreases pairs.len(),
{
    if pairs.len() > 0 && pairs.last().state > state {
        lemma_pairs_upto_split(pairs.drop_last(), state);
        assert forall|i: int| 0 <= i < pairs_upto(pairs, state) implies (
        #[trigger] pairs[i]).state <= state by {
            assert(pairs.drop_last()[i] == pairs[i]);
        }
        assert forall|i: int| pairs_upto(pairs, state) <= i < pairs.len() implies (
        #[trigger] pairs[i]).state > state by {
            if i < pairs.len() - 1 {
                assert(pairs.drop_last()[i] == pairs[i]);
            }
        }
    }
}

/// Where `groups_upto` points.
pub proof fn lemma_groups_upto_split<M>(groups: Seq<GroupM<M>>, label: Label)
    requires
        groups_ordered(groups),
    ensures
        0 <= groups_upto(groups, label) <= groups.len(),
        forall|i: int|
            0 <= i < groups_upto(groups, label) ==> (#[trigger] groups[i]).label <= label,
        forall|i: int|
            groups_upto(groups, label) <= i < groups.len() ==> (#[trigger] groups[i]).label > label,
    decreases groups.len(),
{
    if groups.len() > 0 && groups.last().label > label {
        let shorter = groups.drop_last();
        assert(groups_ordered(shorter)) by {
            assert forall|i: int| 0 <= i < shorter.len() implies pairs_ordered(
                (#[trigger] shorter[i]).pairs,
            ) by {
                assert(shorter[i] == groups[i]);
            }
        }
        lemma_groups_upto_split(shorter, label);
        assert forall|i: int| 0 <= i < groups_upto(groups, label) implies (
        #[trigger] groups[i]).label <= label by {
            assert(shorter[i] == groups[i]);
        }
        assert forall|i: int| groups_upto(groups, label) <= i < groups.len() implies (
        #[trigger] groups[i]).label > label by {
            if i < groups.len() - 1 {
                assert(shorter[i] == groups[i]);
            }
        }
    }
}

/// Replacing the list of one label keeps the order.
proof fn lemma_with_group_ordered<M>(
    groups: Seq<GroupM<M>>,
    label: Label,
    pairs: Seq<ElementM<M>>,
)
    requires
        groups_ordered(groups),
        pairs_ordered(pairs),
    ensures
        groups_ordered(with_group(groups, label, pairs)),
{
    lemma_groups_upto_split(groups, label);
    let after = with_group(groups, label, pairs);
    let k = groups_upto(groups, label);
    assert forall|i: int| 0 <= i < after.len() implies pairs_ordered(
        (#[trigger] after[i]).pairs,
    ) by {
        if k > 0 && groups[k - 1].label == label {
            if i != k - 1 {
                assert(after[i] == groups[i]);
            }
        } else if i < k {
            assert(after[i] == groups[i]);
        } else if i > k {
            assert(after[i] == groups[i - 1]);
        }
    }
}

/// The list of a label is ordered.
proof fn lemma_group_pairs_ordered<M>(groups: Seq<GroupM<M>>, label: Label)
    requires
        groups_ordered(groups),
    ensures
        pairs_ordered(group_pairs(groups, label)),
{
    lemma_groups_upto_split(groups, label);
}

/// One more way to go keeps the order.
pub proof fn lemma_expand_one_ordered<W: Semiring, CD: CommonDivisor<W>>(
    t: TableM<W::M>,
    e: ExpandM<W::M>,
    label: Label,
    state: StateId,
    weight: W::M,
)
    requires
        groups_ordered(e.groups),
    ensures
        expand_one::<W, CD>(t, e, label, state, weight) matches Ok(after) ==> groups_ordered(
            after.groups,
        ),
{
    let pairs = group_pairs(e.groups, label);
    lemma_group_pairs_ordered(e.groups, label);
    lemma_pairs_upto_split(pairs, state);
    let k = pairs_upto(pairs, state);
    if let Ok(after) = expand_one::<W, CD>(t, e, label, state, weight) {
        if CD::merge_before_divisor_model() && has_pair(pairs, state) {
            let sum = W::plus_model(pairs[k - 1].weight, weight)->Ok_0;
            lemma_with_group_ordered(
                e.groups,
                label,
                pairs.update(k - 1, ElementM { state, weight: sum }),
            );
        } else {
            lemma_with_group_ordered(
                e.groups,
                label,
                pairs.insert(k, ElementM { state, weight }),
            );
        }
    }
}

/// The transitions of one state keep the order.
pub proof fn lemma_expand_trs_ordered<W: Semiring, CD: CommonDivisor<W>>(
    t: TableM<W::M>,
    e: ExpandM<W::M>,
    weight: W::M,
    trs: Seq<TrM<W::M>>,
)
    requires
        groups_ordered(e.groups),
    ensures
        expand_trs::<W, CD>(t, e, weight, trs) matches Ok(after) ==> groups_ordered(after.groups),
    decreases trs.len(),
{
    if trs.len() > 0 {
        lemma_expand_trs_ordered::<W, CD>(t, e, weight, trs.drop_last());
        if let Ok(sofar) = expand_trs::<W, CD>(t, e, weight, trs.drop_last()) {
            if let Ok(r) = W::times_model(weight, trs.last().weight) {
                lemma_expand_one_ordered::<W, CD>(
                    t,
                    sofar,
                    trs.last().ilabel,
                    trs.last().nextstate,
                    r,
                );
            }
        }
    }
}

/// What leaves a subset is ordered.
pub proof fn lemma_expand_pairs_ordered<W: Semiring, CD: CommonDivisor<W>>(
    fst: FstM<W::M>,
    t: TableM<W::M>,
    pairs: Seq<ElementM<W::M>>,
)
    ensures
        expand_pairs::<W, CD>(fst, t, pairs) matches Ok(e) ==> groups_ordered(e.groups),
    decreases pairs.len(),
{
    if pairs.len() > 0 {
        lemma_expand_pairs_ordered::<W, CD>(fst, t, pairs.drop_last());
        if let Ok(e) = expand_pairs::<W, CD>(fst, t, pairs.drop_last()) {
            lemma_expand_trs_ordered::<W, CD>(
                t,
                e,
                pairs.last().weight,
                fst.states[pairs.last().state as int].trs,
            );
        }
    }
}

/// One more way to go keeps each state once where equal states are summed.
proof fn lemma_expand_one_ascends<W: Semiring, CD: CommonDivisor<W>>(
    t: TableM<W::M>,
    e: ExpandM<W::M>,
    label: Label,
    state: StateId,
    weight: W::M,
)
    requires
        CD::merge_before_divisor_model(),
        groups_ordered(e.groups),
        groups_ascend(e.groups),
    ensures
        expand_one::<W, CD>(t, e, label, state, weight) matches Ok(after) ==> groups_ascend(
            after.groups,
        ),
{
    let groups = e.groups;
    let pairs = group_pairs(groups, label);
    lemma_group_pairs_ordered(groups, label);
    lemma_groups_upto_split(groups, label);
    lemma_pairs_upto_split(pairs, state);
    let k = pairs_upto(pairs, state);
    let g = groups_upto(groups, label);
    assert(states_ascend(pairs));
    if let Ok(after) = expand_one::<W, CD>(t, e, label, state, weight) {
        let more = if has_pair(pairs, state) {
            pairs.update(
                k - 1,
                ElementM { state, weight: W::plus_model(pairs[k - 1].weight, weight)->Ok_0 },
            )
        } else {
            pairs.insert(k, ElementM { state, weight })
        };
        assert(after.groups == with_group(groups, label, more));
        assert(states_ascend(more)) by {
            if !has_pair(pairs, state) {
                assert forall|i: int| 0 <= i < k implies (#[trigger] pairs[i]).state < state by {
                    if i < k - 1 {
                        assert(pairs[i].state < pairs[k - 1].state);
                    }
                }
            }
        }
        assert forall|i: int| 0 <= i < after.groups.len() implies states_ascend(
            (#[trigger] after.groups[i]).pairs,
        ) by {
            if g > 0 && groups[g - 1].label == label {
                if i != g - 1 {
                    assert(after.groups[i] == groups[i]);
                }
            } else if i < g {
                assert(after.groups[i] == groups[i]);
            } else if i > g {
                assert(after.groups[i] == groups[i - 1]);
            }
        }
    }
}

proof fn lemma_expand_trs_ascends<W: Semiring, CD: CommonDivisor<W>>(
    t: TableM<W::M>,
    e: ExpandM<W::M>,
    weight: W::M,
    trs: Seq<TrM<W::M>>,
)
    requires
        CD::merge_before_divisor_model(),
        groups_ordered(e.groups),
        groups_ascend(e.groups),
    ensures
        expand_trs::<W, CD>(t, e, weight, trs) matches Ok(after) ==> groups_ascend(after.groups),
    decreases trs.len(),
{
    if trs.len() > 0 {
        lemma_expand_trs_ascends::<W, CD>(t, e, weight, trs.drop_last());
        lemma_expand_trs_ordered::<W, CD>(t, e, weight, trs.drop_last());
        if let Ok(sofar) = expand_trs::<W, CD>(t, e, weight, trs.drop_last()) {
            if let Ok(r) = W::times_model(weight, trs.last().weight) {
                lemma_expand_one_ascends::<W, CD>(
                    t,
                    sofar,
                    trs.last().ilabel,
                    trs.last().nextstate,
                    r,
                );
            }
        }
    }
}

/// What leaves a subset names each state once for a label where equal states are
/// summed at once.
proof fn lemma_expand_pairs_ascends<W: Semiring, CD: CommonDivisor<W>>(
    fst: FstM<W::M>,
    t: TableM<W::M>,
    pairs: Seq<ElementM<W::M>>,
)
    requires
        CD::merge_before_divisor_model(),
    ensures
        expand_pairs::<W, CD>(fst, t, pairs) matches Ok(e) ==> groups_ascend(e.groups),
    decreases pairs.len(),
{
    if pairs.len() > 0 {
        lemma_expand_pairs_ascends::<W, CD>(fst, t, pairs.drop_last());
        lemma_expand_pairs_ordered::<W, CD>(fst, t, pairs.drop_last());
        if let Ok(e) = expand_pairs::<W, CD>(fst, t, pairs.drop_last()) {
            lemma_expand_trs_ascends::<W, CD>(
                t,
                e,
                pairs.last().weight,
                fst.states[pairs.last().state as int].trs,
            );
        }
    }
}

/// A list has no weight for a state that it does not name.
proof fn lemma_weight_to_none<W: Semiring>(pairs: Seq<ElementM<W::M>>, state: StateId)
    ensures
        !names_state(pairs, state) ==> weight_to::<W>(pairs, state) == Ok::<
            Option<W::M>,
            FstError,
        >(None),
    decreases pairs.len(),
{
    if pairs.len() > 0 && !names_state(pairs, state) {
        let shorter = pairs.drop_last();
        assert(pairs[pairs.len() - 1].state != state);
        assert(!names_state(shorter, state)) by {
            if names_state(shorter, state) {
                let i = choose|i: int|
                    0 <= i < shorter.len() && (#[trigger] shorter[i]).state == state;
                assert(pairs[i].state == state);
            }
        }
        lemma_weight_to_none::<W>(shorter, state);
    }
}

/// A list that has each state once has for it the weight that stands there.
proof fn lemma_weight_to_one<W: Semiring>(pairs: Seq<ElementM<W::M>>, i: int)
    requires
        states_ascend(pairs),
        0 <= i < pairs.len(),
    ensures
        weight_to::<W>(pairs, pairs[i].state) == Ok::<Option<W::M>, FstError>(
            Some(pairs[i].weight),
        ),
    decreases pairs.len(),
{
    let shorter = pairs.drop_last();
    assert forall|j: int, k: int| 0 <= j < k < shorter.len() implies shorter[j].state
        < shorter[k].state by {
        assert(pairs[j].state < pairs[k].state);
    }
    if i < pairs.len() - 1 {
        assert(pairs[i].state < pairs[pairs.len() - 1].state);
        lemma_weight_to_one::<W>(shorter, i);
    } else {
        assert(!names_state(shorter, pairs[i].state)) by {
            if names_state(shorter, pairs[i].state) {
                let k = choose|k: int|
                    0 <= k < shorter.len() && (#[trigger] shorter[k]).state == pairs[i].state;
                assert(pairs[k].state < pairs[i].state);
            }
        }
        lemma_weight_to_none::<W>(shorter, pairs[i].state);
    }
}

/// Summing the weights of equal states of an ordered list leaves each of its states
/// once, with the sum of its weights.
proof fn lemma_merge_ascends<W: Semiring>(pairs: Seq<ElementM<W::M>>)
    requires
        pairs_ordered(pairs),
    ensures
        merge_equal::<W>(pairs) matches Ok(merged) ==> {
            &&& states_ascend(merged)
            &&& merged.len() == 0 <==> pairs.len() == 0
            &&& merged.len() > 0 ==> merged.last().state == pairs.last().state
            &&& forall|q: StateId| #[trigger] names_state(merged, q) == names_state(pairs, q)
            &&& forall|i: int|
                0 <= i < merged.len() ==> weight_to::<W>(pairs, (#[trigger] merged[i]).state)
                    == Ok::<Option<W::M>, FstError>(Some(merged[i].weight))
        },
    decreases pairs.len(),
{
    if pairs.len() > 0 {
        let shorter = pairs.drop_last();
        let last = pairs.last();
        assert forall|i: int, j: int| 0 <= i < j < shorter.len() implies shorter[i].state
            <= shorter[j].state by {
            assert(pairs[i].state <= pairs[j].state);
        }
        lemma_merge_ascends::<W>(shorter);
        if let Ok(merged) = merge_equal::<W>(pairs) {
            let before = merge_equal::<W>(shorter)->Ok_0;
            if shorter.len() > 0 {
                assert(shorter.last() == pairs[pairs.len() - 2]);
                assert(shorter.last().state <= last.state);
            }
            assert forall|i: int, j: int| 0 <= i < j < merged.len() implies merged[i].state
                < merged[j].state by {
                if i < before.len() && before.len() > 0 {
                    if i < before.len() - 1 {
                        assert(before[i].state < before[before.len() - 1].state);
                    }
                }
            }
            assert forall|i: int| 0 <= i < merged.len() implies weight_to::<W>(
                pairs,
                (#[trigger] merged[i]).state,
            ) == Ok::<Option<W::M>, FstError>(Some(merged[i].weight)) by {
                if i < before.len() {
                    assert(weight_to::<W>(shorter, before[i].state) == Ok::<
                        Option<W::M>,
                        FstError,
                    >(Some(before[i].weight)));
                    assert(merged[i].state == before[i].state);
                    if i < merged.len() - 1 {
                        assert(merged[i].state < merged[merged.len() - 1].state);
                        assert(merged[merged.len() - 1].state == last.state);
                    }
                } else {
                    lemma_weight_to_none::<W>(shorter, last.state);
                    assert(!names_state(shorter, last.state)) by {
                        assert(names_state(before, last.state) == names_state(
                            shorter,
                            last.state,
                        ));
                        if names_state(before, last.state) {
                            let k = choose|k: int|
                                0 <= k < before.len() && (#[trigger] before[k]).state
                                    == last.state;
                            assert(merged[k].state == before[k].state);
                            assert(merged[k].state < merged[i].state);
                        }
                    }
                }
            }
            assert forall|q: StateId| #[trigger] names_state(merged, q) == names_state(
                pairs,
                q,
            ) by {
                assert(names_state(before, q) == names_state(shorter, q));
                if names_state(pairs, q) {
                    let i = choose|i: int|
                        0 <= i < pairs.len() && (#[trigger] pairs[i]).state == q;
                    if i < shorter.len() {
                        assert(shorter[i].state == q);
                        let k = choose|k: int|
                            0 <= k < before.len() && (#[trigger] before[k]).state == q;
                        assert(merged[k].state == q);
                    } else {
                        assert(merged[merged.len() - 1].state == q);
                    }
                }
                if names_state(merged, q) {
                    let k = choose|k: int|
                        0 <= k < merged.len() && (#[trigger] merged[k]).state == q;
                    if k < before.len() {
                        assert(before[k].state == q);
                        let i = choose|i: int|
                            0 <= i < shorter.len() && (#[trigger] shorter[i]).state == q;
                        assert(pairs[i].state == q);
                    } else {
                        assert(pairs[pairs.len() - 1].state == q);
                    }
                }
            }
        }
    }
}

/// Taking a divisor out leaves the states as they are, and takes it out of each weight.
proof fn lemma_divide_keeps_states<W: WeaklyDivisibleSemiring + WeightQuantize>(
    pairs: Seq<ElementM<W::M>>,
    divisor: W::M,
    delta: W::Delta,
)
    ensures
        divide_all::<W>(pairs, divisor, delta) matches Ok(divided) ==> {
            &&& divided.len() == pairs.len()
            &&& forall|i: int|
                0 <= i < pairs.len() ==> (#[trigger] divided[i]).state == pairs[i].state
                    && residual::<W>(pairs[i].weight, divisor, delta) == Ok::<W::M, FstError>(
                    divided[i].weight,
                )
        },
    decreases pairs.len(),
{
    if pairs.len() > 0 {
        lemma_divide_keeps_states::<W>(pairs.drop_last(), divisor, delta);
        if let Ok(divided) = divide_all::<W>(pairs, divisor, delta) {
            let before = divide_all::<W>(pairs.drop_last(), divisor, delta)->Ok_0;
            assert forall|i: int| 0 <= i < pairs.len() implies (#[trigger] divided[i]).state
                == pairs[i].state && residual::<W>(pairs[i].weight, divisor, delta) == Ok::<
                W::M,
                FstError,
            >(divided[i].weight) by {
                if i < before.len() {
                    assert(divided[i] == before[i]);
                    assert(pairs.drop_last()[i] == pairs[i]);
                }
            }
        }
    }
}

/// The subset that a transition leads to names the states that leave on its label,
/// in order and each once, with the sum of its weights from which the weight of the
/// transition was taken out.
pub proof fn lemma_norm_ascends<
    W: WeaklyDivisibleSemiring + WeightQuantize,
    CD: CommonDivisor<W>,
>(pairs: Seq<ElementM<W::M>>, delta: W::Delta)
    requires
        pairs_ordered(pairs),
        CD::merge_before_divisor_model() ==> states_ascend(pairs),
    ensures
        norm_model::<W, CD>(pairs, delta) matches Ok((weight, dest)) ==> {
            &&& states_ascend(dest)
            &&& forall|q: StateId| #[trigger] names_state(dest, q) == names_state(pairs, q)
            &&& sums_divided::<W>(pairs, dest, weight, delta)
        },
{
    if let Ok((weight, dest)) = norm_model::<W, CD>(pairs, delta) {
        lemma_merge_ascends::<W>(pairs);
        let merged = if CD::merge_before_divisor_model() {
            pairs
        } else {
            merge_equal::<W>(pairs)->Ok_0
        };
        lemma_divide_keeps_states::<W>(merged, weight, delta);
        assert forall|j: int| 0 <= j < dest.len() implies (weight_to::<W>(
            pairs,
            (#[trigger] dest[j]).state,
        ) matches Ok(Some(w)) && residual::<W>(w, weight, delta) == Ok::<W::M, FstError>(
            dest[j].weight,
        )) by {
            assert(dest[j].state == merged[j].state);
            if CD::merge_before_divisor_model() {
                lemma_weight_to_one::<W>(pairs, j);
            }
        }
        assert forall|q: StateId| #[trigger] names_state(dest, q) == names_state(pairs, q) by {
            assert(names_state(merged, q) == names_state(pairs, q));
            if names_state(dest, q) {
                let i = choose|i: int| 0 <= i < dest.len() && (#[trigger] dest[i]).state == q;
                assert(merged[i].state == q);
            }
            if names_state(merged, q) {
                let i = choose|i: int| 0 <= i < merged.len() && (#[trigger] merged[i]).state == q;
                assert(dest[i].state == q);
            }
        }
    }
}

proof fn lemma_expand_trs_fails<W: Semiring, CD: CommonDivisor<W>>(
    t: TableM<W::M>,
    e: ExpandM<W::M>,
    weight: W::M,
    trs: Seq<TrM<W::M>>,
    i: int,
)
    requires
        0 <= i <= trs.len(),
    ensures
        expand_trs::<W, CD>(t, e, weight, trs.take(i)) matches Err(err) ==> expand_trs::<W, CD>(
            t,
            e,
            weight,
            trs,
        ) == Err::<ExpandM<W::M>, FstError>(err),
    decreases trs.len() - i,
{
    if i < trs.len() {
        assert(trs.take(i + 1).drop_last() =~= trs.take(i));
        lemma_expand_trs_fails::<W, CD>(t, e, weight, trs, i + 1);
    } else {
        assert(trs.take(i) =~= trs);
    }
}

proof fn lemma_expand_pairs_fails<W: Semiring, CD: CommonDivisor<W>>(
    fst: FstM<W::M>,
    t: TableM<W::M>,
    pairs: Seq<ElementM<W::M>>,
    i: int,
)
    requires
        0 <= i <= pairs.len(),
    ensures
        expand_pairs::<W, CD>(fst, t, pairs.take(i)) matches Err(err) ==> expand_pairs::<W, CD>(
            fst,
            t,
            pairs,
        ) == Err::<ExpandM<W::M>, FstError>(err),
    decreases pairs.len() - i,
{
    if i < pairs.len() {
        assert(pairs.take(i + 1).drop_last() =~= pairs.take(i));
        lemma_expand_pairs_fails::<W, CD>(fst, t, pairs, i + 1);
    } else {
        assert(pairs.take(i) =~= pairs);
    }
}

/// What a transition under construction stands for.
pub open spec fn group_model<W: Semiring>(tr: DeterminizeTr<W>) -> GroupM<W::M> {
    GroupM { label: tr.label, pairs: tr.dest_tuple.subset.model() }
}

/// What a list of transitions under construction stands for.
pub open spec fn groups_model<W: Semiring>(trs: Seq<DeterminizeTr<W>>) -> Seq<GroupM<W::M>> {
    Seq::new(trs.len(), |i: int| group_model(trs[i]))
}

/// No transition under construction has a filter state other than zero.
spec fn unfiltered<W: Semiring>(trs: Seq<DeterminizeTr<W>>) -> bool {
    forall|i: int| 0 <= i < trs.len() ==> (#[trigger] trs[i]).dest_tuple.filter_state == 0
}

/// The position after the last element with a state up to `state`.
fn find_pair<W: Semiring>(pairs: &Vec<DeterminizeElement<W>>, state: StateId) -> (r: usize)
    requires
        pairs_ordered(elements_model(pairs@)),
    ensures
        r == pairs_upto(elements_model(pairs@), state),
        r <= pairs.len(),
{
    let ghost m = elements_model(pairs@);
    let mut lo: usize = 0;
    let mut hi: usize = pairs.len();
    while lo < hi
        invariant
            m == elements_model(pairs@),
            pairs_ordered(m),
            lo <= hi <= pairs.len(),
            lo > 0 ==> m[lo - 1].state <= state,
            hi < m.len() ==> m[hi as int].state > state,
        decreases hi - lo,
    {
        let mid: usize = lo + (hi - lo) / 2;
        assert(m[mid as int] == pairs@[mid as int].model());
        if pairs[mid].state <= state {
            lo = mid + 1;
        } else {
            hi = mid;
        }
    }
    proof {
        lemma_pairs_upto(m, state, lo as int);
    }
    lo
}

/// The position after the last transition with a label up to `label`.
fn find_group<W: Semiring>(groups: &Vec<DeterminizeTr<W>>, label: Label) -> (r: usize)
    requires
        groups_ordered(groups_model(groups@)),
    ensures
        r == groups_upto(groups_model(groups@), label),
        r <= groups.len(),
{
    let ghost m = groups_model(groups@);
    let mut lo: usize = 0;
    let mut hi: usize = groups.len();
    while lo < hi
        invariant
            m == groups_model(groups@),
            groups_ordered(m),
            lo <= hi <= groups.len(),
            lo > 0 ==> m[lo - 1].label <= label,
            hi < m.len() ==> m[hi as int].label > label,
        decreases hi - lo,
    {
        let mid: usize = lo + (hi - lo) / 2;
        assert(m[mid as int] == group_model(groups@[mid as int]));
        if groups[mid].label <= label {
            lo = mid + 1;
        } else {
            hi = mid;
        }
    }
    proof {
        lemma_groups_upto(m, label, lo as int);
    }
    lo
}

impl<'a, W: WeaklyDivisibleSemiring + WeightQuantize, CD: CommonDivisor<W>> DeterminizeFsaOp<
    'a,
    W,
    CD,
> {
    /// The determinization of `fst`, which has to be an acceptor.
    pub fn new_with_subset_limit(
        fst: &'a VectorFst<W>,
        in_dist: Option<Vec<W>>,
        delta: W::Delta,
        max_subset_elements: Option<usize>,
    ) -> (r: Result<Self, FstError>)
        ensures
            match r {
                Ok(op) => fst.model().properties.has(ACCEPTOR) && op.inv() && op.state() == (DetM {
                    fst: fst.model(),
                    table: TableM::empty(
                        match in_dist {
                            Some(d) => Some(weights_model(d@)),
                            None => None,
                        },
                        max_subset_elements,
                    ),
                    delta,
                }),
                Err(e) => !fst.model().properties.has(ACCEPTOR) && e == FstError::NotAcceptor,
            },
    {
        if !fst.properties().contains(ACCEPTOR) {
            return Err(FstError::NotAcceptor);
        }
        Ok(
            DeterminizeFsaOp {
                fst,
                state_table: DeterminizeStateTable::new(in_dist, max_subset_elements),
                delta,
                divisor: PhantomData,
            },
        )
    }

    /// Adds one way to go.
    fn add_arc(
        &self,
        groups: &mut Vec<DeterminizeTr<W>>,
        elements: usize,
        tr: &Tr<W>,
        r: W,
    ) -> (res: Result<usize, FstError>)
        requires
            groups_ordered(groups_model(old(groups)@)),
            unfiltered(old(groups)@),
        ensures
            unfiltered(final(groups)@),
            ({
                let before = ExpandM {
                    groups: groups_model(old(groups)@),
                    elements: elements as int,
                };
                match res {
                    Ok(n) => expand_one::<W, CD>(
                        self.state().table,
                        before,
                        tr.ilabel,
                        tr.nextstate,
                        r.model(),
                    ) == Ok::<ExpandM<W::M>, FstError>(
                        ExpandM { groups: groups_model(final(groups)@), elements: n as int },
                    ),
                    Err(e) => expand_one::<W, CD>(
                        self.state().table,
                        before,
                        tr.ilabel,
                        tr.nextstate,
                        r.model(),
                    ) == Err::<ExpandM<W::M>, FstError>(e),
                }
            }),
    {
        let ghost m = groups_model(groups@);
        let k: usize = find_group(groups, tr.ilabel);
        proof {
            lemma_groups_upto_split(m, tr.ilabel);
        }
        let known: bool = k > 0 && groups[k - 1].label == tr.ilabel;
        let at: usize = if known {
            k - 1
        } else {
            groups.insert(k, DeterminizeTr::from_tr(tr, 0));
            k
        };
        let ghost opened = groups_model(groups@);
        let ghost pairs = group_pairs(m, tr.ilabel);
        proof {
            assert(opened[at as int] == group_model(groups@[at as int]));
            if known {
                assert(m[k - 1].label == tr.ilabel);
            } else {
                assert(opened[at as int].pairs =~= Seq::empty());
                assert(opened =~= m.insert(
                    k as int,
                    GroupM { label: tr.ilabel, pairs: Seq::empty() },
                ));
            }
            assert(opened[at as int].pairs == pairs);
            lemma_group_pairs_ordered(m, tr.ilabel);
            lemma_pairs_upto_split(pairs, tr.nextstate);
        }
        let p: usize = find_pair(&groups[at].dest_tuple.subset.pairs, tr.nextstate);
        let present: bool = p > 0 && groups[at].dest_tuple.subset.pairs[p - 1].state
            == tr.nextstate;
        assert(present == has_pair(pairs, tr.nextstate));
        if CD::merge_before_divisor() && present {
            let sum: W = match groups[at].dest_tuple.subset.pairs[p - 1].weight.plus(&r) {
                Ok(w) => w,
                Err(e) => {
                    return Err(e);
                },
            };
            groups[at].dest_tuple.subset.pairs.set(
                p - 1,
                DeterminizeElement { state: tr.nextstate, weight: sum },
            );
            proof {
                let after = groups_model(groups@);
                let sum_pairs = pairs.update(
                    p - 1,
                    ElementM { state: tr.nextstate, weight: sum.model() },
                );
                assert(after[at as int] == group_model(groups@[at as int]));
                assert(after[at as int].pairs =~= sum_pairs);
                assert(after =~= with_group(m, tr.ilabel, sum_pairs));
            }
            Ok(elements)
        } else {
            let n: usize = elements.saturating_add(1);
            match self.state_table.check_expansion_elements(n) {
                Ok(()) => {},
                Err(e) => {
                    return Err(e);
                },
            }
            let ghost rm = r.model();
            groups[at].dest_tuple.subset.pairs.insert(
                p,
                DeterminizeElement { state: tr.nextstate, weight: r },
            );
            proof {
                let after = groups_model(groups@);
                let more = pairs.insert(
                    p as int,
                    ElementM { state: tr.nextstate, weight: rm },
                );
                assert(after[at as int] == group_model(groups@[at as int]));
                assert(after[at as int].pairs =~= more);
                assert(after =~= with_group(m, tr.ilabel, more));
            }
            Ok(n)
        }
    }

    /// Everything that leaves a subset, by label.
    fn expand(&self, src: &DeterminizeStateTuple<W>) -> (res: Result<
        Vec<DeterminizeTr<W>>,
        FstError,
    >)
        ensures
            match res {
                Ok(groups) => {
                    &&& unfiltered(groups@)
                    &&& expand_pairs::<W, CD>(
                        self.state().fst,
                        self.state().table,
                        src.model().pairs,
                    ) matches Ok(e)
                    &&& e.groups == groups_model(groups@)
                },
                Err(e) => expand_pairs::<W, CD>(
                    self.state().fst,
                    self.state().table,
                    src.model().pairs,
                ) == Err::<ExpandM<W::M>, FstError>(e),
            },
    {
        let ghost fst = self.state().fst;
        let ghost table = self.state().table;
        let ghost pairs = src.model().pairs;
        let mut groups: Vec<DeterminizeTr<W>> = Vec::new();
        let mut elements: usize = 0;
        let n: usize = src.subset.pairs.len();
        proof {
            assert(groups_model(groups@) =~= Seq::empty());
            assert(pairs.take(0) =~= Seq::empty());
        }
        for i in 0..n
            invariant
                n == src.subset.pairs.len(),
                pairs == src.model().pairs,
                fst == self.state().fst,
                table == self.state().table,
                groups_ordered(groups_model(groups@)),
                unfiltered(groups@),
                expand_pairs::<W, CD>(fst, table, pairs.take(i as int)) == Ok::<
                    ExpandM<W::M>,
                    FstError,
                >(ExpandM { groups: groups_model(groups@), elements: elements as int }),
        {
            let src_elt: &DeterminizeElement<W> = &src.subset.pairs[i];
            let ghost before = ExpandM {
                groups: groups_model(groups@),
                elements: elements as int,
            };
            proof {
                assert(pairs[i as int] == src_elt.model());
                assert(pairs.take(i + 1).drop_last() =~= pairs.take(i as int));
                lemma_expand_pairs_fails::<W, CD>(fst, table, pairs, i + 1);
            }
            let trs: &Vec<Tr<W>> = match self.fst.get_trs(src_elt.state) {
                Ok(trs) => trs,
                Err(e) => {
                    return Err(e);
                },
            };
            let ghost ms = trs_model(trs@);
            let ghost w = src_elt.weight.model();
            let len: usize = trs.len();
            assert(ms.take(0) =~= Seq::empty());
            for j in 0..len
                invariant
                    i < n,
                    n == src.subset.pairs.len(),
                    pairs == src.model().pairs,
                    fst == self.state().fst,
                    table == self.state().table,
                    len == trs.len(),
                    ms == trs_model(trs@),
                    w == src_elt.weight.model(),
                    groups_ordered(before.groups),
                    groups_ordered(groups_model(groups@)),
                    unfiltered(groups@),
                    expand_trs::<W, CD>(table, before, w, ms.take(j as int)) == Ok::<
                        ExpandM<W::M>,
                        FstError,
                    >(ExpandM { groups: groups_model(groups@), elements: elements as int }),
                    expand_pairs::<W, CD>(fst, table, pairs.take(i + 1)) == expand_trs::<W, CD>(
                        table,
                        before,
                        w,
                        ms,
                    ),
                    expand_pairs::<W, CD>(fst, table, pairs.take(i + 1)) matches Err(err)
                        ==> expand_pairs::<W, CD>(fst, table, pairs) == Err::<
                        ExpandM<W::M>,
                        FstError,
                    >(err),
            {
                let tr: &Tr<W> = &trs[j];
                proof {
                    assert(ms[j as int] == tr.model());
                    assert(ms.take(j + 1).drop_last() =~= ms.take(j as int));
                    lemma_expand_trs_fails::<W, CD>(table, before, w, ms, j + 1);
                    lemma_expand_trs_ordered::<W, CD>(table, before, w, ms.take(j + 1));
                }
                let r: W = match src_elt.weight.times(&tr.weight) {
                    Ok(r) => r,
                    Err(e) => {
                        return Err(e);
                    },
                };
                elements = match self.add_arc(&mut groups, elements, tr, r) {
                    Ok(n) => n,
                    Err(e) => {
                        return Err(e);
                    },
                };
            }
            assert(ms.take(len as int) =~= ms);
        }
        assert(pairs.take(n as int) =~= pairs);
        Ok(groups)
    }
}

proof fn lemma_divisor_fails<W: Semiring, CD: CommonDivisor<W>>(
    pairs: Seq<ElementM<W::M>>,
    i: int,
)
    requires
        0 <= i <= pairs.len(),
    ensures
        divisor_of::<W, CD>(pairs.take(i)) matches Err(err) ==> divisor_of::<W, CD>(pairs) == Err::<
            W::M,
            FstError,
        >(err),
    decreases pairs.len() - i,
{
    if i < pairs.len() {
        assert(pairs.take(i + 1).drop_last() =~= pairs.take(i));
        lemma_divisor_fails::<W, CD>(pairs, i + 1);
    } else {
        assert(pairs.take(i) =~= pairs);
    }
}

proof fn lemma_merge_fails<W: Semiring>(pairs: Seq<ElementM<W::M>>, i: int)
    requires
        0 <= i <= pairs.len(),
    ensures
        merge_equal::<W>(pairs.take(i)) matches Err(err) ==> merge_equal::<W>(pairs) == Err::<
            Seq<ElementM<W::M>>,
            FstError,
        >(err),
    decreases pairs.len() - i,
{
    if i < pairs.len() {
        assert(pairs.take(i + 1).drop_last() =~= pairs.take(i));
        lemma_merge_fails::<W>(pairs, i + 1);
    } else {
        assert(pairs.take(i) =~= pairs);
    }
}

proof fn lemma_divide_fails<W: WeaklyDivisibleSemiring + WeightQuantize>(
    pairs: Seq<ElementM<W::M>>,
    divisor: W::M,
    delta: W::Delta,
    i: int,
)
    requires
        0 <= i <= pairs.len(),
    ensures
        divide_all::<W>(pairs.take(i), divisor, delta) matches Err(err) ==> divide_all::<W>(
            pairs,
            divisor,
            delta,
        ) == Err::<Seq<ElementM<W::M>>, FstError>(err),
    decreases pairs.len() - i,
{
    if i < pairs.len() {
        assert(pairs.take(i + 1).drop_last() =~= pairs.take(i));
        lemma_divide_fails::<W>(pairs, divisor, delta, i + 1);
    } else {
        assert(pairs.take(i) =~= pairs);
    }
}

proof fn lemma_final_fails<W: Semiring>(fst: FstM<W::M>, pairs: Seq<ElementM<W::M>>, i: int)
    requires
        0 <= i <= pairs.len(),
    ensures
        subset_final::<W>(fst, pairs.take(i)) matches Err(err) ==> subset_final::<W>(fst, pairs)
            == Err::<W::M, FstError>(err),
    decreases pairs.len() - i,
{
    if i < pairs.len() {
        assert(pairs.take(i + 1).drop_last() =~= pairs.take(i));
        lemma_final_fails::<W>(fst, pairs, i + 1);
    } else {
        assert(pairs.take(i) =~= pairs);
    }
}

proof fn lemma_name_groups_fails<W: WeaklyDivisibleSemiring + WeightQuantize, CD: CommonDivisor<W>>(
    t: TableM<W::M>,
    groups: Seq<GroupM<W::M>>,
    delta: W::Delta,
    i: int,
)
    requires
        0 <= i <= groups.len(),
    ensures
        name_groups::<W, CD>(t, groups.take(i), delta).1 is Err ==> name_groups::<W, CD>(
            t,
            groups,
            delta,
        ) == name_groups::<W, CD>(t, groups.take(i), delta),
    decreases groups.len() - i,
{
    if i < groups.len() {
        assert(groups.take(i + 1).drop_last() =~= groups.take(i));
        lemma_name_groups_fails::<W, CD>(t, groups, delta, i + 1);
    } else {
        assert(groups.take(i) =~= groups);
    }
}

/// Naming the destinations keeps the table valid and every state in it, and
/// leads to states of the table.
pub proof fn lemma_name_groups<W: WeaklyDivisibleSemiring + WeightQuantize, CD: CommonDivisor<W>>(
    t: TableM<W::M>,
    groups: Seq<GroupM<W::M>>,
    delta: W::Delta,
)
    requires
        t.valid(),
    ensures
        ({
            let (after, r) = name_groups::<W, CD>(t, groups, delta);
            &&& after.valid()
            &&& after.in_dist == t.in_dist
            &&& after.max_elements == t.max_elements
            &&& t.tuples.len() <= after.tuples.len()
            &&& forall|i: int| 0 <= i < t.tuples.len() ==> #[trigger] after.tuples[i] == t.tuples[i]
            &&& r matches Ok(trs) ==> {
                &&& trs.len() == groups.len()
                &&& forall|i: int|
                    0 <= i < trs.len() ==> {
                        &&& (#[trigger] trs[i]).nextstate < after.tuples.len()
                        &&& trs[i].ilabel == groups[i].label
                        &&& trs[i].olabel == groups[i].label
                        &&& norm_model::<W, CD>(groups[i].pairs, delta) == Ok::<
                            (W::M, Seq<ElementM<W::M>>),
                            FstError,
                        >((trs[i].weight, after.tuples[trs[i].nextstate as int].pairs))
                    }
            }
        }),
    decreases groups.len(),
{
    if groups.len() > 0 {
        lemma_name_groups::<W, CD>(t, groups.drop_last(), delta);
        let (t1, r) = name_groups::<W, CD>(t, groups.drop_last(), delta);
        if let Ok(trs1) = r {
            if let Ok((weight, pairs)) = norm_model::<W, CD>(groups.last().pairs, delta) {
                lemma_find::<W>(t1, TupleM { pairs, filter_state: 0 });
                let (after, r2) = name_groups::<W, CD>(t, groups, delta);
                if let Ok(trs) = r2 {
                    assert forall|i: int| 0 <= i < trs.len() implies {
                        &&& (#[trigger] trs[i]).nextstate < after.tuples.len()
                        &&& trs[i].ilabel == groups[i].label
                        &&& trs[i].olabel == groups[i].label
                        &&& norm_model::<W, CD>(groups[i].pairs, delta) == Ok::<
                            (W::M, Seq<ElementM<W::M>>),
                            FstError,
                        >((trs[i].weight, after.tuples[trs[i].nextstate as int].pairs))
                    } by {
                        if i < groups.len() - 1 {
                            assert(trs[i] == trs1[i]);
                            assert(groups.drop_last()[i] == groups[i]);
                        }
                    }
                }
            }
        }
    }
}

impl<'a, W: WeaklyDivisibleSemiring + WeightQuantize, CD: CommonDivisor<W>> DeterminizeFsaOp<
    'a,
    W,
    CD,
> {
    /// The common divisor of the weights.
    fn common_divisor(pairs: &Vec<DeterminizeElement<W>>) -> (res: Result<W, FstError>)
        ensures
            match res {
                Ok(d) => divisor_of::<W, CD>(elements_model(pairs@)) == Ok::<W::M, FstError>(
                    d.model(),
                ),
                Err(e) => divisor_of::<W, CD>(elements_model(pairs@)) == Err::<W::M, FstError>(e),
            },
    {
        let ghost m = elements_model(pairs@);
        let mut divisor: W = W::zero();
        let n: usize = pairs.len();
        assert(m.take(0) =~= Seq::empty());
        for i in 0..n
            invariant
                n == pairs.len(),
                m == elements_model(pairs@),
                divisor_of::<W, CD>(m.take(i as int)) == Ok::<W::M, FstError>(divisor.model()),
        {
            proof {
                assert(m[i as int] == pairs@[i as int].model());
                assert(m.take(i + 1).drop_last() =~= m.take(i as int));
                lemma_divisor_fails::<W, CD>(m, i + 1);
            }
            divisor = match CD::common_divisor(&divisor, &pairs[i].weight) {
                Ok(d) => d,
                Err(e) => {
                    return Err(e);
                },
            };
        }
        assert(m.take(n as int) =~= m);
        Ok(divisor)
    }

    /// Sums the weights of equal states.
    fn merge(pairs: &Vec<DeterminizeElement<W>>) -> (res: Result<
        Vec<DeterminizeElement<W>>,
        FstError,
    >)
        ensures
            match res {
                Ok(merged) => merge_equal::<W>(elements_model(pairs@)) == Ok::<
                    Seq<ElementM<W::M>>,
                    FstError,
                >(elements_model(merged@)),
                Err(e) => merge_equal::<W>(elements_model(pairs@)) == Err::<
                    Seq<ElementM<W::M>>,
                    FstError,
                >(e),
            },
    {
        let ghost m = elements_model(pairs@);
        let mut merged: Vec<DeterminizeElement<W>> = Vec::new();
        let n: usize = pairs.len();
        proof {
            assert(m.take(0) =~= Seq::empty());
            assert(elements_model(merged@) =~= Seq::empty());
        }
        for i in 0..n
            invariant
                n == pairs.len(),
                m == elements_model(pairs@),
                merge_equal::<W>(m.take(i as int)) == Ok::<Seq<ElementM<W::M>>, FstError>(
                    elements_model(merged@),
                ),
        {
            let element: &DeterminizeElement<W> = &pairs[i];
            let ghost before = elements_model(merged@);
            proof {
                assert(m[i as int] == element.model());
                assert(m.take(i + 1).drop_last() =~= m.take(i as int));
                lemma_merge_fails::<W>(m, i + 1);
            }
            let len: usize = merged.len();
            if len > 0 && merged[len - 1].state == element.state {
                assert(before.last() == merged@[len - 1].model());
                let sum: W = match merged[len - 1].weight.plus(&element.weight) {
                    Ok(w) => w,
                    Err(e) => {
                        return Err(e);
                    },
                };
                merged.set(len - 1, DeterminizeElement { state: element.state, weight: sum });
                assert(elements_model(merged@) =~= before.update(
                    len - 1,
                    ElementM { state: element.state, weight: sum.model() },
                ));
            } else {
                if len > 0 {
                    assert(before.last() == merged@[len - 1].model());
                }
                merged.push(element.duplicate());
                assert(elements_model(merged@) =~= before.push(element.model()));
            }
        }
        assert(m.take(n as int) =~= m);
        Ok(merged)
    }

    /// Takes the divisor out of every weight, and rounds.
    fn divide(
        pairs: &Vec<DeterminizeElement<W>>,
        divisor: &W,
        delta: W::Delta,
    ) -> (res: Result<Vec<DeterminizeElement<W>>, FstError>)
        ensures
            match res {
                Ok(divided) => divide_all::<W>(elements_model(pairs@), divisor.model(), delta)
                    == Ok::<Seq<ElementM<W::M>>, FstError>(elements_model(divided@)),
                Err(e) => divide_all::<W>(elements_model(pairs@), divisor.model(), delta) == Err::<
                    Seq<ElementM<W::M>>,
                    FstError,
                >(e),
            },
    {
        let ghost m = elements_model(pairs@);
        let mut divided: Vec<DeterminizeElement<W>> = Vec::new();
        let n: usize = pairs.len();
        proof {
            assert(m.take(0) =~= Seq::empty());
            assert(elements_model(divided@) =~= Seq::empty());
        }
        for i in 0..n
            invariant
                n == pairs.len(),
                m == elements_model(pairs@),
                divide_all::<W>(m.take(i as int), divisor.model(), delta) == Ok::<
                    Seq<ElementM<W::M>>,
                    FstError,
                >(elements_model(divided@)),
        {
            let element: &DeterminizeElement<W> = &pairs[i];
            let ghost before = elements_model(divided@);
            proof {
                assert(m[i as int] == element.model());
                assert(m.take(i + 1).drop_last() =~= m.take(i as int));
                lemma_divide_fails::<W>(m, divisor.model(), delta, i + 1);
            }
            let quotient: W = match element.weight.divide(divisor, DivideType::DivideLeft) {
                Ok(w) => w,
                Err(e) => {
                    return Err(e);
                },
            };
            let rounded: W = match quotient.quantize(delta) {
                Ok(w) => w,
                Err(e) => {
                    return Err(e);
                },
            };
            let ghost rm = rounded.model();
            divided.push(DeterminizeElement { state: element.state, weight: rounded });
            assert(elements_model(divided@) =~= before.push(
                ElementM { state: element.state, weight: rm },
            ));
        }
        assert(m.take(n as int) =~= m);
        Ok(divided)
    }

    /// Takes the common divisor out of what leaves on one label. The list arrives in
    /// order: each element was put where it belongs when the transition that leads to it
    /// was met. The subset that is left names the same states, in order and each once, with the sum of its weights
    /// from which the divisor was taken out.
    fn norm_tr(&self, det_tr: &DeterminizeTr<W>) -> (res: Result<DeterminizeTr<W>, FstError>)
        requires
            pairs_ordered(group_model(*det_tr).pairs),
            CD::merge_before_divisor_model() ==> states_ascend(group_model(*det_tr).pairs),
        ensures
            res matches Ok(r) ==> {
                &&& states_ascend(r.dest_tuple.model().pairs)
                &&& forall|q: StateId| #[trigger]
                    names_state(r.dest_tuple.model().pairs, q) == names_state(
                        group_model(*det_tr).pairs,
                        q,
                    )
                &&& sums_divided::<W>(
                    group_model(*det_tr).pairs,
                    r.dest_tuple.model().pairs,
                    r.weight.model(),
                    self.state().delta,
                )
            },
            match res {
                Ok(r) => norm_model::<W, CD>(group_model(*det_tr).pairs, self.state().delta)
                    == Ok::<(W::M, Seq<ElementM<W::M>>), FstError>(
                    (r.weight.model(), r.dest_tuple.model().pairs),
                ) && r.label == det_tr.label && r.dest_tuple.filter_state
                    == det_tr.dest_tuple.filter_state,
                Err(e) => norm_model::<W, CD>(group_model(*det_tr).pairs, self.state().delta)
                    == Err::<(W::M, Seq<ElementM<W::M>>), FstError>(e),
            },
    {
        proof {
            lemma_norm_ascends::<W, CD>(group_model(*det_tr).pairs, self.state().delta);
        }
        let pairs: &Vec<DeterminizeElement<W>> = &det_tr.dest_tuple.subset.pairs;
        let divisor: W = match Self::common_divisor(pairs) {
            Ok(d) => d,
            Err(e) => {
                return Err(e);
            },
        };
        let dest: Vec<DeterminizeElement<W>> = if CD::merge_before_divisor() {
            match Self::divide(pairs, &divisor, self.delta) {
                Ok(d) => d,
                Err(e) => {
                    return Err(e);
                },
            }
        } else {
            let merged: Vec<DeterminizeElement<W>> = match Self::merge(pairs) {
                Ok(m) => m,
                Err(e) => {
                    return Err(e);
                },
            };
            match Self::divide(&merged, &divisor, self.delta) {
                Ok(d) => d,
                Err(e) => {
                    return Err(e);
                },
            }
        };
        Ok(
            DeterminizeTr {
                label: det_tr.label,
                weight: divisor,
                dest_tuple: DeterminizeStateTuple {
                    subset: WeightedSubset { pairs: dest },
                    filter_state: det_tr.dest_tuple.filter_state,
                },
            },
        )
    }

    fn find_state(&mut self, tuple: &DeterminizeStateTuple<W>) -> (res: Result<StateId, FstError>)
        requires
            old(self).inv(),
        ensures
            final(self).inv(),
            ({
                let (t, r) = find_model::<W>(old(self).state().table, tuple.model());
                final(self).state() == (DetM { table: t, ..old(self).state() }) && res == r
            }),
    {
        self.state_table.find_id_from_ref(tuple)
    }

    /// The distance of every state of the determinized machine, once it has been
    /// computed for each.
    pub fn out_dist(self) -> (res: Result<Vec<W>, FstError>)
        ensures
            match res {
                Ok(d) => {
                    &&& d.len() == self.state().table.out_dist.len()
                    &&& forall|i: int|
                        0 <= i < d.len() ==> #[trigger] self.state().table.out_dist[i] == Some(
                            d[i].model(),
                        )
                },
                Err(e) => exists|i: int|
                    0 <= i < self.state().table.out_dist.len()
                        && #[trigger] self.state().table.out_dist[i] is None && (forall|j: int|
                        0 <= j < i ==> #[trigger] self.state().table.out_dist[j] is Some) && e == (
                    FstError::OutDistanceMissing { index: i as usize }),
            },
    {
        let ghost m = self.state().table.out_dist;
        let out_dist: Vec<Option<W>> = self.state_table.out_dist();
        let mut r: Vec<W> = Vec::new();
        let n: usize = out_dist.len();
        for i in 0..n
            invariant
                n == out_dist.len(),
                m == options_model(out_dist@),
                m == self.state().table.out_dist,
                r.len() == i,
                forall|j: int| 0 <= j < i ==> #[trigger] m[j] == Some(r[j].model()),
        {
            assert(m[i as int] == option_model(out_dist@[i as int]));
            match &out_dist[i] {
                Some(w) => {
                    let ghost before = r@;
                    r.push(w.duplicate());
                    assert forall|j: int| 0 <= j < i + 1 implies #[trigger] m[j] == Some(
                        r[j].model(),
                    ) by {
                        if j < i {
                            assert(r[j] == before[j]);
                        }
                    }
                },
                None => {
                    assert(self.state().table.out_dist[i as int] is None);
                    return Err(FstError::OutDistanceMissing { index: i });
                },
            }
        }
        Ok(r)
    }
}

impl<'a, W: WeaklyDivisibleSemiring + WeightQuantize, CD: CommonDivisor<W>> FstOp<
    W,
> for DeterminizeFsaOp<'a, W, CD> {
    type S = DetM<W::M, W::Delta>;

    closed spec fn state(&self) -> Self::S {
        DetM { fst: self.fst.model(), table: self.state_table.model(), delta: self.delta }
    }

    closed spec fn inv(&self) -> bool {
        self.state_table.inv()
    }

    open spec fn valid(s: Self::S) -> bool {
        s.table.valid()
    }

    open spec fn known(s: Self::S, id: StateId) -> bool {
        id < s.table.tuples.len()
    }

    open spec fn start_model(s: Self::S) -> (Self::S, Result<Option<StateId>, FstError>) {
        match s.fst.start {
            None => (s, Ok(None)),
            Some(q) => {
                let (table, r) = find_model::<W>(
                    s.table,
                    TupleM {
                        pairs: seq![ElementM { state: q, weight: W::one_model() }],
                        filter_state: q,
                    },
                );
                (
                    DetM { table, ..s },
                    match r {
                        Ok(id) => Ok(Some(id)),
                        Err(e) => Err(e),
                    },
                )
            },
        }
    }

    open spec fn trs_model(s: Self::S, id: StateId) -> (
        Self::S,
        Result<Seq<TrM<W::M>>, FstError>,
    ) {
        match expand_pairs::<W, CD>(s.fst, s.table, s.table.tuples[id as int].pairs) {
            Err(e) => (s, Err(e)),
            Ok(e) => {
                let (table, r) = name_groups::<W, CD>(s.table, e.groups, s.delta);
                (DetM { table, ..s }, r)
            },
        }
    }

    open spec fn final_weight_model(s: Self::S, id: StateId) -> (
        Self::S,
        Result<Option<W::M>, FstError>,
    ) {
        (
            s,
            match subset_final::<W>(s.fst, s.table.tuples[id as int].pairs) {
                Err(e) => Err(e),
                Ok(w) => Ok(
                    if w == W::zero_model() {
                        None
                    } else {
                        Some(w)
                    },
                ),
            },
        )
    }

    open spec fn properties_model(s: Self::S) -> FstProperties {
        FstProperties { bits: 0 }
    }

    proof fn lemma_start(s: Self::S) {
        if let Some(q) = s.fst.start {
            lemma_find::<W>(
                s.table,
                TupleM {
                    pairs: seq![ElementM { state: q, weight: W::one_model() }],
                    filter_state: q,
                },
            );
        }
    }

    proof fn lemma_trs(s: Self::S, id: StateId) {
        if let Ok(e) = expand_pairs::<W, CD>(s.fst, s.table, s.table.tuples[id as int].pairs) {
            lemma_name_groups::<W, CD>(s.table, e.groups, s.delta);
        }
    }

    proof fn lemma_final_weight(s: Self::S, id: StateId) {
    }

    fn compute_start(&mut self) -> (r: Result<Option<StateId>, FstError>) {
        match self.fst.start() {
            None => Ok(None),
            Some(start_state) => {
                let mut pairs: Vec<DeterminizeElement<W>> = Vec::new();
                pairs.push(DeterminizeElement::new(start_state, W::one()));
                let tuple = DeterminizeStateTuple {
                    subset: WeightedSubset::from_vec(pairs),
                    filter_state: start_state,
                };
                assert(tuple.model().pairs =~= seq![
                    ElementM { state: start_state, weight: W::one_model() },
                ]);
                match self.find_state(&tuple) {
                    Ok(id) => Ok(Some(id)),
                    Err(e) => Err(e),
                }
            },
        }
    }

    fn compute_trs(&mut self, id: StateId) -> (r: Result<TrsVec<W>, FstError>) {
        let src_tuple: Arc<DeterminizeStateTuple<W>> = self.state_table.find_tuple(id);
        let groups: Vec<DeterminizeTr<W>> = match self.expand(&src_tuple) {
            Ok(groups) => groups,
            Err(e) => {
                return Err(e);
            },
        };
        let ghost before = self.state();
        let ghost m = groups_model(groups@);
        let mut trs: Vec<Tr<W>> = Vec::new();
        let n: usize = groups.len();
        proof {
            let src = src_tuple.model().pairs;
            lemma_expand_pairs_ordered::<W, CD>(before.fst, before.table, src);
            if CD::merge_before_divisor_model() {
                lemma_expand_pairs_ascends::<W, CD>(before.fst, before.table, src);
            }
            assert(m.take(0) =~= Seq::empty());
            assert(trs_model(trs@) =~= Seq::empty());
        }
        for i in 0..n
            invariant
                n == groups.len(),
                m == groups_model(groups@),
                self.inv(),
                self.state() == (DetM {
                    table: name_groups::<W, CD>(before.table, m.take(i as int), before.delta).0,
                    ..before
                }),
                name_groups::<W, CD>(before.table, m.take(i as int), before.delta).1 == Ok::<
                    Seq<TrM<W::M>>,
                    FstError,
                >(trs_model(trs@)),
                unfiltered(groups@),
                Self::trs_model(before, id) == (
                    DetM {
                        table: name_groups::<W, CD>(before.table, m, before.delta).0,
                        ..before
                    },
                    name_groups::<W, CD>(before.table, m, before.delta).1,
                ),
                before == old(self).state(),
                groups_ordered(m),
                CD::merge_before_divisor_model() ==> groups_ascend(m),
        {
            let ghost so_far = trs_model(trs@);
            proof {
                assert(m[i as int] == group_model(groups@[i as int]));
                assert(m.take(i + 1).drop_last() =~= m.take(i as int));
                lemma_name_groups_fails::<W, CD>(before.table, m, before.delta, i + 1);
            }
            let det_tr: DeterminizeTr<W> = match self.norm_tr(&groups[i]) {
                Ok(t) => t,
                Err(e) => {
                    return Err(e);
                },
            };
            let nextstate: StateId = match self.find_state(&det_tr.dest_tuple) {
                Ok(s) => s,
                Err(e) => {
                    return Err(e);
                },
            };
            let ghost wm = det_tr.weight.model();
            trs.push(Tr::new(det_tr.label, det_tr.label, det_tr.weight, nextstate));
            assert(trs_model(trs@) =~= so_far.push(
                TrM {
                    ilabel: groups[i as int].label,
                    olabel: groups[i as int].label,
                    weight: wm,
                    nextstate,
                },
            ));
        }
        assert(m.take(n as int) =~= m);
        Ok(TrsVec::from_vec(trs))
    }

    fn compute_final_weight(&mut self, id: StateId) -> (r: Result<Option<W>, FstError>) {
        let tuple: Arc<DeterminizeStateTuple<W>> = self.state_table.find_tuple(id);
        let ghost fst = self.state().fst;
        let ghost m = tuple.model().pairs;
        let mut final_weight: W = W::zero();
        let n: usize = tuple.subset.pairs.len();
        assert(m.take(0) =~= Seq::empty());
        for i in 0..n
            invariant
                n == tuple.subset.pairs.len(),
                m == tuple.model().pairs,
                m == self.state().table.tuples[id as int].pairs,
                fst == self.state().fst,
                self.inv(),
                self.state() == old(self).state(),
                subset_final::<W>(fst, m.take(i as int)) == Ok::<W::M, FstError>(
                    final_weight.model(),
                ),
        {
            let det_elt: &DeterminizeElement<W> = &tuple.subset.pairs[i];
            proof {
                assert(m[i as int] == det_elt.model());
                assert(m.take(i + 1).drop_last() =~= m.take(i as int));
                lemma_final_fails::<W>(fst, m, i + 1);
            }
            let at_state: W = match self.fst.final_weight(det_elt.state) {
                Ok(Some(w)) => w,
                Ok(None) => W::zero(),
                Err(e) => {
                    return Err(e);
                },
            };
            let through: W = match det_elt.weight.times(&at_state) {
                Ok(w) => w,
                Err(e) => {
                    return Err(e);
                },
            };
            final_weight = match final_weight.plus(&through) {
                Ok(w) => w,
                Err(e) => {
                    return Err(e);
                },
            };
        }
        assert(m.take(n as int) =~= m);
        if final_weight.is_zero() {
            Ok(None)
        } else {
            Ok(Some(final_weight))
        }
    }

    fn properties(&self) -> (r: FstProperties) {
        FstProperties::empty()
    }
}

} // verus!
