//! What holds of every determinized machine.

use crate::determinize::determinize_fsa::{det_begin, det_compute};
use crate::determinize::determinize_fsa_op::{
    divide_all, divisor_of, expand_one, expand_pairs, expand_trs, final_or_zero, group_pairs,
    groups_ordered, groups_upto, has_pair, lemma_expand_one_ordered, lemma_expand_pairs_ordered,
    lemma_expand_trs_ordered, lemma_groups_upto_split, lemma_name_groups, merge_equal, name_groups,
    norm_model, pairs_upto, residual, subset_final, with_group, DetM, DeterminizeFsaOp, ExpandM,
    GroupM,
};
use crate::determinize::divisor_laws::ExactDivisor;
use crate::determinize::divisors::CommonDivisor;
use crate::determinize::element::{ElementM, TupleM};
use crate::determinize::state_table::{find_model, lemma_find, subset_distance, TableM};
use crate::error::FstError;
use crate::fst::tr::{Label, StateId, TrM, NO_STATE_ID};
use crate::fst::vector_fst::{FstM, StateM};
use crate::lazy::fst_op::FstOp;
use crate::lazy::laws::{
    kept_by_expansion, knows_what_it_named, law_bounds_are_harmless, law_bounds_are_named,
    law_bounds_decide, law_known_states_are_met, law_output_follows_operation,
    law_output_keeps_bounds, lemma_met_are_written, named_by, op_expand, states_met,
    true_of_expansion,
};
use crate::lazy::null_cache::NullCache;
use crate::semirings::laws::{exact_step, ExactWeights, SemiringLaws};
use crate::semirings::semiring::{DivideType, Semiring, WeaklyDivisibleSemiring, WeightQuantize};
use vstd::prelude::*;

verus! {

/// The weight with which a machine accepts a string from one of its states: the
/// sum over all paths of the product along the path. The empty label counts as
/// a symbol like any other.
pub open spec fn accept_from<W: SemiringLaws>(
    fst: FstM<W::M>,
    q: StateId,
    string: Seq<Label>,
) -> W::V
    decreases string.len(), 1int, 0int,
{
    if !fst.has_state(q) {
        W::value(W::zero_model())
    } else if string.len() == 0 {
        W::value(final_or_zero::<W>(fst.states[q as int].final_weight))
    } else {
        accept_by::<W>(fst, fst.states[q as int].trs, string)
    }
}

/// The weight with which a machine accepts a non-empty string by one of the given
/// transitions.
pub open spec fn accept_by<W: SemiringLaws>(
    fst: FstM<W::M>,
    trs: Seq<TrM<W::M>>,
    string: Seq<Label>,
) -> W::V
    decreases string.len(), 0int, trs.len(),
{
    if trs.len() == 0 || string.len() == 0 {
        W::value(W::zero_model())
    } else {
        let others = accept_by::<W>(fst, trs.drop_last(), string);
        if trs.last().ilabel == string[0] {
            W::sum(
                others,
                W::product(
                    W::value(trs.last().weight),
                    accept_from::<W>(fst, trs.last().nextstate, string.drop_first()),
                ),
            )
        } else {
            others
        }
    }
}

/// The weight of a string.
pub open spec fn weight_of<W: SemiringLaws>(fst: FstM<W::M>, string: Seq<Label>) -> W::V {
    match fst.start {
        None => W::value(W::zero_model()),
        Some(q) => accept_from::<W>(fst, q, string),
    }
}

/// The weight with which a weighted subset accepts a string.
pub open spec fn subset_accept<W: SemiringLaws>(
    fst: FstM<W::M>,
    pairs: Seq<ElementM<W::M>>,
    string: Seq<Label>,
) -> W::V
    decreases pairs.len(),
{
    if pairs.len() == 0 {
        W::value(W::zero_model())
    } else {
        W::sum(
            subset_accept::<W>(fst, pairs.drop_last(), string),
            W::product(
                W::value(pairs.last().weight),
                accept_from::<W>(fst, pairs.last().state, string),
            ),
        )
    }
}

proof fn lemma_sum_swap<W: SemiringLaws>(a: W::V, b: W::V, c: W::V)
    ensures
        W::sum(W::sum(a, b), c) == W::sum(W::sum(a, c), b),
{
    W::law_sum_associative(a, b, c);
    W::law_sum_commutative(b, c);
    W::law_sum_associative(a, c, b);
}

/// One more element adds its share, wherever it is put.
proof fn lemma_accept_insert<W: SemiringLaws>(
    fst: FstM<W::M>,
    pairs: Seq<ElementM<W::M>>,
    k: int,
    element: ElementM<W::M>,
    string: Seq<Label>,
)
    requires
        0 <= k <= pairs.len(),
    ensures
        subset_accept::<W>(fst, pairs.insert(k, element), string) == W::sum(
            subset_accept::<W>(fst, pairs, string),
            W::product(W::value(element.weight), accept_from::<W>(fst, element.state, string)),
        ),
    decreases pairs.len(),
{
    let more = pairs.insert(k, element);
    if k == pairs.len() {
        assert(more.drop_last() =~= pairs);
        assert(more.last() == element);
    } else {
        lemma_accept_insert::<W>(fst, pairs.drop_last(), k, element, string);
        assert(more.drop_last() =~= pairs.drop_last().insert(k, element));
        assert(more.last() == pairs.last());
        lemma_sum_swap::<W>(
            subset_accept::<W>(fst, pairs.drop_last(), string),
            W::product(W::value(element.weight), accept_from::<W>(fst, element.state, string)),
            W::product(
                W::value(pairs.last().weight),
                accept_from::<W>(fst, pairs.last().state, string),
            ),
        );
    }
}

/// A larger weight on an element adds to the whole.
proof fn lemma_accept_add<W: SemiringLaws>(
    fst: FstM<W::M>,
    pairs: Seq<ElementM<W::M>>,
    k: int,
    weight: W::M,
    sum: W::M,
    string: Seq<Label>,
)
    requires
        0 <= k < pairs.len(),
        W::value(sum) == W::sum(W::value(pairs[k].weight), W::value(weight)),
    ensures
        subset_accept::<W>(
            fst,
            pairs.update(k, ElementM { state: pairs[k].state, weight: sum }),
            string,
        ) == W::sum(
            subset_accept::<W>(fst, pairs, string),
            W::product(W::value(weight), accept_from::<W>(fst, pairs[k].state, string)),
        ),
    decreases pairs.len(),
{
    let added = ElementM { state: pairs[k].state, weight: sum };
    let after = pairs.update(k, added);
    let f = accept_from::<W>(fst, pairs[k].state, string);
    let head = subset_accept::<W>(fst, pairs.drop_last(), string);
    if k == pairs.len() - 1 {
        assert(after.drop_last() =~= pairs.drop_last());
        W::law_distributive(W::value(pairs[k].weight), W::value(weight), f);
        W::law_sum_associative(
            head,
            W::product(W::value(pairs[k].weight), f),
            W::product(W::value(weight), f),
        );
    } else {
        lemma_accept_add::<W>(fst, pairs.drop_last(), k, weight, sum, string);
        assert(after.drop_last() =~= pairs.drop_last().update(k, added));
        assert(after.last() == pairs.last());
        lemma_sum_swap::<W>(
            head,
            W::product(W::value(weight), f),
            W::product(
                W::value(pairs.last().weight),
                accept_from::<W>(fst, pairs.last().state, string),
            ),
        );
    }
}

/// The list of `other` after the list of `label` was replaced.
pub proof fn lemma_group_replaced<M>(
    groups: Seq<GroupM<M>>,
    label: Label,
    pairs: Seq<ElementM<M>>,
    other: Label,
)
    requires
        groups_ordered(groups),
        groups_ordered(with_group(groups, label, pairs)),
    ensures
        group_pairs(with_group(groups, label, pairs), other) == (if other == label {
            pairs
        } else {
            group_pairs(groups, other)
        }),
{
    let after = with_group(groups, label, pairs);
    lemma_groups_upto_split(groups, label);
    lemma_groups_upto_split(groups, other);
    lemma_groups_upto_split(after, other);
    let k = groups_upto(groups, label);
    let o = groups_upto(groups, other);
    let a = groups_upto(after, other);
    let present = k > 0 && groups[k - 1].label == label;
    if present {
        assert(after[k - 1] == GroupM { label, pairs });
    } else {
        assert(after[k] == GroupM { label, pairs });
    }
    if other == label {
        if present {
            assert(a == k) by {
                if a < k {
                    assert(after[a].label > label);
                    assert(after[k - 1].label == label);
                }
                if a > k {
                    assert(after[k].label <= label);
                    assert(groups[k].label > label);
                }
            }
        } else {
            assert(a == k + 1) by {
                if a < k + 1 {
                    assert(after[k].label > label);
                }
                if a > k + 1 {
                    assert(after[k + 1].label <= label);
                    assert(groups[k].label > label);
                    assert(after[k + 1] == groups[k]);
                }
            }
        }
    } else if present {
        assert forall|i: int| 0 <= i < groups.len() implies (#[trigger] after[i]).label
            == groups[i].label by {
            if i != k - 1 {
                assert(after[i] == groups[i]);
            }
        }
        assert(a == o) by {
            if a < o {
                assert(after[a].label > other);
                assert(groups[a].label <= other);
            }
            if o < a {
                assert(after[o].label <= other);
                assert(groups[o].label > other);
            }
        }
        if o > 0 && o - 1 != k - 1 {
            assert(after[o - 1] == groups[o - 1]);
        }
    } else {
        if other < label {
            assert(o <= k) by {
                if o > k {
                    assert(groups[k].label <= other);
                    assert(groups[k].label > label);
                }
            }
            assert(a == o) by {
                if a < o {
                    assert(after[a] == groups[a]);
                }
                if o < a {
                    assert(after[o].label <= other);
                    if o < k {
                        assert(after[o] == groups[o]);
                    }
                }
            }
            if o > 0 {
                assert(after[o - 1] == groups[o - 1]);
            }
        } else {
            assert(o >= k) by {
                if o < k {
                    assert(groups[o].label > other);
                    assert(groups[o].label <= label);
                }
            }
            assert(a == o + 1) by {
                if a < o + 1 {
                    assert(after[a].label > other);
                    if a < k {
                        assert(after[a] == groups[a]);
                    } else if a > k {
                        assert(after[a] == groups[a - 1]);
                    }
                }
                if o + 1 < a {
                    assert(after[o + 1].label <= other);
                    assert(after[o + 1] == groups[o]);
                }
            }
            if o > k {
                assert(after[o] == groups[o - 1]);
            } else if o > 0 {
                assert(groups[k - 1].label <= label);
            }
        }
    }
}

/// One more way to go adds its share to the list of its label and to no other.
proof fn lemma_expand_one_accepts<W: SemiringLaws, CD: CommonDivisor<W>>(
    fst: FstM<W::M>,
    t: TableM<W::M>,
    e: ExpandM<W::M>,
    label: Label,
    state: StateId,
    weight: W::M,
    asked: Label,
    string: Seq<Label>,
)
    requires
        groups_ordered(e.groups),
    ensures
        expand_one::<W, CD>(t, e, label, state, weight) matches Ok(after) ==> subset_accept::<W>(
            fst,
            group_pairs(after.groups, asked),
            string,
        ) == (if asked == label {
            W::sum(
                subset_accept::<W>(fst, group_pairs(e.groups, asked), string),
                W::product(W::value(weight), accept_from::<W>(fst, state, string)),
            )
        } else {
            subset_accept::<W>(fst, group_pairs(e.groups, asked), string)
        }),
{
    lemma_expand_one_ordered::<W, CD>(t, e, label, state, weight);
    if let Ok(after) = expand_one::<W, CD>(t, e, label, state, weight) {
        let pairs = group_pairs(e.groups, label);
        let k = pairs_upto(pairs, state);
        lemma_pairs_upto_bounds(pairs, state);
        if CD::merge_before_divisor_model() && has_pair(pairs, state) {
            W::law_plus(pairs[k - 1].weight, weight);
            let sum = W::plus_model(pairs[k - 1].weight, weight)->Ok_0;
            let more = pairs.update(k - 1, ElementM { state, weight: sum });
            lemma_accept_add::<W>(fst, pairs, k - 1, weight, sum, string);
            lemma_group_replaced(e.groups, label, more, asked);
        } else {
            let more = pairs.insert(k, ElementM { state, weight });
            lemma_accept_insert::<W>(
                fst,
                pairs,
                k,
                ElementM { state, weight },
                string,
            );
            lemma_group_replaced(e.groups, label, more, asked);
        }
    }
}

pub proof fn lemma_pairs_upto_bounds<M>(pairs: Seq<ElementM<M>>, state: StateId)
    ensures
        0 <= pairs_upto(pairs, state) <= pairs.len(),
    decreases pairs.len(),
{
    if pairs.len() > 0 {
        lemma_pairs_upto_bounds(pairs.drop_last(), state);
    }
}

/// The transitions of one state add what they accept, times the weight of the
/// state.
proof fn lemma_expand_trs_accepts<W: SemiringLaws, CD: CommonDivisor<W>>(
    fst: FstM<W::M>,
    t: TableM<W::M>,
    e: ExpandM<W::M>,
    weight: W::M,
    trs: Seq<TrM<W::M>>,
    string: Seq<Label>,
)
    requires
        groups_ordered(e.groups),
        string.len() > 0,
    ensures
        expand_trs::<W, CD>(t, e, weight, trs) matches Ok(after) ==> subset_accept::<W>(
            fst,
            group_pairs(after.groups, string[0]),
            string.drop_first(),
        ) == W::sum(
            subset_accept::<W>(fst, group_pairs(e.groups, string[0]), string.drop_first()),
            W::product(W::value(weight), accept_by::<W>(fst, trs, string)),
        ),
    decreases trs.len(),
{
    let rest = string.drop_first();
    let before = subset_accept::<W>(fst, group_pairs(e.groups, string[0]), rest);
    if trs.len() == 0 {
        W::law_product_zero(W::value(weight));
        W::law_sum_zero(before);
        W::law_sum_commutative(before, W::value(W::zero_model()));
    } else {
        lemma_expand_trs_accepts::<W, CD>(fst, t, e, weight, trs.drop_last(), string);
        lemma_expand_trs_ordered::<W, CD>(t, e, weight, trs.drop_last());
        if let Ok(sofar) = expand_trs::<W, CD>(t, e, weight, trs.drop_last()) {
            if let Ok(r) = W::times_model(weight, trs.last().weight) {
                let tr = trs.last();
                let f = accept_from::<W>(fst, tr.nextstate, rest);
                let others = accept_by::<W>(fst, trs.drop_last(), string);
                lemma_expand_one_accepts::<W, CD>(
                    fst,
                    t,
                    sofar,
                    tr.ilabel,
                    tr.nextstate,
                    r,
                    string[0],
                    rest,
                );
                W::law_times(weight, tr.weight);
                if tr.ilabel == string[0] {
                    let (w, u) = (W::value(weight), W::value(tr.weight));
                    W::law_product_associative(w, u, f);
                    W::law_sum_associative(
                        before,
                        W::product(w, others),
                        W::product(w, W::product(u, f)),
                    );
                    W::law_distributive(w, others, W::product(u, f));
                }
            }
        }
    }
}

/// What leaves a subset on the first symbol accepts the rest of a string with the
/// weight with which the subset accepts the whole.
pub proof fn lemma_expand_pairs_accepts<W: SemiringLaws, CD: CommonDivisor<W>>(
    fst: FstM<W::M>,
    t: TableM<W::M>,
    pairs: Seq<ElementM<W::M>>,
    string: Seq<Label>,
)
    requires
        string.len() > 0,
    ensures
        expand_pairs::<W, CD>(fst, t, pairs) matches Ok(e) ==> subset_accept::<W>(
            fst,
            group_pairs(e.groups, string[0]),
            string.drop_first(),
        ) == subset_accept::<W>(fst, pairs, string),
    decreases pairs.len(),
{
    if pairs.len() > 0 {
        lemma_expand_pairs_accepts::<W, CD>(fst, t, pairs.drop_last(), string);
        lemma_expand_pairs_ordered::<W, CD>(fst, t, pairs.drop_last());
        if let Ok(e) = expand_pairs::<W, CD>(fst, t, pairs.drop_last()) {
            if fst.has_state(pairs.last().state) {
                lemma_expand_trs_accepts::<W, CD>(
                    fst,
                    t,
                    e,
                    pairs.last().weight,
                    fst.states[pairs.last().state as int].trs,
                    string,
                );
            }
        }
    }
}

/// Summing the weights of equal states changes nothing.
pub proof fn lemma_merge_accepts<W: SemiringLaws>(
    fst: FstM<W::M>,
    pairs: Seq<ElementM<W::M>>,
    string: Seq<Label>,
)
    ensures
        merge_equal::<W>(pairs) matches Ok(merged) ==> subset_accept::<W>(fst, merged, string)
            == subset_accept::<W>(fst, pairs, string),
    decreases pairs.len(),
{
    if pairs.len() > 0 {
        lemma_merge_accepts::<W>(fst, pairs.drop_last(), string);
        if let Ok(merged) = merge_equal::<W>(pairs.drop_last()) {
            if merged.len() > 0 && merged.last().state == pairs.last().state {
                W::law_plus(merged.last().weight, pairs.last().weight);
                if let Ok(sum) = W::plus_model(merged.last().weight, pairs.last().weight) {
                    lemma_accept_add::<W>(
                        fst,
                        merged,
                        merged.len() - 1,
                        pairs.last().weight,
                        sum,
                        string,
                    );
                }
            } else {
                let after = merged.push(pairs.last());
                assert(after.drop_last() =~= merged);
            }
        }
    }
}

/// The divisor divides every weight of the list.
pub open spec fn divides_all<W: ExactWeights, CD: ExactDivisor<W>>(
    d: W::M,
    pairs: Seq<ElementM<W::M>>,
) -> bool {
    forall|i: int| 0 <= i < pairs.len() ==> CD::divides(d, (#[trigger] pairs[i]).weight)
}

/// The common divisor divides.
pub proof fn lemma_divisor_divides<W: ExactWeights, CD: ExactDivisor<W>>(
    pairs: Seq<ElementM<W::M>>,
)
    ensures
        divisor_of::<W, CD>(pairs) matches Ok(d) ==> divides_all::<W, CD>(d, pairs),
    decreases pairs.len(),
{
    if pairs.len() > 0 {
        lemma_divisor_divides::<W, CD>(pairs.drop_last());
        if let Ok(before) = divisor_of::<W, CD>(pairs.drop_last()) {
            CD::law_common_divisor(before, pairs.last().weight);
            if let Ok(d) = CD::common_divisor_model(before, pairs.last().weight) {
                assert forall|i: int| 0 <= i < pairs.len() implies CD::divides(
                    d,
                    (#[trigger] pairs[i]).weight,
                ) by {
                    if i < pairs.len() - 1 {
                        assert(CD::divides(before, pairs.drop_last()[i].weight));
                    }
                }
            }
        }
    }
}

/// What divides the weights divides their sums.
pub proof fn lemma_merge_divides<W: ExactWeights, CD: ExactDivisor<W>>(
    d: W::M,
    pairs: Seq<ElementM<W::M>>,
)
    requires
        divides_all::<W, CD>(d, pairs),
    ensures
        merge_equal::<W>(pairs) matches Ok(merged) ==> divides_all::<W, CD>(d, merged),
    decreases pairs.len(),
{
    if pairs.len() > 0 {
        assert forall|i: int| 0 <= i < pairs.drop_last().len() implies CD::divides(
            d,
            (#[trigger] pairs.drop_last()[i]).weight,
        ) by {
            assert(CD::divides(d, pairs[i].weight));
        }
        lemma_merge_divides::<W, CD>(d, pairs.drop_last());
        if let Ok(merged) = merge_equal::<W>(pairs.drop_last()) {
            assert(CD::divides(d, pairs[pairs.len() - 1].weight));
            if merged.len() > 0 && merged.last().state == pairs.last().state {
                assert(CD::divides(d, merged[merged.len() - 1].weight));
                CD::law_divides_sum(d, merged.last().weight, pairs.last().weight);
            }
        }
    }
}

/// Taking a divisor out and multiplying with it again changes nothing.
proof fn lemma_divide_accepts<W: ExactWeights, CD: ExactDivisor<W>>(
    fst: FstM<W::M>,
    pairs: Seq<ElementM<W::M>>,
    divisor: W::M,
    delta: W::Delta,
    string: Seq<Label>,
)
    requires
        exact_step::<W>(delta),
        divides_all::<W, CD>(divisor, pairs),
    ensures
        divide_all::<W>(pairs, divisor, delta) matches Ok(divided) ==> W::product(
            W::value(divisor),
            subset_accept::<W>(fst, divided, string),
        ) == subset_accept::<W>(fst, pairs, string),
    decreases pairs.len(),
{
    let d = W::value(divisor);
    if pairs.len() == 0 {
        W::law_product_zero(d);
    } else {
        assert forall|i: int| 0 <= i < pairs.drop_last().len() implies CD::divides(
            divisor,
            (#[trigger] pairs.drop_last()[i]).weight,
        ) by {
            assert(CD::divides(divisor, pairs[i].weight));
        }
        lemma_divide_accepts::<W, CD>(fst, pairs.drop_last(), divisor, delta, string);
        if let Ok(divided) = divide_all::<W>(pairs.drop_last(), divisor, delta) {
            if let Ok(w) = residual::<W>(pairs.last().weight, divisor, delta) {
                let after = divided.push(ElementM { state: pairs.last().state, weight: w });
                assert(after.drop_last() =~= divided);
                let q = W::divide_model(
                    pairs.last().weight,
                    divisor,
                    DivideType::DivideLeft,
                )->Ok_0;
                assert(W::quantize_model(q, delta) == Ok::<W::M, FstError>(w));
                assert(CD::divides(divisor, pairs[pairs.len() - 1].weight));
                CD::law_divides(pairs.last().weight, divisor);
                let f = accept_from::<W>(fst, pairs.last().state, string);
                W::law_product_associative(d, W::value(w), f);
                W::law_distributive(
                    d,
                    subset_accept::<W>(fst, divided, string),
                    W::product(W::value(w), f),
                );
            }
        }
    }
}

/// The divisor times what the destination accepts is what leaves on the label.
proof fn lemma_norm_accepts<W: ExactWeights, CD: ExactDivisor<W>>(
    fst: FstM<W::M>,
    pairs: Seq<ElementM<W::M>>,
    delta: W::Delta,
    string: Seq<Label>,
)
    requires
        exact_step::<W>(delta),
    ensures
        norm_model::<W, CD>(pairs, delta) matches Ok((weight, dest)) ==> W::product(
            W::value(weight),
            subset_accept::<W>(fst, dest, string),
        ) == subset_accept::<W>(fst, pairs, string),
{
    if let Ok((weight, dest)) = norm_model::<W, CD>(pairs, delta) {
        lemma_divisor_divides::<W, CD>(pairs);
        if CD::merge_before_divisor_model() {
            lemma_divide_accepts::<W, CD>(fst, pairs, weight, delta, string);
        } else {
            lemma_merge_accepts::<W>(fst, pairs, string);
            lemma_merge_divides::<W, CD>(weight, pairs);
            let merged = merge_equal::<W>(pairs)->Ok_0;
            lemma_divide_accepts::<W, CD>(fst, merged, weight, delta, string);
        }
    }
}

/// The final weight of a subset is the weight with which it accepts the empty
/// string.
pub proof fn lemma_final_accepts<W: SemiringLaws>(fst: FstM<W::M>, pairs: Seq<ElementM<W::M>>)
    ensures
        subset_final::<W>(fst, pairs) matches Ok(w) ==> W::value(w) == subset_accept::<W>(
            fst,
            pairs,
            Seq::empty(),
        ),
    decreases pairs.len(),
{
    if pairs.len() > 0 {
        lemma_final_accepts::<W>(fst, pairs.drop_last());
        if let Ok(sum) = subset_final::<W>(fst, pairs.drop_last()) {
            if fst.has_state(pairs.last().state) {
                let f = final_or_zero::<W>(fst.states[pairs.last().state as int].final_weight);
                W::law_times(pairs.last().weight, f);
                if let Ok(through) = W::times_model(pairs.last().weight, f) {
                    W::law_plus(sum, through);
                }
            }
        }
    }
}

/// The distance of every state is the distance of its subset.
pub open spec fn distances_full<W: Semiring>(t: TableM<W::M>) -> bool {
    t.in_dist matches Some(in_dist) ==> {
        &&& t.out_dist.len() == t.tuples.len()
        &&& forall|i: int|
            0 <= i < t.tuples.len() ==> ((#[trigger] t.out_dist[i]) matches Some(d)
                && subset_distance::<W>(t.tuples[i].pairs, in_dist) == Ok::<W::M, FstError>(d))
    }
}

proof fn lemma_find_distances<W: Semiring>(t: TableM<W::M>, tuple: TupleM<W::M>)
    requires
        t.valid(),
        distances_full::<W>(t),
    ensures
        find_model::<W>(t, tuple).1 is Ok ==> distances_full::<W>(find_model::<W>(t, tuple).0),
{
}

proof fn lemma_name_groups_distances<
    W: WeaklyDivisibleSemiring + WeightQuantize,
    CD: CommonDivisor<W>,
>(t: TableM<W::M>, groups: Seq<GroupM<W::M>>, delta: W::Delta)
    requires
        t.valid(),
        distances_full::<W>(t),
    ensures
        name_groups::<W, CD>(t, groups, delta).1 is Ok ==> distances_full::<W>(
            name_groups::<W, CD>(t, groups, delta).0,
        ),
    decreases groups.len(),
{
    if groups.len() > 0 {
        lemma_name_groups_distances::<W, CD>(t, groups.drop_last(), delta);
        lemma_name_groups::<W, CD>(t, groups.drop_last(), delta);
        let (t1, r) = name_groups::<W, CD>(t, groups.drop_last(), delta);
        if r is Ok {
            if let Ok((weight, pairs)) = norm_model::<W, CD>(groups.last().pairs, delta) {
                lemma_find_distances::<W>(t1, TupleM { pairs, filter_state: 0 });
            }
        }
    }
}

/// Every tuple that naming adds is the destination of a transition.
proof fn lemma_name_groups_names<
    W: WeaklyDivisibleSemiring + WeightQuantize,
    CD: CommonDivisor<W>,
>(t: TableM<W::M>, groups: Seq<GroupM<W::M>>, delta: W::Delta, id: StateId)
    requires
        t.valid(),
        name_groups::<W, CD>(t, groups, delta).1 is Ok,
        t.tuples.len() <= id < name_groups::<W, CD>(t, groups, delta).0.tuples.len(),
    ensures
        named_by(name_groups::<W, CD>(t, groups, delta).1->Ok_0, id),
    decreases groups.len(),
{
    if groups.len() > 0 {
        let (t1, r) = name_groups::<W, CD>(t, groups.drop_last(), delta);
        lemma_name_groups::<W, CD>(t, groups.drop_last(), delta);
        let trs = name_groups::<W, CD>(t, groups, delta).1->Ok_0;
        let before = r->Ok_0;
        if id < t1.tuples.len() {
            lemma_name_groups_names::<W, CD>(t, groups.drop_last(), delta, id);
            let j = choose|j: int|
                0 <= j < before.len() && (#[trigger] before[j]).nextstate == id;
            assert(trs[j].nextstate == id);
        } else {
            let (weight, pairs) = norm_model::<W, CD>(groups.last().pairs, delta)->Ok_0;
            let tuple = TupleM { pairs, filter_state: 0 };
            lemma_find::<W>(t1, tuple);
            assert(find_model::<W>(t1, tuple).0.tuples.len() <= t1.tuples.len() + 1);
            assert(trs.last().nextstate == id);
            assert(trs[trs.len() - 1].nextstate == id);
        }
    }
}

/// What is written out for a state is what its subset says.
pub open spec fn stands_for<W: WeaklyDivisibleSemiring + WeightQuantize, CD: CommonDivisor<W>>(
    s: DetM<W::M, W::Delta>,
    t: TableM<W::M>,
    e: ExpandM<W::M>,
    id: StateId,
    state: StateM<W::M>,
) -> bool {
    let pairs = s.table.tuples[id as int].pairs;
    &&& expand_pairs::<W, CD>(s.fst, t, pairs) == Ok::<ExpandM<W::M>, FstError>(e)
    &&& state.trs.len() == e.groups.len()
    &&& forall|i: int|
        0 <= i < state.trs.len() ==> {
            &&& (#[trigger] state.trs[i]).nextstate < s.table.tuples.len()
            &&& state.trs[i].ilabel == e.groups[i].label
            &&& state.trs[i].olabel == e.groups[i].label
            &&& norm_model::<W, CD>(e.groups[i].pairs, s.delta) == Ok::<
                (W::M, Seq<ElementM<W::M>>),
                FstError,
            >((state.trs[i].weight, s.table.tuples[state.trs[i].nextstate as int].pairs))
        }
    &&& subset_final::<W>(s.fst, pairs) matches Ok(w) && state.final_weight == (if w
        == W::zero_model() {
        None
    } else {
        Some(w)
    })
}

/// What is written out for a state is what its subset says, at some point of the
/// computation.
pub open spec fn written_for<W: WeaklyDivisibleSemiring + WeightQuantize, CD: CommonDivisor<W>>(
    s: DetM<W::M, W::Delta>,
    id: StateId,
    state: StateM<W::M>,
) -> bool {
    &&& id < s.table.tuples.len()
    &&& exists|t: TableM<W::M>, e: ExpandM<W::M>| #[trigger]
        stands_for::<W, CD>(s, t, e, id, state)
}

/// What a determinization keeps.
pub open spec fn det_keeps<W: WeaklyDivisibleSemiring + WeightQuantize>(
    begin: DetM<W::M, W::Delta>,
) -> spec_fn(DetM<W::M, W::Delta>) -> bool {
    |s: DetM<W::M, W::Delta>|
        s.fst == begin.fst && s.delta == begin.delta && s.table.in_dist == begin.table.in_dist
            && distances_full::<W>(s.table)
}

/// What holds of every state that a determinization writes out.
pub open spec fn det_holds<W: WeaklyDivisibleSemiring + WeightQuantize, CD: CommonDivisor<W>>() -> spec_fn(
    DetM<W::M, W::Delta>,
    StateId,
    StateM<W::M>,
) -> bool {
    |s: DetM<W::M, W::Delta>, id: StateId, state: StateM<W::M>|
        written_for::<W, CD>(s, id, state)
}

pub proof fn lemma_det_expansion<W: WeaklyDivisibleSemiring + WeightQuantize, CD: CommonDivisor<W>>(
    begin: DetM<W::M, W::Delta>,
)
    requires
        begin.table == TableM::<W::M>::empty(begin.table.in_dist, begin.table.max_elements),
    ensures
        DeterminizeFsaOp::<'_, W, CD>::valid(begin),
        kept_by_expansion::<W, DeterminizeFsaOp<'_, W, CD>>(begin, det_keeps::<W>(begin)),
        true_of_expansion::<W, DeterminizeFsaOp<'_, W, CD>>(
            det_keeps::<W>(begin),
            det_holds::<W, CD>(),
        ),
        knows_what_it_named::<W, DeterminizeFsaOp<'_, W, CD>>(begin),
{
    let good = det_keeps::<W>(begin);
    let holds = det_holds::<W, CD>();
    if let Some(q) = begin.fst.start {
        let tuple = TupleM {
            pairs: seq![ElementM { state: q, weight: W::one_model() }],
            filter_state: q,
        };
        lemma_find::<W>(begin.table, tuple);
        lemma_find_distances::<W>(begin.table, tuple);
        assert(find_model::<W>(begin.table, tuple).0.tuples.len() <= 1);
    }
    assert forall|s: DetM<W::M, W::Delta>, id: StateId|
        DeterminizeFsaOp::<'_, W, CD>::valid(s) && good(s) && DeterminizeFsaOp::<'_, W, CD>::known(
            s,
            id,
        ) && (#[trigger] op_expand::<W, DeterminizeFsaOp<'_, W, CD>>(s, id)).1 is Ok implies good(
        op_expand::<W, DeterminizeFsaOp<'_, W, CD>>(s, id).0,
    ) && holds(
        op_expand::<W, DeterminizeFsaOp<'_, W, CD>>(s, id).0,
        id,
        op_expand::<W, DeterminizeFsaOp<'_, W, CD>>(s, id).1->Ok_0,
    ) by {
        let pairs = s.table.tuples[id as int].pairs;
        let e = expand_pairs::<W, CD>(s.fst, s.table, pairs)->Ok_0;
        lemma_name_groups::<W, CD>(s.table, e.groups, s.delta);
        lemma_name_groups_distances::<W, CD>(s.table, e.groups, s.delta);
        let (after, r) = op_expand::<W, DeterminizeFsaOp<'_, W, CD>>(s, id);
        assert(stands_for::<W, CD>(after, s.table, e, id, r->Ok_0));
    }
    assert forall|
        s: DetM<W::M, W::Delta>,
        id: StateId,
        other: StateId,
        state: StateM<W::M>,
    |
        DeterminizeFsaOp::<'_, W, CD>::valid(s) && good(s) && DeterminizeFsaOp::<'_, W, CD>::known(
            s,
            id,
        ) && (#[trigger] op_expand::<W, DeterminizeFsaOp<'_, W, CD>>(s, id)).1 is Ok && (
        #[trigger] holds(s, other, state)) implies holds(
        op_expand::<W, DeterminizeFsaOp<'_, W, CD>>(s, id).0,
        other,
        state,
    ) by {
        let pairs = s.table.tuples[id as int].pairs;
        let e = expand_pairs::<W, CD>(s.fst, s.table, pairs)->Ok_0;
        lemma_name_groups::<W, CD>(s.table, e.groups, s.delta);
        let (after, r) = op_expand::<W, DeterminizeFsaOp<'_, W, CD>>(s, id);
        let (t1, e1) = choose|t: TableM<W::M>, e: ExpandM<W::M>| #[trigger]
            stands_for::<W, CD>(s, t, e, other, state);
        assert(after.table.tuples[other as int] == s.table.tuples[other as int]);
        assert forall|i: int| 0 <= i < state.trs.len() implies {
            &&& (#[trigger] state.trs[i]).nextstate < after.table.tuples.len()
            &&& state.trs[i].ilabel == e1.groups[i].label
            &&& state.trs[i].olabel == e1.groups[i].label
            &&& norm_model::<W, CD>(e1.groups[i].pairs, after.delta) == Ok::<
                (W::M, Seq<ElementM<W::M>>),
                FstError,
            >((state.trs[i].weight, after.table.tuples[state.trs[i].nextstate as int].pairs))
        } by {
            let n = state.trs[i].nextstate as int;
            assert(after.table.tuples[n] == s.table.tuples[n]);
        }
        assert(stands_for::<W, CD>(after, t1, e1, other, state));
    }
    assert forall|s: DetM<W::M, W::Delta>, id: StateId, other: StateId|
        DeterminizeFsaOp::<'_, W, CD>::valid(s) && DeterminizeFsaOp::<'_, W, CD>::known(s, id) && (
        #[trigger] op_expand::<W, DeterminizeFsaOp<'_, W, CD>>(s, id)).1 is Ok
            && #[trigger] DeterminizeFsaOp::<'_, W, CD>::known(
            op_expand::<W, DeterminizeFsaOp<'_, W, CD>>(s, id).0,
            other,
        ) implies DeterminizeFsaOp::<'_, W, CD>::known(s, other) || named_by(
        op_expand::<W, DeterminizeFsaOp<'_, W, CD>>(s, id).1->Ok_0.trs,
        other,
    ) by {
        let pairs = s.table.tuples[id as int].pairs;
        let e = expand_pairs::<W, CD>(s.fst, s.table, pairs)->Ok_0;
        if !DeterminizeFsaOp::<'_, W, CD>::known(s, other) {
            lemma_name_groups_names::<W, CD>(s.table, e.groups, s.delta, other);
        }
    }
}

/// Everything that is known of a machine that was written out.
pub proof fn lemma_det_output<W: WeaklyDivisibleSemiring + WeightQuantize, CD: CommonDivisor<W>>(
    fst: FstM<W::M>,
    in_dist: Option<Seq<W::M>>,
    delta: W::Delta,
    max_states: Option<usize>,
)
    ensures
        ({
            let (l, r) = det_compute::<W, CD>(fst, in_dist, delta, max_states);
            r matches Ok(out) ==> {
                &&& l.op.table.valid()
                &&& det_keeps::<W>(det_begin::<W>(fst, in_dist, delta).op)(l.op)
                &&& out.states.len() == l.op.table.tuples.len()
                &&& out.start is Some == fst.start is Some
                &&& out.start matches Some(s) ==> s < out.states.len()
                    && l.op.table.tuples[s as int].pairs == seq![
                    ElementM { state: fst.start->0, weight: W::one_model() },
                ]
                &&& forall|id: StateId|
                    id < out.states.len() ==> #[trigger] written_for::<W, CD>(
                        l.op,
                        id,
                        out.states[id as int],
                    )
                &&& out.isymt == fst.isymt || out.start is None
                &&& out.osymt == fst.osymt || out.start is None
            }
        }),
{
    let begin = det_begin::<W>(fst, in_dist, delta);
    let good = det_keeps::<W>(begin.op);
    let holds = det_holds::<W, CD>();
    lemma_det_expansion::<W, CD>(begin.op);
    law_output_follows_operation::<W, DeterminizeFsaOp<'_, W, CD>>(
        begin.op,
        fst.isymt,
        fst.osymt,
        max_states,
        None,
        good,
        holds,
    );
    law_known_states_are_met::<W, DeterminizeFsaOp<'_, W, CD>>(
        begin.op,
        fst.isymt,
        fst.osymt,
        max_states,
        None,
    );
    let (l, r) = det_compute::<W, CD>(fst, in_dist, delta, max_states);
    let met = states_met::<W, DeterminizeFsaOp<'_, W, CD>, NullCache<W>>(begin, max_states, None);
    if let Ok(out) = r {
        if out.start is Some {
            let start_tuple = TupleM {
                pairs: seq![ElementM { state: fst.start->0, weight: W::one_model() }],
                filter_state: fst.start->0,
            };
            lemma_find::<W>(begin.op.table, start_tuple);
            lemma_det_first::<W, CD>(fst, in_dist, delta, max_states);
            let n = out.states.len();
            let t = l.op.table.tuples.len();
            assert(n <= t) by {
                assert(met.contains((n - 1) as StateId));
                assert(DeterminizeFsaOp::<'_, W, CD>::known(l.op, (n - 1) as StateId));
            }
            assert(t <= n) by {
                assert(DeterminizeFsaOp::<'_, W, CD>::known(l.op, (t - 1) as StateId));
                assert(met.contains((t - 1) as StateId));
            }
            assert forall|id: StateId| id < n implies #[trigger] written_for::<W, CD>(
                l.op,
                id,
                out.states[id as int],
            ) by {
                assert(DeterminizeFsaOp::<'_, W, CD>::known(l.op, id));
                assert(met.contains(id));
                assert(holds(l.op, id, out.states[id as int]));
            }
        } else {
            assert(fst.start is None);
        }
    }
}

/// The first tuple that a determinization names stays the first.
spec fn first_tuple<W: WeaklyDivisibleSemiring + WeightQuantize>(
    begin: DetM<W::M, W::Delta>,
) -> spec_fn(DetM<W::M, W::Delta>) -> bool {
    |s: DetM<W::M, W::Delta>|
        begin.fst.start matches Some(q) ==> s.table.tuples.len() >= 1 && s.table.tuples[0].pairs
            == seq![ElementM { state: q, weight: W::one_model() }]
}

proof fn lemma_det_first<W: WeaklyDivisibleSemiring + WeightQuantize, CD: CommonDivisor<W>>(
    fst: FstM<W::M>,
    in_dist: Option<Seq<W::M>>,
    delta: W::Delta,
    max_states: Option<usize>,
)
    ensures
        ({
            let (l, r) = det_compute::<W, CD>(fst, in_dist, delta, max_states);
            r matches Ok(out) ==> first_tuple::<W>(det_begin::<W>(fst, in_dist, delta).op)(l.op)
                && (fst.start is Some ==> out.start == Some(0u32))
        }),
{
    let begin = det_begin::<W>(fst, in_dist, delta);
    let good = first_tuple::<W>(begin.op);
    let holds = |s: DetM<W::M, W::Delta>, id: StateId, state: StateM<W::M>| true;
    lemma_det_expansion::<W, CD>(begin.op);
    if let Some(q) = fst.start {
        let tuple = TupleM {
            pairs: seq![ElementM { state: q, weight: W::one_model() }],
            filter_state: q,
        };
        lemma_find::<W>(begin.op.table, tuple);
        assert(find_model::<W>(begin.op.table, tuple).1 is Ok ==> find_model::<W>(
            begin.op.table,
            tuple,
        ).0.tuples[0] == tuple);
    }
    assert forall|s: DetM<W::M, W::Delta>, id: StateId|
        DeterminizeFsaOp::<'_, W, CD>::valid(s) && good(s) && DeterminizeFsaOp::<'_, W, CD>::known(
            s,
            id,
        ) && (#[trigger] op_expand::<W, DeterminizeFsaOp<'_, W, CD>>(s, id)).1 is Ok implies good(
        op_expand::<W, DeterminizeFsaOp<'_, W, CD>>(s, id).0,
    ) by {
        let e = expand_pairs::<W, CD>(s.fst, s.table, s.table.tuples[id as int].pairs)->Ok_0;
        lemma_name_groups::<W, CD>(s.table, e.groups, s.delta);
    }
    law_output_follows_operation::<W, DeterminizeFsaOp<'_, W, CD>>(
        begin.op,
        fst.isymt,
        fst.osymt,
        max_states,
        None,
        good,
        holds,
    );
}

/// No state of the output has two transitions with the same input label, and
/// output labels are input labels: along the transitions of a state the labels
/// grow.
pub open spec fn deterministic<M>(fst: FstM<M>) -> bool {
    &&& forall|s: int, i: int, j: int|
        0 <= s < fst.states.len() && 0 <= i < j < fst.states[s].trs.len() ==> (
        #[trigger] fst.states[s].trs[i]).ilabel < (#[trigger] fst.states[s].trs[j]).ilabel
    &&& forall|s: int, i: int|
        0 <= s < fst.states.len() && 0 <= i < fst.states[s].trs.len() ==> (
        #[trigger] fst.states[s].trs[i]).ilabel == fst.states[s].trs[i].olabel
}

/// A determinized automaton is deterministic: no state has two transitions with
/// the same input label, and the transitions of a state are sorted by label.
pub proof fn law_determinize_fsa_is_deterministic<
    W: WeaklyDivisibleSemiring + WeightQuantize,
    CD: CommonDivisor<W>,
>(
    fst: FstM<W::M>,
    in_dist: Option<Seq<W::M>>,
    delta: W::Delta,
    max_states: Option<usize>,
)
    ensures
        det_compute::<W, CD>(fst, in_dist, delta, max_states).1 matches Ok(out) ==> deterministic(
            out,
        ),
{
    lemma_det_output::<W, CD>(fst, in_dist, delta, max_states);
    let (l, r) = det_compute::<W, CD>(fst, in_dist, delta, max_states);
    if let Ok(out) = r {
        assert forall|s: int, i: int, j: int|
            0 <= s < out.states.len() && 0 <= i < j < out.states[s].trs.len() implies (
        #[trigger] out.states[s].trs[i]).ilabel < (#[trigger] out.states[s].trs[j]).ilabel by {
            assert(written_for::<W, CD>(l.op, s as StateId, out.states[s]));
            let (t, e) = choose|t: TableM<W::M>, e: ExpandM<W::M>| #[trigger]
                stands_for::<W, CD>(l.op, t, e, s as StateId, out.states[s]);
            lemma_expand_pairs_ordered::<W, CD>(l.op.fst, t, l.op.table.tuples[s].pairs);
            assert(e.groups[i].label < e.groups[j].label);
        }
        assert forall|s: int, i: int|
            0 <= s < out.states.len() && 0 <= i < out.states[s].trs.len() implies (
        #[trigger] out.states[s].trs[i]).ilabel == out.states[s].trs[i].olabel by {
            assert(written_for::<W, CD>(l.op, s as StateId, out.states[s]));
        }
    }
}

/// A bound on the number of states that is not exceeded changes nothing.
pub proof fn law_determinize_fsa_bound_is_harmless<
    W: WeaklyDivisibleSemiring + WeightQuantize,
    CD: CommonDivisor<W>,
>(
    fst: FstM<W::M>,
    in_dist: Option<Seq<W::M>>,
    delta: W::Delta,
    max_states: Option<usize>,
)
    requires
        det_compute::<W, CD>(fst, in_dist, delta, max_states).1 is Ok,
    ensures
        det_compute::<W, CD>(fst, in_dist, delta, None) == det_compute::<W, CD>(
            fst,
            in_dist,
            delta,
            max_states,
        ),
{
    let begin = det_begin::<W>(fst, in_dist, delta);
    law_bounds_are_harmless::<W, DeterminizeFsaOp<'_, W, CD>, NullCache<W>>(
        begin,
        fst.isymt,
        fst.osymt,
        max_states,
        None,
    );
}

/// When distances are asked for, there is one for every state of the output: the
/// sum over its subset of the weight times the given distance.
pub proof fn law_determinize_fsa_has_distances<
    W: WeaklyDivisibleSemiring + WeightQuantize,
    CD: CommonDivisor<W>,
>(fst: FstM<W::M>, in_dist: Seq<W::M>, delta: W::Delta, max_states: Option<usize>)
    ensures
        ({
            let (l, r) = det_compute::<W, CD>(fst, Some(in_dist), delta, max_states);
            r matches Ok(out) ==> {
                &&& l.op.table.out_dist.len() == out.states.len()
                &&& l.op.table.tuples.len() == out.states.len()
                &&& forall|s: int|
                    0 <= s < out.states.len() ==> ((
                    #[trigger] l.op.table.out_dist[s]) matches Some(d) && subset_distance::<W>(
                        l.op.table.tuples[s].pairs,
                        in_dist,
                    ) == Ok::<W::M, FstError>(d))
            }
        }),
{
    lemma_det_output::<W, CD>(fst, Some(in_dist), delta, max_states);
}

/// The transitions with one label out of a list with growing labels.
pub proof fn lemma_accept_by_one<W: SemiringLaws>(
    fst: FstM<W::M>,
    trs: Seq<TrM<W::M>>,
    string: Seq<Label>,
    k: int,
)
    requires
        string.len() > 0,
        forall|i: int, j: int|
            0 <= i < j < trs.len() ==> (#[trigger] trs[i]).ilabel < (#[trigger] trs[j]).ilabel,
        0 <= k <= trs.len(),
        forall|i: int| 0 <= i < trs.len() && i != k ==> (#[trigger] trs[i]).ilabel != string[0],
        k < trs.len() ==> trs[k].ilabel == string[0],
    ensures
        accept_by::<W>(fst, trs, string) == (if k < trs.len() {
            W::product(
                W::value(trs[k].weight),
                accept_from::<W>(fst, trs[k].nextstate, string.drop_first()),
            )
        } else {
            W::value(W::zero_model())
        }),
    decreases trs.len(),
{
    if trs.len() > 0 {
        let shorter = trs.drop_last();
        assert forall|i: int, j: int| 0 <= i < j < shorter.len() implies (
        #[trigger] shorter[i]).ilabel < (#[trigger] shorter[j]).ilabel by {
            assert(trs[i].ilabel < trs[j].ilabel);
        }
        if k == trs.len() - 1 {
            lemma_accept_by_one::<W>(fst, shorter, string, shorter.len() as int);
            W::law_sum_zero(
                W::product(
                    W::value(trs[k].weight),
                    accept_from::<W>(fst, trs[k].nextstate, string.drop_first()),
                ),
            );
        } else if k < trs.len() {
            lemma_accept_by_one::<W>(fst, shorter, string, k);
            assert(trs[trs.len() - 1].ilabel != string[0]);
        } else {
            lemma_accept_by_one::<W>(fst, shorter, string, shorter.len() as int);
            assert(trs[trs.len() - 1].ilabel != string[0]);
        }
    }
}

/// How a state of the output reads the first symbol of a string: by the transition at
/// the place that comes back, which leads to the subset that what leaves on the symbol
/// was turned into; or, if nothing leaves on the symbol, not at all.
pub proof fn lemma_det_reads<W: ExactWeights, CD: CommonDivisor<W>>(
    fst: FstM<W::M>,
    in_dist: Option<Seq<W::M>>,
    delta: W::Delta,
    max_states: Option<usize>,
    id: StateId,
    string: Seq<Label>,
) -> (r: Option<(int, Seq<ElementM<W::M>>)>)
    requires
        det_compute::<W, CD>(fst, in_dist, delta, max_states).1 is Ok,
        id < det_compute::<W, CD>(fst, in_dist, delta, max_states).1->Ok_0.states.len(),
        string.len() > 0,
    ensures
        ({
            let l = det_compute::<W, CD>(fst, in_dist, delta, max_states).0;
            let out = det_compute::<W, CD>(fst, in_dist, delta, max_states).1->Ok_0;
            let pairs = l.op.table.tuples[id as int].pairs;
            let trs = out.states[id as int].trs;
            match r {
                None => {
                    &&& accept_from::<W>(out, id, string) == W::value(W::zero_model())
                    &&& subset_accept::<W>(fst, pairs, string) == W::value(W::zero_model())
                },
                Some((k, group)) => {
                    &&& 0 <= k < trs.len()
                    &&& trs[k].nextstate < out.states.len()
                    &&& accept_from::<W>(out, id, string) == W::product(
                        W::value(trs[k].weight),
                        accept_from::<W>(out, trs[k].nextstate, string.drop_first()),
                    )
                    &&& norm_model::<W, CD>(group, delta) == Ok::<
                        (W::M, Seq<ElementM<W::M>>),
                        FstError,
                    >((trs[k].weight, l.op.table.tuples[trs[k].nextstate as int].pairs))
                    &&& subset_accept::<W>(fst, group, string.drop_first()) == subset_accept::<W>(
                        fst,
                        pairs,
                        string,
                    )
                },
            }
        }),
{
    lemma_det_output::<W, CD>(fst, in_dist, delta, max_states);
    let (l, r) = det_compute::<W, CD>(fst, in_dist, delta, max_states);
    let out = r->Ok_0;
    let pairs = l.op.table.tuples[id as int].pairs;
    let state = out.states[id as int];
    assert(written_for::<W, CD>(l.op, id, state));
    let (t, e) = choose|t: TableM<W::M>, e: ExpandM<W::M>| #[trigger]
        stands_for::<W, CD>(l.op, t, e, id, state);
    let trs = state.trs;
    lemma_expand_pairs_ordered::<W, CD>(fst, t, pairs);
    lemma_expand_pairs_accepts::<W, CD>(fst, t, pairs, string);
    lemma_groups_upto_split(e.groups, string[0]);
    let k = groups_upto(e.groups, string[0]);
    assert forall|i: int, j: int| 0 <= i < j < trs.len() implies (#[trigger] trs[i]).ilabel < (
    #[trigger] trs[j]).ilabel by {
        assert(e.groups[i].label < e.groups[j].label);
    }
    let there = k > 0 && e.groups[k - 1].label == string[0];
    let at = if there {
        k - 1
    } else {
        trs.len() as int
    };
    assert forall|i: int| 0 <= i < trs.len() && i != at implies (#[trigger] trs[i]).ilabel
        != string[0] by {
        assert(trs[i].ilabel == e.groups[i].label);
        if i < k {
            if there {
                assert(e.groups[i].label < e.groups[k - 1].label);
            } else if i < k - 1 {
                assert(e.groups[i].label < e.groups[k - 1].label);
                assert(e.groups[k - 1].label <= string[0]);
            }
        } else {
            assert(e.groups[i].label > string[0]);
        }
    }
    lemma_accept_by_one::<W>(out, trs, string, at);
    if there {
        Some((k - 1, e.groups[k - 1].pairs))
    } else {
        None
    }
}

/// A state of the output accepts what its subset accepts.
pub proof fn lemma_det_accepts<W: ExactWeights, CD: ExactDivisor<W>>(
    fst: FstM<W::M>,
    in_dist: Option<Seq<W::M>>,
    delta: W::Delta,
    max_states: Option<usize>,
    id: StateId,
    string: Seq<Label>,
)
    requires
        exact_step::<W>(delta),
        det_compute::<W, CD>(fst, in_dist, delta, max_states).1 is Ok,
        id < det_compute::<W, CD>(fst, in_dist, delta, max_states).1->Ok_0.states.len(),
    ensures
        ({
            let (l, r) = det_compute::<W, CD>(fst, in_dist, delta, max_states);
            accept_from::<W>(r->Ok_0, id, string) == subset_accept::<W>(
                fst,
                l.op.table.tuples[id as int].pairs,
                string,
            )
        }),
    decreases string.len(),
{
    if string.len() == 0 {
        lemma_det_finishes::<W, CD>(fst, in_dist, delta, max_states, id);
        assert(string =~= Seq::empty());
    } else {
        let out = det_compute::<W, CD>(fst, in_dist, delta, max_states).1->Ok_0;
        let rest = string.drop_first();
        if let Some((k, group)) = lemma_det_reads::<W, CD>(
            fst,
            in_dist,
            delta,
            max_states,
            id,
            string,
        ) {
            let tr = out.states[id as int].trs[k];
            lemma_det_accepts::<W, CD>(fst, in_dist, delta, max_states, tr.nextstate, rest);
            lemma_norm_accepts::<W, CD>(fst, group, delta, rest);
        }
    }
}

/// A state of the output accepts the empty string as its subset does.
pub proof fn lemma_det_finishes<W: ExactWeights, CD: CommonDivisor<W>>(
    fst: FstM<W::M>,
    in_dist: Option<Seq<W::M>>,
    delta: W::Delta,
    max_states: Option<usize>,
    id: StateId,
)
    requires
        det_compute::<W, CD>(fst, in_dist, delta, max_states).1 is Ok,
        id < det_compute::<W, CD>(fst, in_dist, delta, max_states).1->Ok_0.states.len(),
    ensures
        ({
            let (l, r) = det_compute::<W, CD>(fst, in_dist, delta, max_states);
            accept_from::<W>(r->Ok_0, id, Seq::empty()) == subset_accept::<W>(
                fst,
                l.op.table.tuples[id as int].pairs,
                Seq::empty(),
            )
        }),
{
    lemma_det_output::<W, CD>(fst, in_dist, delta, max_states);
    let (l, r) = det_compute::<W, CD>(fst, in_dist, delta, max_states);
    let state = r->Ok_0.states[id as int];
    assert(written_for::<W, CD>(l.op, id, state));
    lemma_final_accepts::<W>(fst, l.op.table.tuples[id as int].pairs);
}

/// Determinization keeps the weight of every string, as long as rounding does
/// not change weights.
pub proof fn law_determinize_fsa_is_equivalent<W: ExactWeights, CD: ExactDivisor<W>>(
    fst: FstM<W::M>,
    in_dist: Option<Seq<W::M>>,
    delta: W::Delta,
    max_states: Option<usize>,
    string: Seq<Label>,
)
    requires
        exact_step::<W>(delta),
    ensures
        det_compute::<W, CD>(fst, in_dist, delta, max_states).1 matches Ok(out) ==> weight_of::<W>(
            out,
            string,
        ) == weight_of::<W>(fst, string),
{
    let (l, r) = det_compute::<W, CD>(fst, in_dist, delta, max_states);
    if let Ok(out) = r {
        lemma_det_output::<W, CD>(fst, in_dist, delta, max_states);
        if let Some(s) = out.start {
            lemma_det_accepts::<W, CD>(fst, in_dist, delta, max_states, s, string);
            let q = fst.start->0;
            let one = ElementM { state: q, weight: W::one_model() };
            let pairs = seq![one];
            let f = accept_from::<W>(fst, q, string);
            assert(subset_accept::<W>(fst, pairs.drop_last(), string) == W::value(W::zero_model()));
            assert(pairs.last() == one);
            W::law_product_one(f);
            W::law_sum_zero(f);
        }
    }
}

/// Without distances the number of states that come out is within the bound.
pub proof fn lemma_det_output_size<
    W: WeaklyDivisibleSemiring + WeightQuantize,
    CD: CommonDivisor<W>,
>(fst: FstM<W::M>, delta: W::Delta, max_states: Option<usize>)
    ensures
        det_compute::<W, CD>(fst, None, delta, max_states).1 matches Ok(out) ==> (
        max_states matches Some(bound) ==> out.states.len() <= bound),
{
    let begin = det_begin::<W>(fst, None, delta);
    lemma_det_expansion::<W, CD>(begin.op);
    lemma_det_output::<W, CD>(fst, None, delta, max_states);
    law_output_keeps_bounds::<W, DeterminizeFsaOp<'_, W, CD>, NullCache<W>>(
        begin,
        fst.isymt,
        fst.osymt,
        max_states,
        None,
    );
    law_known_states_are_met::<W, DeterminizeFsaOp<'_, W, CD>>(
        begin.op,
        fst.isymt,
        fst.osymt,
        max_states,
        None,
    );
    let (l, r) = det_compute::<W, CD>(fst, None, delta, max_states);
    let met = states_met::<W, DeterminizeFsaOp<'_, W, CD>, NullCache<W>>(begin, max_states, None);
    if let Ok(out) = r {
        let n = out.states.len() as int;
        assert forall|id: int| 0 <= id < n implies #[trigger] met.contains(id as StateId) by {
            assert(DeterminizeFsaOp::<'_, W, CD>::known(l.op, id as StateId));
        }
        lemma_contains_all(met, n);
    }
}

/// A list of different ids below `n` has at most `n` members.
proof fn lemma_different_below(list: Seq<StateId>, n: int)
    requires
        0 <= n <= NO_STATE_ID,
        list.no_duplicates(),
        forall|i: int| 0 <= i < list.len() ==> #[trigger] list[i] < n,
    ensures
        list.len() <= n,
{
    let all = Seq::new(n as nat, |i: int| i as StateId);
    all.lemma_cardinality_of_set();
    list.unique_seq_to_set();
    assert(list.to_set().subset_of(all.to_set())) by {
        assert forall|x: StateId| list.to_set().contains(x) implies all.to_set().contains(x) by {
            let i = choose|i: int| 0 <= i < list.len() && list[i] == x;
            assert(list[i] < n);
            assert(all[x as int] == x);
        }
    }
    vstd::set_lib::lemma_len_subset(list.to_set(), all.to_set());
}

/// The bound on the number of states of a determinized automaton decides exactly: if
/// without it a machine comes out, the same comes out with it, unless that has more states
/// than allowed; then the run ends with an error that names the bound. If without it the
/// run fails, it fails with it too, in the same way or because the bound is exceeded
/// before.
pub proof fn law_determinize_fsa_bound_decides<
    W: WeaklyDivisibleSemiring + WeightQuantize,
    CD: CommonDivisor<W>,
>(fst: FstM<W::M>, delta: W::Delta, bound: usize)
    ensures
        ({
            let bounded = det_compute::<W, CD>(fst, None, delta, Some(bound)).1;
            let exceeded = Err::<FstM<W::M>, FstError>(
                FstError::StateBudgetExceeded { limit: bound },
            );
            match det_compute::<W, CD>(fst, None, delta, None).1 {
                Ok(out) => if out.states.len() <= bound {
                    bounded == Ok::<FstM<W::M>, FstError>(out)
                } else {
                    bounded == exceeded
                },
                Err(e) => bounded == Err::<FstM<W::M>, FstError>(e) || bounded == exceeded,
            }
        }),
{
    let begin = det_begin::<W>(fst, None, delta);
    let unbounded = det_compute::<W, CD>(fst, None, delta, None).1;
    lemma_det_expansion::<W, CD>(begin.op);
    law_bounds_decide::<W, DeterminizeFsaOp<'_, W, CD>, NullCache<W>>(
        begin,
        fst.isymt,
        fst.osymt,
        Some(bound),
        None,
    );
    law_bounds_are_named::<W, DeterminizeFsaOp<'_, W, CD>, NullCache<W>>(
        begin,
        fst.isymt,
        fst.osymt,
        Some(bound),
        None,
    );
    if let Ok(out) = unbounded {
        lemma_det_output::<W, CD>(fst, None, delta, None);
        law_output_keeps_bounds::<W, DeterminizeFsaOp<'_, W, CD>, NullCache<W>>(
            begin,
            fst.isymt,
            fst.osymt,
            None,
            None,
        );
        lemma_met_are_written::<W, DeterminizeFsaOp<'_, W, CD>, NullCache<W>>(
            begin,
            fst.isymt,
            fst.osymt,
            None,
            None,
        );
        law_known_states_are_met::<W, DeterminizeFsaOp<'_, W, CD>>(
            begin.op,
            fst.isymt,
            fst.osymt,
            None,
            None,
        );
        let (l, r) = det_compute::<W, CD>(fst, None, delta, None);
        let met = states_met::<W, DeterminizeFsaOp<'_, W, CD>, NullCache<W>>(begin, None, None);
        let n = out.states.len() as int;
        assert forall|id: int| 0 <= id < n implies #[trigger] met.contains(id as StateId) by {
            assert(DeterminizeFsaOp::<'_, W, CD>::known(l.op, id as StateId));
        }
        lemma_contains_all(met, n);
        lemma_different_below(met, n);
    }
}

/// A list that contains `n` different ids has at least `n` members.
proof fn lemma_contains_all(list: Seq<StateId>, n: int)
    requires
        0 <= n <= NO_STATE_ID,
        forall|id: int| 0 <= id < n ==> #[trigger] list.contains(id as StateId),
    ensures
        n <= list.len(),
{
    let all = Seq::new(n as nat, |i: int| i as StateId);
    assert(all.no_duplicates());
    all.unique_seq_to_set();
    assert(all.to_set().subset_of(list.to_set())) by {
        assert forall|x: StateId| all.to_set().contains(x) implies list.to_set().contains(x) by {
            let i = choose|i: int| 0 <= i < all.len() && all[i] == x;
            assert(list.contains(i as StateId));
        }
    }
    vstd::set_lib::lemma_len_subset(all.to_set(), list.to_set());
    list.lemma_cardinality_of_set();
}

} // verus!
