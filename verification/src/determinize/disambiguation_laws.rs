//! What determinization keeps of a transducer of which only the best output is asked
//! for.

use crate::determinize::determinize_fsa::det_compute;
use crate::determinize::determinize_fsa_op::{
    divide_all, expand_one, expand_pairs, expand_trs, final_or_zero, group_pairs, groups_ordered,
    groups_upto, has_pair, lemma_expand_one_ordered, lemma_expand_pairs_ordered,
    lemma_expand_trs_ordered, lemma_groups_upto_split, merge_equal, norm_model, pairs_upto,
    residual, subset_final, ExpandM, GroupM,
};
use crate::determinize::determinize_static::{determinize_fst_model, DeterminizeType};
use crate::determinize::divisor_laws::{begins_with, ExactDivisor};
use crate::determinize::divisors::{CommonDivisor, GallicCommonDivisor};
use crate::determinize::element::ElementM;
use crate::determinize::laws::{
    accept_by, accept_from, deterministic, divides_all, law_determinize_fsa_is_deterministic,
    law_determinize_fsa_is_equivalent, lemma_accept_by_one, lemma_det_output, lemma_divisor_divides,
    lemma_group_replaced, lemma_merge_divides, lemma_pairs_upto_bounds, stands_for, weight_of,
    written_for,
};
use crate::determinize::output_series::{
    lemma_read_by_none, lemma_read_by_one, read, read_by, read_from,
};
use crate::determinize::state_table::TableM;
use crate::determinize::transducer_laws::{
    ends_in_tails, lemma_to_gallic_from, lemma_via_reads, one_way_to_finish,
    reads_deterministically, relates_as_read, relation, relation_with_tails,
};
use crate::error::FstError;
use crate::fst::tr::{Label, StateId, TrM};
use crate::fst::vector_fst::FstM;
use crate::semirings::gallic::{item_divide, option_times, GallicWeightMin, ItemM};
use crate::semirings::gallic_laws::{law_gallic_steps_are_exact, option_value};
use crate::semirings::laws::{exact_step, ExactDivision, SelectiveSum, SemiringLaws};
use crate::semirings::semiring::{
    DivideType, QuantizationStep, Semiring, WeaklyDivisibleSemiring, WeightQuantize,
};
use crate::semirings::series::{
    lemma_monomial_product, lemma_monomial_times, lemma_series_product_zero, monomial, no_value,
    series_product, series_zero,
};
use crate::weight_convert::{to_gallic_model, to_gallic_tr};
use vstd::prelude::*;

verus! {

/// The transition `i` reads the first label of `x`; what is written after it, `t` with
/// the weight `u`, makes up `s` with the weight `v`.
pub open spec fn writes_first<W: SemiringLaws>(
    fst: FstM<Option<ItemM<W::M>>>,
    q: StateId,
    x: Seq<Label>,
    s: Seq<Label>,
    v: W::V,
    i: int,
    t: Seq<Label>,
    u: W::V,
) -> bool {
    let trs = fst.states[q as int].trs;
    &&& 0 <= i < trs.len()
    &&& trs[i].ilabel == x[0]
    &&& trs[i].weight matches Some(item) && s == item.string + t && v == W::product(
        W::value(item.weight),
        u,
    )
}

/// A path from one of the states of an automaton reads `x` and writes `s` with the
/// weight `v`.
pub open spec fn writes_from<W: SemiringLaws>(
    fst: FstM<Option<ItemM<W::M>>>,
    q: StateId,
    x: Seq<Label>,
    s: Seq<Label>,
    v: W::V,
) -> bool
    decreases x.len(),
{
    &&& fst.has_state(q)
    &&& if x.len() == 0 {
        fst.states[q as int].final_weight matches Some(Some(item)) && s == item.string && v
            == W::value(item.weight)
    } else {
        exists|i: int, t: Seq<Label>, u: W::V| #[trigger]
            writes_first::<W>(fst, q, x, s, v, i, t, u) && writes_from::<W>(
                fst,
                fst.states[q as int].trs[i].nextstate,
                x.drop_first(),
                t,
                u,
            )
    }
}

/// A path takes the transition `i` and goes on with a path that writes `t` with the
/// weight `u`.
pub open spec fn writes_by<W: SemiringLaws>(
    fst: FstM<Option<ItemM<W::M>>>,
    q: StateId,
    x: Seq<Label>,
    s: Seq<Label>,
    v: W::V,
    i: int,
    t: Seq<Label>,
    u: W::V,
) -> bool {
    &&& x.len() > 0
    &&& fst.has_state(q)
    &&& writes_first::<W>(fst, q, x, s, v, i, t, u)
    &&& writes_from::<W>(fst, fst.states[q as int].trs[i].nextstate, x.drop_first(), t, u)
}

/// A path that reads something takes a transition.
pub proof fn lemma_path_begins<W: SemiringLaws>(
    fst: FstM<Option<ItemM<W::M>>>,
    q: StateId,
    x: Seq<Label>,
    s: Seq<Label>,
    v: W::V,
) -> (r: (int, Seq<Label>, W::V))
    requires
        writes_from::<W>(fst, q, x, s, v),
        x.len() > 0,
    ensures
        writes_by::<W>(fst, q, x, s, v, r.0, r.1, r.2),
{
    choose|i: int, t: Seq<Label>, u: W::V| #[trigger]
        writes_first::<W>(fst, q, x, s, v, i, t, u) && writes_from::<W>(
            fst,
            fst.states[q as int].trs[i].nextstate,
            x.drop_first(),
            t,
            u,
        )
}

/// A path from a member of a weighted subset reads `x` and writes `s` with the weight
/// `v`, what the member still has to write included.
pub open spec fn subset_writes<W: SemiringLaws>(
    fst: FstM<Option<ItemM<W::M>>>,
    pairs: Seq<ElementM<Option<ItemM<W::M>>>>,
    x: Seq<Label>,
    s: Seq<Label>,
    v: W::V,
) -> bool {
    exists|i: int, t: Seq<Label>, u: W::V| #[trigger]
        member_writes::<W>(fst, pairs, x, s, v, i, t, u)
}

pub open spec fn member_writes<W: SemiringLaws>(
    fst: FstM<Option<ItemM<W::M>>>,
    pairs: Seq<ElementM<Option<ItemM<W::M>>>>,
    x: Seq<Label>,
    s: Seq<Label>,
    v: W::V,
    i: int,
    t: Seq<Label>,
    u: W::V,
) -> bool {
    &&& 0 <= i < pairs.len()
    &&& pairs[i].weight matches Some(item) && s == item.string + t && v == W::product(
        W::value(item.weight),
        u,
    )
    &&& writes_from::<W>(fst, pairs[i].state, x, t, u)
}

/// All members of all groups are as asked for.
spec fn all_members<M>(
    groups: Seq<GroupM<M>>,
    good: spec_fn(Label, ElementM<M>) -> bool,
) -> bool {
    forall|label: Label, i: int|
        0 <= i < group_pairs(groups, label).len() ==> good(
            label,
            #[trigger] group_pairs(groups, label)[i],
        )
}

proof fn lemma_expand_one_members<W: SelectiveSum, CD: CommonDivisor<GallicWeightMin<W>>>(
    t: TableM<Option<ItemM<W::M>>>,
    e: ExpandM<Option<ItemM<W::M>>>,
    label: Label,
    state: StateId,
    weight: Option<ItemM<W::M>>,
    good: spec_fn(Label, ElementM<Option<ItemM<W::M>>>) -> bool,
)
    requires
        groups_ordered(e.groups),
        all_members(e.groups, good),
        good(label, ElementM { state, weight }),
    ensures
        expand_one::<GallicWeightMin<W>, CD>(t, e, label, state, weight) matches Ok(after)
            ==> all_members(after.groups, good),
{
    lemma_expand_one_ordered::<GallicWeightMin<W>, CD>(t, e, label, state, weight);
    if let Ok(after) = expand_one::<GallicWeightMin<W>, CD>(t, e, label, state, weight) {
        let pairs = group_pairs(e.groups, label);
        let k = pairs_upto(pairs, state);
        lemma_pairs_upto_bounds(pairs, state);
        let merges = CD::merge_before_divisor_model() && has_pair(pairs, state);
        let more = if merges {
            let sum = GallicWeightMin::<W>::plus_model(pairs[k - 1].weight, weight)->Ok_0;
            pairs.update(k - 1, ElementM { state, weight: sum })
        } else {
            pairs.insert(k, ElementM { state, weight })
        };
        assert forall|asked: Label, i: int|
            0 <= i < group_pairs(after.groups, asked).len() implies good(
            asked,
            #[trigger] group_pairs(after.groups, asked)[i],
        ) by {
            lemma_group_replaced(e.groups, label, more, asked);
            if asked != label {
                assert(good(asked, group_pairs(e.groups, asked)[i]));
            } else if merges {
                assert(good(label, group_pairs(e.groups, label)[i]));
            } else if i < k {
                assert(good(label, group_pairs(e.groups, label)[i]));
            } else if i > k {
                assert(good(label, group_pairs(e.groups, label)[i - 1]));
            }
        }
    }
}

proof fn lemma_expand_trs_members<W: SelectiveSum, CD: CommonDivisor<GallicWeightMin<W>>>(
    t: TableM<Option<ItemM<W::M>>>,
    e: ExpandM<Option<ItemM<W::M>>>,
    weight: Option<ItemM<W::M>>,
    trs: Seq<TrM<Option<ItemM<W::M>>>>,
    good: spec_fn(Label, ElementM<Option<ItemM<W::M>>>) -> bool,
)
    requires
        groups_ordered(e.groups),
        all_members(e.groups, good),
        forall|j: int|
            0 <= j < trs.len() ==> (option_times::<W>(
                weight,
                (#[trigger] trs[j]).weight,
            ) matches Ok(r) ==> good(
                trs[j].ilabel,
                ElementM { state: trs[j].nextstate, weight: r },
            )),
    ensures
        expand_trs::<GallicWeightMin<W>, CD>(t, e, weight, trs) matches Ok(after) ==> all_members(
            after.groups,
            good,
        ),
    decreases trs.len(),
{
    if trs.len() > 0 {
        let shorter = trs.drop_last();
        assert forall|j: int| 0 <= j < shorter.len() implies (option_times::<W>(
            weight,
            (#[trigger] shorter[j]).weight,
        ) matches Ok(r) ==> good(
            shorter[j].ilabel,
            ElementM { state: shorter[j].nextstate, weight: r },
        )) by {
            assert(shorter[j] == trs[j]);
        }
        lemma_expand_trs_members::<W, CD>(t, e, weight, shorter, good);
        lemma_expand_trs_ordered::<GallicWeightMin<W>, CD>(t, e, weight, shorter);
        if let Ok(sofar) = expand_trs::<GallicWeightMin<W>, CD>(t, e, weight, shorter) {
            if let Ok(r) = option_times::<W>(weight, trs.last().weight) {
                let j = trs.len() - 1;
                assert(trs[j] == trs.last());
                lemma_expand_one_members::<W, CD>(
                    t,
                    sofar,
                    trs.last().ilabel,
                    trs.last().nextstate,
                    r,
                    good,
                );
            }
        }
    }
}

/// An element is what a transition of a member of the subset leads to.
spec fn led_to<W: Semiring>(
    fst: FstM<Option<ItemM<W::M>>>,
    pairs: Seq<ElementM<Option<ItemM<W::M>>>>,
    label: Label,
    c: ElementM<Option<ItemM<W::M>>>,
) -> bool {
    exists|i: int, j: int| #[trigger] led_by::<W>(fst, pairs, label, c, i, j)
}

spec fn led_by<W: Semiring>(
    fst: FstM<Option<ItemM<W::M>>>,
    pairs: Seq<ElementM<Option<ItemM<W::M>>>>,
    label: Label,
    c: ElementM<Option<ItemM<W::M>>>,
    i: int,
    j: int,
) -> bool {
    let trs = fst.states[pairs[i].state as int].trs;
    &&& 0 <= i < pairs.len()
    &&& fst.has_state(pairs[i].state)
    &&& 0 <= j < trs.len()
    &&& trs[j].ilabel == label
    &&& trs[j].nextstate == c.state
    &&& option_times::<W>(pairs[i].weight, trs[j].weight) == Ok::<
        Option<ItemM<W::M>>,
        FstError,
    >(c.weight)
}

/// Whatever leaves a subset is what a transition of a member leads to.
proof fn lemma_expand_pairs_members<W: SelectiveSum, CD: CommonDivisor<GallicWeightMin<W>>>(
    fst: FstM<Option<ItemM<W::M>>>,
    t: TableM<Option<ItemM<W::M>>>,
    pairs: Seq<ElementM<Option<ItemM<W::M>>>>,
    n: int,
)
    requires
        0 <= n <= pairs.len(),
    ensures
        expand_pairs::<GallicWeightMin<W>, CD>(fst, t, pairs.take(n)) matches Ok(e)
            ==> all_members(
            e.groups,
            |label: Label, c: ElementM<Option<ItemM<W::M>>>| led_to::<W>(fst, pairs, label, c),
        ),
    decreases n,
{
    let good = |label: Label, c: ElementM<Option<ItemM<W::M>>>| led_to::<W>(fst, pairs, label, c);
    if n > 0 {
        let now = pairs.take(n);
        assert(now.drop_last() =~= pairs.take(n - 1));
        lemma_expand_pairs_members::<W, CD>(fst, t, pairs, n - 1);
        lemma_expand_pairs_ordered::<GallicWeightMin<W>, CD>(fst, t, pairs.take(n - 1));
        if let Ok(e) = expand_pairs::<GallicWeightMin<W>, CD>(fst, t, pairs.take(n - 1)) {
            let member = pairs[n - 1];
            assert(now.last() == member);
            if fst.has_state(member.state) {
                let trs = fst.states[member.state as int].trs;
                assert forall|j: int| 0 <= j < trs.len() implies (option_times::<W>(
                    member.weight,
                    (#[trigger] trs[j]).weight,
                ) matches Ok(r) ==> good(
                    trs[j].ilabel,
                    ElementM { state: trs[j].nextstate, weight: r },
                )) by {
                    if let Ok(r) = option_times::<W>(member.weight, trs[j].weight) {
                        let c = ElementM { state: trs[j].nextstate, weight: r };
                        assert(led_by::<W>(fst, pairs, trs[j].ilabel, c, n - 1, j));
                    }
                }
                lemma_expand_trs_members::<W, CD>(t, e, member.weight, trs, good);
            }
        }
    }
}

/// What stays when the weights of equal states are summed was there before.
proof fn lemma_merge_members<W: SelectiveSum>(pairs: Seq<ElementM<Option<ItemM<W::M>>>>)
    ensures
        merge_equal::<GallicWeightMin<W>>(pairs) matches Ok(merged) ==> forall|i: int|
            0 <= i < merged.len() ==> pairs.contains(#[trigger] merged[i]),
    decreases pairs.len(),
{
    if pairs.len() > 0 {
        let shorter = pairs.drop_last();
        lemma_merge_members::<W>(shorter);
        if let Ok(merged) = merge_equal::<GallicWeightMin<W>>(shorter) {
            if let Ok(after) = merge_equal::<GallicWeightMin<W>>(pairs) {
                assert forall|i: int| 0 <= i < after.len() implies pairs.contains(
                    #[trigger] after[i],
                ) by {
                    let from_last = after[i] == pairs.last();
                    if from_last {
                        assert(pairs[pairs.len() - 1] == after[i]);
                    } else {
                        assert(after[i] == merged[i]);
                        let k = choose|k: int| 0 <= k < shorter.len() && shorter[k] == merged[i];
                        assert(pairs[k] == after[i]);
                    }
                }
            }
        }
    }
}

proof fn lemma_divide_members<W: WeaklyDivisibleSemiring + WeightQuantize>(
    pairs: Seq<ElementM<W::M>>,
    divisor: W::M,
    delta: W::Delta,
)
    ensures
        divide_all::<W>(pairs, divisor, delta) matches Ok(divided) ==> {
            &&& divided.len() == pairs.len()
            &&& forall|i: int|
                0 <= i < pairs.len() ==> (#[trigger] divided[i]).state == pairs[i].state
                    && residual::<W>(pairs[i].weight, divisor, delta) == Ok::<W::M, FstError>(
                    divided[i].weight,
                )
        },
    decreases pairs.len(),
{
    if pairs.len() > 0 {
        lemma_divide_members::<W>(pairs.drop_last(), divisor, delta);
    }
}

/// A member with the divisor put in front again.
spec fn before_division<W: SemiringLaws>(
    weight: Option<ItemM<W::M>>,
    r: ItemM<W::M>,
    c: Option<ItemM<W::M>>,
) -> bool {
    weight matches Some(d) && c matches Some(whole) && whole.string == d.string + r.string
        && W::value(whole.weight) == W::product(W::value(d.weight), W::value(r.weight))
}

/// Rounding turns the one weight into the other.
pub open spec fn rounded<W: Semiring + WeightQuantize>(
    item: ItemM<W::M>,
    weight: Option<ItemM<W::M>>,
    delta: W::Delta,
) -> bool {
    &&& weight matches Some(r) && r.string == item.string
    &&& GallicWeightMin::<W>::quantize_model(Some(item), delta) == Ok::<
        Option<ItemM<W::M>>,
        FstError,
    >(weight)
}

/// A member of the destination was there before the divisor was taken out: it is a
/// quotient that was rounded.
proof fn lemma_norm_members<W: ExactDivision + SelectiveSum>(
    pairs: Seq<ElementM<Option<ItemM<W::M>>>>,
    delta: W::Delta,
    i: int,
) -> (r: (int, ItemM<W::M>))
    requires
        norm_model::<GallicWeightMin<W>, GallicCommonDivisor>(pairs, delta) is Ok,
        ({
            let dest = norm_model::<GallicWeightMin<W>, GallicCommonDivisor>(pairs, delta)->Ok_0.1;
            0 <= i < dest.len() && dest[i].weight is Some
        }),
    ensures
        ({
            let (weight, dest) = norm_model::<GallicWeightMin<W>, GallicCommonDivisor>(
                pairs,
                delta,
            )->Ok_0;
            &&& 0 <= r.0 < pairs.len()
            &&& pairs[r.0].state == dest[i].state
            &&& before_division::<W>(weight, r.1, pairs[r.0].weight)
            &&& rounded::<W>(r.1, dest[i].weight, delta)
        }),
{
    let (weight, dest) = norm_model::<GallicWeightMin<W>, GallicCommonDivisor>(
        pairs,
        delta,
    )->Ok_0;
    lemma_divisor_divides::<GallicWeightMin<W>, GallicCommonDivisor>(pairs);
    lemma_merge_divides::<GallicWeightMin<W>, GallicCommonDivisor>(weight, pairs);
    lemma_merge_members::<W>(pairs);
    let merged = if <GallicCommonDivisor as CommonDivisor<
        GallicWeightMin<W>,
    >>::merge_before_divisor_model() {
        pairs
    } else {
        merge_equal::<GallicWeightMin<W>>(pairs)->Ok_0
    };
    lemma_divide_members::<GallicWeightMin<W>>(merged, weight, delta);
    assert(dest[i].state == merged[i].state);
    assert(pairs.contains(merged[i])) by {
        assert(merged == pairs ==> pairs[i] == merged[i]);
    }
    let k = choose|k: int| 0 <= k < pairs.len() && pairs[k] == merged[i];
    assert(divides_all::<GallicWeightMin<W>, GallicCommonDivisor>(weight, merged));
    assert(<GallicCommonDivisor as ExactDivisor<GallicWeightMin<W>>>::divides(
        weight,
        merged[i].weight,
    ));
    let q = GallicWeightMin::<W>::divide_model(
        merged[i].weight,
        weight,
        DivideType::DivideLeft,
    )->Ok_0;
    assert(GallicWeightMin::<W>::quantize_model(q, delta) == Ok::<Option<ItemM<W::M>>, FstError>(
        dest[i].weight,
    ));
    let whole = merged[i].weight->0;
    let d = weight->0;
    let r = q->0;
    assert(item_divide::<W>(whole, d, DivideType::DivideLeft) == Ok::<ItemM<W::M>, FstError>(r));
    assert(begins_with(whole.string, d.string));
    W::law_divide(whole.weight, d.weight);
    assert(whole.string =~= d.string + r.string);
    (k, r)
}

/// The final weight of a subset comes from one of its members.
proof fn lemma_final_member<W: SelectiveSum>(
    fst: FstM<Option<ItemM<W::M>>>,
    pairs: Seq<ElementM<Option<ItemM<W::M>>>>,
) -> (i: int)
    requires
        subset_final::<GallicWeightMin<W>>(fst, pairs) matches Ok(Some(_)),
    ensures
        0 <= i < pairs.len(),
        fst.has_state(pairs[i].state),
        option_times::<W>(
            pairs[i].weight,
            final_or_zero::<GallicWeightMin<W>>(fst.states[pairs[i].state as int].final_weight),
        ) == subset_final::<GallicWeightMin<W>>(fst, pairs),
    decreases pairs.len(),
{
    let n = pairs.len() - 1;
    let member = pairs[n];
    let sum = subset_final::<GallicWeightMin<W>>(fst, pairs.drop_last())->Ok_0;
    let through = option_times::<W>(
        member.weight,
        final_or_zero::<GallicWeightMin<W>>(fst.states[member.state as int].final_weight),
    )->Ok_0;
    let whole = subset_final::<GallicWeightMin<W>>(fst, pairs)->Ok_0;
    if whole == through {
        n
    } else {
        assert(whole == sum);
        lemma_final_member::<W>(fst, pairs.drop_last())
    }
}

/// What a state of the determinized automaton writes at once, a member of its subset
/// writes.
pub proof fn lemma_det_ends<W: ExactDivision + SelectiveSum>(
    fst: FstM<Option<ItemM<W::M>>>,
    delta: W::Delta,
    max_states: Option<usize>,
    id: StateId,
    x: Seq<Label>,
    s: Seq<Label>,
    v: W::V,
)
    requires
        ({
            let (l, r) = det_compute::<GallicWeightMin<W>, GallicCommonDivisor>(
                fst,
                None,
                delta,
                max_states,
            );
            r matches Ok(out) && id < out.states.len() && writes_from::<W>(out, id, x, s, v)
        }),
        x.len() == 0,
    ensures
        subset_writes::<W>(
            fst,
            det_compute::<GallicWeightMin<W>, GallicCommonDivisor>(
                fst,
                None,
                delta,
                max_states,
            ).0.op.table.tuples[id as int].pairs,
            x,
            s,
            v,
        ),
{
    lemma_det_output::<GallicWeightMin<W>, GallicCommonDivisor>(fst, None, delta, max_states);
    let (l, r) = det_compute::<GallicWeightMin<W>, GallicCommonDivisor>(
        fst,
        None,
        delta,
        max_states,
    );
    let pairs = l.op.table.tuples[id as int].pairs;
    let state = r->Ok_0.states[id as int];
    assert(written_for::<GallicWeightMin<W>, GallicCommonDivisor>(l.op, id, state));
    let i = lemma_final_member::<W>(fst, pairs);
    let end = final_or_zero::<GallicWeightMin<W>>(fst.states[pairs[i].state as int].final_weight);
    W::law_times((pairs[i].weight->0).weight, (end->0).weight);
    let u = W::value((end->0).weight);
    assert(writes_from::<W>(fst, pairs[i].state, x, (end->0).string, u));
    assert(member_writes::<W>(fst, pairs, x, s, v, i, (end->0).string, u));
}

/// A path of the determinized automaton takes the transition `k`, and a member of the
/// subset it leads to writes the rest with what the member has left over: then a member
/// of the subset it comes from writes the whole with what was there before rounding.
pub proof fn lemma_det_writes_first<W: ExactDivision + SelectiveSum>(
    fst: FstM<Option<ItemM<W::M>>>,
    delta: W::Delta,
    max_states: Option<usize>,
    id: StateId,
    x: Seq<Label>,
    k: int,
    i: int,
    t: Seq<Label>,
    u: W::V,
) -> (q: ItemM<W::M>)
    requires
        x.len() > 0,
        ({
            let (l, r) = det_compute::<GallicWeightMin<W>, GallicCommonDivisor>(
                fst,
                None,
                delta,
                max_states,
            );
            let trs = r->Ok_0.states[id as int].trs;
            let dest = l.op.table.tuples[trs[k].nextstate as int].pairs;
            &&& r is Ok && id < r->Ok_0.states.len()
            &&& 0 <= k < trs.len() && trs[k].ilabel == x[0] && trs[k].weight is Some
            &&& 0 <= i < dest.len() && dest[i].weight is Some
            &&& writes_from::<W>(fst, dest[i].state, x.drop_first(), t, u)
        }),
    ensures
        ({
            let (l, r) = det_compute::<GallicWeightMin<W>, GallicCommonDivisor>(
                fst,
                None,
                delta,
                max_states,
            );
            let tr = r->Ok_0.states[id as int].trs[k];
            let left = l.op.table.tuples[tr.nextstate as int].pairs[i].weight;
            &&& rounded::<W>(q, left, delta)
            &&& subset_writes::<W>(
                fst,
                l.op.table.tuples[id as int].pairs,
                x,
                tr.weight->0.string + (left->0.string + t),
                W::product(
                    W::value(tr.weight->0.weight),
                    W::product(W::value(q.weight), u),
                ),
            )
        }),
{
    lemma_det_output::<GallicWeightMin<W>, GallicCommonDivisor>(fst, None, delta, max_states);
    let (l, r) = det_compute::<GallicWeightMin<W>, GallicCommonDivisor>(
        fst,
        None,
        delta,
        max_states,
    );
    let pairs = l.op.table.tuples[id as int].pairs;
    let state = r->Ok_0.states[id as int];
    assert(written_for::<GallicWeightMin<W>, GallicCommonDivisor>(l.op, id, state));
    let (table, e) = choose|t: TableM<Option<ItemM<W::M>>>, e: ExpandM<Option<ItemM<W::M>>>|
     #[trigger]
        stands_for::<GallicWeightMin<W>, GallicCommonDivisor>(l.op, t, e, id, state);
    let tr = state.trs[k];
    let d = tr.weight->0;
    let dest = l.op.table.tuples[tr.nextstate as int].pairs;
    let left = dest[i].weight->0;
    let group = e.groups[k].pairs;
    let (m, q) = lemma_norm_members::<W>(group, delta, i);
    let c = group[m];
    let whole = c.weight->0;
    // The group of the label is the list that was divided.
    lemma_expand_pairs_ordered::<GallicWeightMin<W>, GallicCommonDivisor>(fst, table, pairs);
    lemma_groups_upto_split(e.groups, x[0]);
    let upto = groups_upto(e.groups, x[0]);
    assert(e.groups[k].label == x[0]);
    assert(upto == k + 1) by {
        if upto <= k {
            assert(e.groups[k].label > x[0]);
        } else if upto > k + 1 {
            assert(e.groups[k].label < e.groups[upto - 1].label);
            assert(e.groups[upto - 1].label <= x[0]);
        }
    }
    assert(group_pairs(e.groups, x[0]) == group);
    lemma_expand_pairs_members::<W, GallicCommonDivisor>(fst, table, pairs, pairs.len() as int);
    assert(pairs.take(pairs.len() as int) =~= pairs);
    assert(led_to::<W>(fst, pairs, x[0], group_pairs(e.groups, x[0])[m]));
    let (a, j) = choose|a: int, j: int| #[trigger] led_by::<W>(fst, pairs, x[0], c, a, j);
    let member = pairs[a];
    let way = fst.states[member.state as int].trs[j];
    let (first, second) = (member.weight->0, way.weight->0);
    W::law_times(first.weight, second.weight);
    let on = W::product(W::value(second.weight), u);
    let s = d.string + (left.string + t);
    let v = W::product(W::value(d.weight), W::product(W::value(q.weight), u));
    assert(writes_by::<W>(fst, member.state, x, second.string + t, on, j, t, u));
    assert(writes_from::<W>(fst, member.state, x, second.string + t, on));
    assert(s =~= first.string + (second.string + t)) by {
        assert(whole.string == d.string + q.string);
        assert(whole.string == first.string + second.string);
        assert(d.string + (left.string + t) =~= (d.string + left.string) + t);
        assert(first.string + (second.string + t) =~= (first.string + second.string) + t);
    }
    assert(v == W::product(W::value(first.weight), on)) by {
        W::law_product_associative(W::value(d.weight), W::value(q.weight), u);
        W::law_product_associative(W::value(first.weight), W::value(second.weight), u);
    }
    assert(member_writes::<W>(fst, pairs, x, s, v, a, second.string + t, on));
    q
}

/// What a state of the determinized automaton writes, a member of its subset writes.
proof fn lemma_det_writes<W: ExactDivision + SelectiveSum>(
    fst: FstM<Option<ItemM<W::M>>>,
    delta: W::Delta,
    max_states: Option<usize>,
    id: StateId,
    x: Seq<Label>,
    s: Seq<Label>,
    v: W::V,
)
    requires
        exact_step::<GallicWeightMin<W>>(delta),
        ({
            let (l, r) = det_compute::<GallicWeightMin<W>, GallicCommonDivisor>(
                fst,
                None,
                delta,
                max_states,
            );
            r matches Ok(out) && id < out.states.len() && writes_from::<W>(out, id, x, s, v)
        }),
    ensures
        subset_writes::<W>(
            fst,
            det_compute::<GallicWeightMin<W>, GallicCommonDivisor>(
                fst,
                None,
                delta,
                max_states,
            ).0.op.table.tuples[id as int].pairs,
            x,
            s,
            v,
        ),
    decreases x.len(),
{
    lemma_det_output::<GallicWeightMin<W>, GallicCommonDivisor>(fst, None, delta, max_states);
    let (l, r) = det_compute::<GallicWeightMin<W>, GallicCommonDivisor>(
        fst,
        None,
        delta,
        max_states,
    );
    let out = r->Ok_0;
    if x.len() == 0 {
        lemma_det_ends::<W>(fst, delta, max_states, id, x, s, v);
    } else {
        let (k, rest, u) = lemma_path_begins::<W>(out, id, x, s, v);
        let tr = out.states[id as int].trs[k];
        let dest = l.op.table.tuples[tr.nextstate as int].pairs;
        lemma_det_writes::<W>(fst, delta, max_states, tr.nextstate, x.drop_first(), rest, u);
        let (i, t, u1) = choose|i: int, t: Seq<Label>, u1: W::V| #[trigger]
            member_writes::<W>(fst, dest, x.drop_first(), rest, u, i, t, u1);
        let q = lemma_det_writes_first::<W>(fst, delta, max_states, id, x, k, i, t, u1);
        assert(dest[i].weight == Some(q));
    }
}

/// What a path writes is part of what is read.
pub proof fn lemma_read_absorbs_path<W: SelectiveSum>(
    fst: FstM<Option<ItemM<W::M>>>,
    q: StateId,
    x: Seq<Label>,
    s: Seq<Label>,
    v: W::V,
)
    requires
        writes_from::<W>(fst, q, x, s, v),
    ensures
        W::sum(read_from::<W, GallicWeightMin<W>>(fst, q, x)(s), v) == read_from::<
            W,
            GallicWeightMin<W>,
        >(fst, q, x)(s),
    decreases x.len(), 1int, 0int,
{
    if x.len() == 0 {
        W::law_sum_selects(v, v);
    } else {
        let (i, t, u) = lemma_path_begins::<W>(fst, q, x, s, v);
        let trs = fst.states[q as int].trs;
        lemma_read_by_absorbs_path::<W>(fst, q, x, s, v, i, t, u, trs.len() as int);
        assert(trs.take(trs.len() as int) =~= trs);
    }
}

proof fn lemma_read_by_absorbs_path<W: SelectiveSum>(
    fst: FstM<Option<ItemM<W::M>>>,
    q: StateId,
    x: Seq<Label>,
    s: Seq<Label>,
    v: W::V,
    i: int,
    t: Seq<Label>,
    u: W::V,
    n: int,
)
    requires
        writes_by::<W>(fst, q, x, s, v, i, t, u),
        i < n <= fst.states[q as int].trs.len(),
    ensures
        W::sum(
            read_by::<W, GallicWeightMin<W>>(fst, fst.states[q as int].trs.take(n), x)(s),
            v,
        ) == read_by::<W, GallicWeightMin<W>>(fst, fst.states[q as int].trs.take(n), x)(s),
    decreases x.len(), 0int, n,
{
    let trs = fst.states[q as int].trs;
    let now = trs.take(n);
    assert(now.drop_last() =~= trs.take(n - 1));
    let tr = trs[n - 1];
    assert(now.last() == tr);
    let before = read_by::<W, GallicWeightMin<W>>(fst, trs.take(n - 1), x)(s);
    let rest = read_from::<W, GallicWeightMin<W>>(fst, tr.nextstate, x.drop_first());
    let term = series_product::<W>(option_value::<W>(tr.weight), rest)(s);
    if i == n - 1 {
        let item = tr.weight->0;
        lemma_read_absorbs_path::<W>(fst, tr.nextstate, x.drop_first(), t, u);
        lemma_monomial_product::<W>(item.string, W::value(item.weight), rest, s);
        assert(s.take(item.string.len() as int) =~= item.string);
        assert(s.skip(item.string.len() as int) =~= t);
        W::law_distributive(W::value(item.weight), rest(t), u);
        assert(W::sum(term, v) == term);
        W::law_sum_associative(before, term, v);
    } else {
        lemma_read_by_absorbs_path::<W>(fst, q, x, s, v, i, t, u, n - 1);
        if tr.ilabel == x[0] {
            W::law_sum_associative(before, term, v);
            W::law_sum_commutative(term, v);
            W::law_sum_associative(before, v, term);
        }
    }
}

/// The weight of an input absorbs the weight with which any one output is read.
pub proof fn lemma_accept_absorbs_read<W: SelectiveSum>(
    fst: FstM<Option<ItemM<W::M>>>,
    q: StateId,
    x: Seq<Label>,
    y: Seq<Label>,
)
    ensures
        W::sum(
            accept_from::<GallicWeightMin<W>>(fst, q, x),
            read_from::<W, GallicWeightMin<W>>(fst, q, x)(y),
        ) == accept_from::<GallicWeightMin<W>>(fst, q, x),
    decreases x.len(), 1int, 0int,
{
    let a = accept_from::<GallicWeightMin<W>>(fst, q, x);
    W::law_sum_selects(a, a);
    W::law_sum_zero(a);
    W::law_sum_commutative(a, no_value::<W>());
    if fst.has_state(q) && x.len() > 0 {
        lemma_accept_by_absorbs_read::<W>(fst, fst.states[q as int].trs, x, y);
    }
}

proof fn lemma_accept_by_absorbs_read<W: SelectiveSum>(
    fst: FstM<Option<ItemM<W::M>>>,
    trs: Seq<TrM<Option<ItemM<W::M>>>>,
    x: Seq<Label>,
    y: Seq<Label>,
)
    ensures
        W::sum(
            accept_by::<GallicWeightMin<W>>(fst, trs, x),
            read_by::<W, GallicWeightMin<W>>(fst, trs, x)(y),
        ) == accept_by::<GallicWeightMin<W>>(fst, trs, x),
    decreases x.len(), 0int, trs.len(),
{
    let nothing = no_value::<W>();
    W::law_sum_zero(nothing);
    if trs.len() > 0 && x.len() > 0 {
        let tr = trs.last();
        lemma_accept_by_absorbs_read::<W>(fst, trs.drop_last(), x, y);
        if tr.ilabel == x[0] {
            let all = accept_by::<GallicWeightMin<W>>(fst, trs.drop_last(), x);
            let part = read_by::<W, GallicWeightMin<W>>(fst, trs.drop_last(), x)(y);
            let on = accept_from::<GallicWeightMin<W>>(fst, tr.nextstate, x.drop_first());
            let rest = read_from::<W, GallicWeightMin<W>>(fst, tr.nextstate, x.drop_first());
            let whole = W::product(GallicWeightMin::<W>::value(tr.weight), on);
            let term = series_product::<W>(option_value::<W>(tr.weight), rest)(y);
            assert(W::sum(whole, term) == whole) by {
                W::law_sum_zero(whole);
                W::law_sum_commutative(whole, nothing);
                match tr.weight {
                    None => {
                        lemma_series_product_zero::<W>(rest);
                    },
                    Some(item) => {
                        lemma_monomial_product::<W>(
                            item.string,
                            W::value(item.weight),
                            rest,
                            y,
                        );
                        let n = item.string.len() as int;
                        if begins_with(y, item.string) {
                            lemma_accept_absorbs_read::<W>(
                                fst,
                                tr.nextstate,
                                x.drop_first(),
                                y.skip(n),
                            );
                            W::law_distributive(W::value(item.weight), on, rest(y.skip(n)));
                        }
                    },
                }
            }
            // (all + whole) + (part + term) = (all + part) + (whole + term)
            W::law_sum_associative(all, whole, W::sum(part, term));
            W::law_sum_associative(whole, part, term);
            W::law_sum_commutative(whole, part);
            W::law_sum_associative(part, whole, term);
            W::law_sum_associative(all, part, W::sum(whole, term));
        }
    }
}

/// The outputs that a deterministic automaton gives to an input: at most one, with the
/// weight of the input.
pub open spec fn one_output<W: SelectiveSum>(
    fst: FstM<Option<ItemM<W::M>>>,
    q: StateId,
    x: Seq<Label>,
    s: Seq<Label>,
) -> bool {
    let v = accept_from::<GallicWeightMin<W>>(fst, q, x);
    &&& read_from::<W, GallicWeightMin<W>>(fst, q, x) == monomial::<W>(s, v)
    &&& v == no_value::<W>() || writes_from::<W>(fst, q, x, s, v)
}

proof fn lemma_no_output<W: SelectiveSum>(s: Seq<Label>)
    ensures
        series_zero::<W>() == monomial::<W>(s, no_value::<W>()),
{
    assert(series_zero::<W>() =~= monomial::<W>(s, no_value::<W>()));
}

pub proof fn lemma_one_output<W: SelectiveSum>(
    fst: FstM<Option<ItemM<W::M>>>,
    q: StateId,
    x: Seq<Label>,
) -> (s: Seq<Label>)
    requires
        deterministic(fst),
    ensures
        one_output::<W>(fst, q, x, s),
    decreases x.len(),
{
    let nothing = Seq::<Label>::empty();
    lemma_no_output::<W>(nothing);
    if !fst.has_state(q) {
        nothing
    } else if x.len() == 0 {
        match fst.states[q as int].final_weight {
            Some(Some(item)) => item.string,
            _ => nothing,
        }
    } else {
        let trs = fst.states[q as int].trs;
        assert forall|i: int, j: int| 0 <= i < j < trs.len() implies (#[trigger] trs[i]).ilabel < (
        #[trigger] trs[j]).ilabel by {
            assert(fst.states[q as int].trs[i].ilabel < fst.states[q as int].trs[j].ilabel);
        }
        if exists|k: int| 0 <= k < trs.len() && (#[trigger] trs[k]).ilabel == x[0] {
            let k = choose|k: int| 0 <= k < trs.len() && (#[trigger] trs[k]).ilabel == x[0];
            assert forall|i: int| 0 <= i < trs.len() && i != k implies (#[trigger] trs[i]).ilabel
                != x[0] by {
                let (a, b) = if i < k {
                    (i, k)
                } else {
                    (k, i)
                };
                assert(fst.states[q as int].trs[a].ilabel < fst.states[q as int].trs[b].ilabel);
            }
            lemma_accept_by_one::<GallicWeightMin<W>>(fst, trs, x, k);
            lemma_read_by_one::<W, GallicWeightMin<W>>(fst, trs, x, k);
            let t = lemma_one_output::<W>(fst, trs[k].nextstate, x.drop_first());
            let u = accept_from::<GallicWeightMin<W>>(fst, trs[k].nextstate, x.drop_first());
            match trs[k].weight {
                None => {
                    lemma_series_product_zero::<W>(monomial::<W>(t, u));
                    W::law_product_zero(u);
                    nothing
                },
                Some(item) => {
                    lemma_monomial_times::<W>(item.string, W::value(item.weight), t, u);
                    W::law_product_zero(W::value(item.weight));
                    let s = item.string + t;
                    let v = W::product(W::value(item.weight), u);
                    if u != no_value::<W>() {
                        assert(writes_by::<W>(fst, q, x, s, v, k, t, u));
                    }
                    s
                },
            }
        } else {
            lemma_accept_by_one::<GallicWeightMin<W>>(fst, trs, x, trs.len() as int);
            lemma_read_by_none::<W, GallicWeightMin<W>>(fst, trs, x);
            nothing
        }
    }
}

/// Without its outputs the automaton weighs as the transducer does.
pub proof fn lemma_weighs_from<W: SelectiveSum>(fst: FstM<W::M>, q: StateId, x: Seq<Label>)
    requires
        fst.start is Some,
    ensures
        accept_from::<GallicWeightMin<W>>(to_gallic_model::<W, GallicWeightMin<W>>(fst), q, x)
            == accept_from::<W>(fst, q, x),
    decreases x.len(), 1int, 0int,
{
    if fst.has_state(q) && x.len() > 0 {
        lemma_weighs_by::<W>(fst, fst.states[q as int].trs, x);
    }
}

proof fn lemma_weighs_by<W: SelectiveSum>(
    fst: FstM<W::M>,
    trs: Seq<TrM<W::M>>,
    x: Seq<Label>,
)
    requires
        fst.start is Some,
    ensures
        accept_by::<GallicWeightMin<W>>(
            to_gallic_model::<W, GallicWeightMin<W>>(fst),
            Seq::new(trs.len(), |j: int| to_gallic_tr::<W, GallicWeightMin<W>>(trs[j])),
            x,
        ) == accept_by::<W>(fst, trs, x),
    decreases x.len(), 0int, trs.len(),
{
    let mapped = Seq::new(trs.len(), |j: int| to_gallic_tr::<W, GallicWeightMin<W>>(trs[j]));
    if trs.len() > 0 && x.len() > 0 {
        let shorter = trs.drop_last();
        assert(mapped.drop_last() =~= Seq::new(
            shorter.len(),
            |j: int| to_gallic_tr::<W, GallicWeightMin<W>>(shorter[j]),
        ));
        assert(mapped.last() == to_gallic_tr::<W, GallicWeightMin<W>>(trs.last()));
        lemma_weighs_by::<W>(fst, shorter, x);
        lemma_weighs_from::<W>(fst, trs.last().nextstate, x.drop_first());
    }
}

/// The transducer `out` turns the input `x` into `y` alone, with the weight that `x` has
/// in `fst`, and this is the weight with which `fst` turns `x` into `y`.
pub open spec fn keeps_output<W: SemiringLaws>(
    out: FstM<W::M>,
    tails: Set<int>,
    fst: FstM<W::M>,
    x: Seq<Label>,
    y: Seq<Label>,
) -> bool {
    &&& forall|z: Seq<Label>| #[trigger]
        relation_with_tails::<W>(out, tails, x, z) == (if z == y {
            weight_of::<W>(fst, x)
        } else {
            no_value::<W>()
        })
    &&& relation::<W>(fst, x, y) == weight_of::<W>(fst, x)
}

/// Of the input `x` a best output is kept, and no other.
pub open spec fn keeps_best_of<W: SemiringLaws>(
    out: FstM<W::M>,
    tails: Set<int>,
    fst: FstM<W::M>,
    x: Seq<Label>,
) -> bool {
    exists|y: Seq<Label>| #[trigger] keeps_output::<W>(out, tails, fst, x, y)
}

/// Of every input a best output is kept, and no other.
pub open spec fn keeps_best<W: SemiringLaws>(
    out: FstM<W::M>,
    tails: Set<int>,
    fst: FstM<W::M>,
) -> bool {
    forall|x: Seq<Label>| #[trigger] keeps_best_of::<W>(out, tails, fst, x)
}

proof fn lemma_keeps_output<W: ExactDivision + SelectiveSum>(
    fst: FstM<W::M>,
    delta: W::Delta,
    max_states: Option<usize>,
    out: FstM<W::M>,
    tails: Set<int>,
    x: Seq<Label>,
)
    requires
        exact_step::<GallicWeightMin<W>>(delta),
        det_compute::<GallicWeightMin<W>, GallicCommonDivisor>(
            to_gallic_model::<W, GallicWeightMin<W>>(fst),
            None,
            delta,
            max_states,
        ).1 is Ok,
        relates_as_read::<W, GallicWeightMin<W>>(
            out,
            tails,
            det_compute::<GallicWeightMin<W>, GallicCommonDivisor>(
                to_gallic_model::<W, GallicWeightMin<W>>(fst),
                None,
                delta,
                max_states,
            ).1->Ok_0,
        ),
    ensures
        keeps_best_of::<W>(out, tails, fst, x),
{
    let g = to_gallic_model::<W, GallicWeightMin<W>>(fst);
    let (l, r) = det_compute::<GallicWeightMin<W>, GallicCommonDivisor>(
        g,
        None,
        delta,
        max_states,
    );
    let det = r->Ok_0;
    let best = weight_of::<W>(fst, x);
    let nothing = no_value::<W>();
    lemma_det_output::<GallicWeightMin<W>, GallicCommonDivisor>(g, None, delta, max_states);
    law_determinize_fsa_is_deterministic::<GallicWeightMin<W>, GallicCommonDivisor>(
        g,
        None,
        delta,
        max_states,
    );
    law_determinize_fsa_is_equivalent::<GallicWeightMin<W>, GallicCommonDivisor>(
        g,
        None,
        delta,
        max_states,
        x,
    );
    match det.start {
        None => {
            let y = Seq::<Label>::empty();
            assert(relation::<W>(fst, x, y) == best);
            assert forall|z: Seq<Label>| #[trigger]
                relation_with_tails::<W>(out, tails, x, z) == (if z == y {
                    best
                } else {
                    nothing
                }) by {
                assert(relation_with_tails::<W>(out, tails, x, z) == read::<
                    W,
                    GallicWeightMin<W>,
                >(det, x)(z));
            }
            assert(keeps_output::<W>(out, tails, fst, x, y));
        },
        Some(s0) => {
            let q = fst.start->0;
            lemma_weighs_from::<W>(fst, q, x);
            let y = lemma_one_output::<W>(det, s0, x);
            assert forall|z: Seq<Label>| #[trigger]
                relation_with_tails::<W>(out, tails, x, z) == (if z == y {
                    best
                } else {
                    nothing
                }) by {
                assert(relation_with_tails::<W>(out, tails, x, z) == read::<
                    W,
                    GallicWeightMin<W>,
                >(det, x)(z));
            }
            lemma_to_gallic_from::<W, GallicWeightMin<W>>(fst, q, x, y);
            lemma_accept_absorbs_read::<W>(g, q, x, y);
            let part = relation::<W>(fst, x, y);
            assert(W::sum(best, part) == best);
            if best == nothing {
                W::law_sum_zero(part);
            } else {
                lemma_det_writes::<W>(g, delta, max_states, s0, x, y, best);
                let pairs = l.op.table.tuples[s0 as int].pairs;
                let (i, t, u) = choose|i: int, t: Seq<Label>, u: W::V| #[trigger]
                    member_writes::<W>(g, pairs, x, y, best, i, t, u);
                let one = pairs[i].weight->0;
                assert(one.string + t =~= t);
                W::law_product_one(u);
                lemma_read_absorbs_path::<W>(g, q, x, y, best);
                W::law_sum_commutative(best, part);
            }
            assert(keeps_output::<W>(out, tails, fst, x, y));
        },
    }
}

/// A transducer of which only the best output is asked for is turned into one that is
/// deterministic: it turns every input into one output, with the weight of the best
/// path that reads the input, and the given transducer turns the input into this output
/// with this weight. No state has two transitions with the same input label, and there
/// is one way to write what is left of the output at the end. Rounding must not change
/// weights.
pub proof fn law_disambiguation_keeps_best_outputs<W: ExactDivision + SelectiveSum>(
    fst: FstM<W::M>,
    delta: W::Delta,
    max_states: Option<usize>,
)
    requires
        exact_step::<W>(delta),
        exact_step::<W>(W::Delta::kdelta_model()),
    ensures
        determinize_fst_model::<W>(
            fst,
            DeterminizeType::DeterminizeDisambiguate,
            delta,
            max_states,
        ) matches Ok(out) ==> exists|tails: Set<int>| #[trigger]
            ends_in_tails(out, tails) && reads_deterministically(out, tails) && one_way_to_finish(
                out,
                tails,
            ) && keeps_best::<W>(out, tails, fst),
{
    law_gallic_steps_are_exact::<W>(delta);
    law_gallic_steps_are_exact::<W>(W::Delta::kdelta_model());
    if let Ok(out) = determinize_fst_model::<W>(
        fst,
        DeterminizeType::DeterminizeDisambiguate,
        delta,
        max_states,
    ) {
        lemma_via_reads::<W, GallicWeightMin<W>, GallicCommonDivisor>(fst, delta, max_states);
        let det = det_compute::<GallicWeightMin<W>, GallicCommonDivisor>(
            to_gallic_model::<W, GallicWeightMin<W>>(fst),
            None,
            delta,
            max_states,
        ).1->Ok_0;
        let tails = choose|tails: Set<int>| #[trigger]
            ends_in_tails(out, tails) && reads_deterministically(out, tails) && relates_as_read::<
                W,
                GallicWeightMin<W>,
            >(out, tails, det) && one_way_to_finish(out, tails);
        assert(ends_in_tails(out, tails) && reads_deterministically(out, tails)
            && relates_as_read::<W, GallicWeightMin<W>>(out, tails, det) && one_way_to_finish(
            out,
            tails,
        ));
        assert forall|x: Seq<Label>| #[trigger] keeps_best_of::<W>(out, tails, fst, x) by {
            lemma_keeps_output::<W>(fst, delta, max_states, out, tails, x);
        }
        assert(keeps_best::<W>(out, tails, fst));
    }
}

} // verus!
