//! How many elements leave a subset, and when they are too many.

use crate::determinize::determinize_fsa_op::{
    expand_one, expand_pairs, expand_trs, group_pairs, groups_upto, has_pair, pairs_upto,
    with_group, ExpandM, GroupM,
};
use crate::determinize::divisors::CommonDivisor;
use crate::determinize::element::ElementM;
use crate::determinize::lean_laws::{lemma_pairs_upto_range, lemma_upto_ranges};
use crate::determinize::state_table::{budget_model, TableM};
use crate::error::{DeterminizeSubsetLimitExceeded, FstError};
use crate::fst::tr::{Label, StateId, TrM};
use crate::fst::vector_fst::FstM;
use crate::lazy::lazy_fst::saturating;
use crate::semirings::semiring::Semiring;
use vstd::prelude::*;

verus! {

/// A limit allows some more elements exactly when there are not more than it then, and
/// otherwise says what the limit was and how many there would have been.
pub proof fn law_limit_is_exact<M>(t: TableM<M>, extra: nat, limit: usize)
    requires
        t.max_elements == Some(limit),
        t.stored + extra <= usize::MAX,
    ensures
        budget_model(t, extra as int) == if t.stored + extra <= limit {
            Ok::<(), FstError>(())
        } else {
            Err::<(), FstError>(
                FstError::SubsetBudgetExceeded(
                    DeterminizeSubsetLimitExceeded {
                        limit,
                        attempted: (t.stored + extra) as usize,
                    },
                ),
            )
        },
{
}

/// How many elements the groups hold together.
pub open spec fn held<M>(groups: Seq<GroupM<M>>) -> nat
    decreases groups.len(),
{
    if groups.len() == 0 {
        0
    } else {
        held(groups.drop_last()) + groups.last().pairs.len()
    }
}

proof fn lemma_held_update<M>(groups: Seq<GroupM<M>>, i: int, g: GroupM<M>)
    requires
        0 <= i < groups.len(),
    ensures
        held(groups.update(i, g)) == held(groups) - groups[i].pairs.len() + g.pairs.len(),
    decreases groups.len(),
{
    let init = groups.drop_last();
    if i == groups.len() - 1 {
        assert(groups.update(i, g).drop_last() =~= init);
    } else {
        lemma_held_update(init, i, g);
        assert(groups.update(i, g).drop_last() =~= init.update(i, g));
    }
}

proof fn lemma_held_insert<M>(groups: Seq<GroupM<M>>, i: int, g: GroupM<M>)
    requires
        0 <= i <= groups.len(),
    ensures
        held(groups.insert(i, g)) == held(groups) + g.pairs.len(),
    decreases groups.len(),
{
    let after = groups.insert(i, g);
    if i == groups.len() {
        assert(after.drop_last() =~= groups);
    } else {
        let init = groups.drop_last();
        lemma_held_insert(init, i, g);
        assert(after.drop_last() =~= init.insert(i, g));
        assert(after.last() == groups.last());
    }
}

proof fn lemma_held_group<M>(groups: Seq<GroupM<M>>, label: Label, pairs: Seq<ElementM<M>>)
    ensures
        held(with_group(groups, label, pairs)) == held(groups) - group_pairs(groups, label).len()
            + pairs.len(),
{
    let k = groups_upto(groups, label);
    lemma_upto_ranges(groups, label);
    if k > 0 && groups[k - 1].label == label {
        lemma_held_update(groups, k - 1, GroupM { label, pairs });
    } else {
        lemma_held_insert(groups, k, GroupM { label, pairs });
    }
}

/// The elements are counted, as far as they can be.
spec fn counted<M>(e: ExpandM<M>) -> bool {
    e.elements == saturating(held(e.groups) as int, 0)
}

/// There is room for the elements.
pub open spec fn room_for<M>(t: TableM<M>, elements: int) -> bool {
    t.max_elements matches Some(limit) ==> saturating(t.stored as int, elements) <= limit
}

/// The error of the limit.
pub open spec fn over_limit<M>(t: TableM<M>, e: FstError) -> bool {
    e matches FstError::SubsetBudgetExceeded(x) && t.max_elements == Some(x.limit) && x.attempted
        > x.limit
}

/// The table without its limit.
pub open spec fn unlimited<M>(t: TableM<M>) -> TableM<M> {
    TableM { max_elements: None, ..t }
}

/// What comes out under the limit, compared with what comes out without it.
spec fn limited<M>(
    t: TableM<M>,
    r: Result<ExpandM<M>, FstError>,
    free: Result<ExpandM<M>, FstError>,
) -> bool {
    match free {
        Ok(e) => if e.elements == 0 || room_for(t, e.elements) {
            r == Ok::<ExpandM<M>, FstError>(e)
        } else {
            r matches Err(x) && over_limit(t, x)
        },
        Err(x) => r == Err::<ExpandM<M>, FstError>(x) || (r matches Err(y) && over_limit(t, y)),
    }
}

proof fn lemma_counted_one<W: Semiring, CD: CommonDivisor<W>>(
    t: TableM<W::M>,
    e: ExpandM<W::M>,
    label: Label,
    state: StateId,
    weight: W::M,
)
    requires
        counted(e),
    ensures
        expand_one::<W, CD>(unlimited(t), e, label, state, weight) matches Ok(after) ==> counted(
            after,
        ) && after.elements >= e.elements,
        e.elements == 0 || room_for(t, e.elements) ==> limited(
            t,
            expand_one::<W, CD>(t, e, label, state, weight),
            expand_one::<W, CD>(unlimited(t), e, label, state, weight),
        ),
{
    let pairs = group_pairs(e.groups, label);
    let k = pairs_upto(pairs, state);
    lemma_pairs_upto_range(pairs, state);
    if CD::merge_before_divisor_model() && has_pair(pairs, state) {
        if let Ok(sum) = W::plus_model(pairs[k - 1].weight, weight) {
            lemma_held_group(e.groups, label, pairs.update(k - 1, ElementM { state, weight: sum }));
        }
    } else {
        lemma_held_group(e.groups, label, pairs.insert(k, ElementM { state, weight }));
    }
}

proof fn lemma_counted_trs<W: Semiring, CD: CommonDivisor<W>>(
    t: TableM<W::M>,
    e: ExpandM<W::M>,
    weight: W::M,
    trs: Seq<TrM<W::M>>,
)
    requires
        counted(e),
    ensures
        expand_trs::<W, CD>(unlimited(t), e, weight, trs) matches Ok(after) ==> counted(after)
            && after.elements >= e.elements,
        e.elements == 0 || room_for(t, e.elements) ==> limited(
            t,
            expand_trs::<W, CD>(t, e, weight, trs),
            expand_trs::<W, CD>(unlimited(t), e, weight, trs),
        ),
    decreases trs.len(),
{
    if trs.len() > 0 {
        lemma_counted_trs::<W, CD>(t, e, weight, trs.drop_last());
        if let Ok(sofar) = expand_trs::<W, CD>(unlimited(t), e, weight, trs.drop_last()) {
            if let Ok(r) = W::times_model(weight, trs.last().weight) {
                lemma_counted_one::<W, CD>(
                    t,
                    sofar,
                    trs.last().ilabel,
                    trs.last().nextstate,
                    r,
                );
            }
        }
    }
}

proof fn lemma_counted_pairs<W: Semiring, CD: CommonDivisor<W>>(
    fst: FstM<W::M>,
    t: TableM<W::M>,
    pairs: Seq<ElementM<W::M>>,
)
    ensures
        expand_pairs::<W, CD>(fst, unlimited(t), pairs) matches Ok(after) ==> counted(after),
        limited(
            t,
            expand_pairs::<W, CD>(fst, t, pairs),
            expand_pairs::<W, CD>(fst, unlimited(t), pairs),
        ),
    decreases pairs.len(),
{
    if pairs.len() > 0 {
        let init = pairs.drop_last();
        lemma_counted_pairs::<W, CD>(fst, t, init);
        if let Ok(e) = expand_pairs::<W, CD>(fst, unlimited(t), init) {
            let last = pairs.last();
            if fst.has_state(last.state) {
                let trs = fst.states[last.state as int].trs;
                lemma_counted_trs::<W, CD>(t, e, last.weight, trs);
            }
        }
    }
}

/// Under a limit, what leaves a subset is what leaves it without one, as long as the
/// elements that are stored and those that leave it are together within the limit; and
/// otherwise the limit is the reason to fail.
pub proof fn law_limit_decides_expansion<W: Semiring, CD: CommonDivisor<W>>(
    fst: FstM<W::M>,
    t: TableM<W::M>,
    pairs: Seq<ElementM<W::M>>,
    limit: usize,
)
    requires
        t.max_elements == Some(limit),
        limit < usize::MAX,
        t.stored <= limit,
    ensures
        expand_pairs::<W, CD>(fst, unlimited(t), pairs) matches Ok(e) ==> {
            let r = expand_pairs::<W, CD>(fst, t, pairs);
            if t.stored + held(e.groups) <= limit {
                r == Ok::<ExpandM<W::M>, FstError>(e)
            } else {
                r matches Err(x) && over_limit(t, x)
            }
        },
{
    lemma_counted_pairs::<W, CD>(fst, t, pairs);
}

} // verus!
