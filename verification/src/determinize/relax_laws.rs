//! What a larger limit on the elements of subsets does to a determinization.

use crate::determinize::determinize_fsa::det_compute;
use crate::determinize::determinize_fsa_op::{
    expand_pairs, expand_trs, name_groups, norm_model, DetM, DeterminizeFsaOp, ExpandM, GroupM,
};
use crate::determinize::divisors::CommonDivisor;
use crate::determinize::element::{ElementM, TupleM};
use crate::determinize::limit_laws::limited_compute;
use crate::determinize::state_table::{find_model, TableM};
use crate::error::FstError;
use crate::fst::tr::{StateId, TrM};
use crate::fst::vector_fst::FstM;
use crate::lazy::fst_op::FstOp;
use crate::lazy::null_cache::NullCache;
use crate::lazy::simulation_laws::{
    does_the_same, fails_with_it, law_failure_is_owed, law_same_operation_gives_same_machine,
};
use crate::semirings::semiring::{Semiring, WeaklyDivisibleSemiring, WeightQuantize};
use vstd::prelude::*;

verus! {

/// The table with another limit.
pub open spec fn relaxed<M>(t: TableM<M>, more: Option<usize>) -> TableM<M> {
    TableM { max_elements: more, ..t }
}

/// The second limit allows all that the first does; without a limit everything is allowed.
pub open spec fn allows_more(limit: Option<usize>, more: Option<usize>) -> bool {
    more matches Some(m) ==> (limit matches Some(l) && l <= m)
}

/// The error says that the limit on the elements of subsets was exceeded, and by what.
pub open spec fn over_limit(e: FstError, limit: Option<usize>) -> bool {
    e matches FstError::SubsetBudgetExceeded(excess) && limit == Some(excess.limit)
        && excess.attempted > excess.limit
}

proof fn lemma_find_relaxed<W: Semiring>(
    t: TableM<W::M>,
    tuple: TupleM<W::M>,
    more: Option<usize>,
)
    requires
        allows_more(t.max_elements, more),
    ensures
        find_model::<W>(t, tuple).0.max_elements == t.max_elements,
        match find_model::<W>(t, tuple).1 {
            Ok(id) => find_model::<W>(relaxed(t, more), tuple) == (
                relaxed(find_model::<W>(t, tuple).0, more),
                Ok::<StateId, FstError>(id),
            ),
            Err(e) => over_limit(e, t.max_elements) || find_model::<W>(
                relaxed(t, more),
                tuple,
            ).1 is Err,
        },
{
}

proof fn lemma_expand_trs_relaxed<W: Semiring, CD: CommonDivisor<W>>(
    t: TableM<W::M>,
    e: ExpandM<W::M>,
    weight: W::M,
    trs: Seq<TrM<W::M>>,
    more: Option<usize>,
)
    requires
        allows_more(t.max_elements, more),
    ensures
        match expand_trs::<W, CD>(t, e, weight, trs) {
            Ok(after) => expand_trs::<W, CD>(relaxed(t, more), e, weight, trs) == Ok::<
                ExpandM<W::M>,
                FstError,
            >(after),
            Err(f) => over_limit(f, t.max_elements) || expand_trs::<W, CD>(
                relaxed(t, more),
                e,
                weight,
                trs,
            ) is Err,
        },
    decreases trs.len(),
{
    if trs.len() > 0 {
        lemma_expand_trs_relaxed::<W, CD>(t, e, weight, trs.drop_last(), more);
    }
}

proof fn lemma_expand_pairs_relaxed<W: Semiring, CD: CommonDivisor<W>>(
    fst: FstM<W::M>,
    t: TableM<W::M>,
    pairs: Seq<ElementM<W::M>>,
    more: Option<usize>,
)
    requires
        allows_more(t.max_elements, more),
    ensures
        match expand_pairs::<W, CD>(fst, t, pairs) {
            Ok(e) => expand_pairs::<W, CD>(fst, relaxed(t, more), pairs) == Ok::<
                ExpandM<W::M>,
                FstError,
            >(e),
            Err(f) => over_limit(f, t.max_elements) || expand_pairs::<W, CD>(
                fst,
                relaxed(t, more),
                pairs,
            ) is Err,
        },
    decreases pairs.len(),
{
    if pairs.len() > 0 {
        lemma_expand_pairs_relaxed::<W, CD>(fst, t, pairs.drop_last(), more);
        if let Ok(e) = expand_pairs::<W, CD>(fst, t, pairs.drop_last()) {
            if fst.has_state(pairs.last().state) {
                lemma_expand_trs_relaxed::<W, CD>(
                    t,
                    e,
                    pairs.last().weight,
                    fst.states[pairs.last().state as int].trs,
                    more,
                );
            }
        }
    }
}

proof fn lemma_name_groups_relaxed<
    W: WeaklyDivisibleSemiring + WeightQuantize,
    CD: CommonDivisor<W>,
>(t: TableM<W::M>, groups: Seq<GroupM<W::M>>, delta: W::Delta, more: Option<usize>)
    requires
        allows_more(t.max_elements, more),
    ensures
        name_groups::<W, CD>(t, groups, delta).0.max_elements == t.max_elements,
        match name_groups::<W, CD>(t, groups, delta).1 {
            Ok(trs) => name_groups::<W, CD>(relaxed(t, more), groups, delta) == (
                relaxed(name_groups::<W, CD>(t, groups, delta).0, more),
                Ok::<Seq<TrM<W::M>>, FstError>(trs),
            ),
            Err(e) => over_limit(e, t.max_elements) || name_groups::<W, CD>(
                relaxed(t, more),
                groups,
                delta,
            ).1 is Err,
        },
    decreases groups.len(),
{
    if groups.len() > 0 {
        lemma_name_groups_relaxed::<W, CD>(t, groups.drop_last(), delta, more);
        let (t1, r) = name_groups::<W, CD>(t, groups.drop_last(), delta);
        if let Ok((weight, pairs)) = norm_model::<W, CD>(groups.last().pairs, delta) {
            lemma_find_relaxed::<W>(t1, TupleM { pairs, filter_state: 0 }, more);
        }
    }
}

/// The second determinization is the first with another limit.
spec fn with_more<M, D>(limit: Option<usize>, more: Option<usize>) -> spec_fn(
    DetM<M, D>,
    DetM<M, D>,
) -> bool {
    |a: DetM<M, D>, b: DetM<M, D>|
        a.table.max_elements == limit && b == (DetM { table: relaxed(a.table, more), ..a })
}

proof fn lemma_does_with_more<W: WeaklyDivisibleSemiring + WeightQuantize, CD: CommonDivisor<W>>(
    limit: Option<usize>,
    more: Option<usize>,
)
    requires
        allows_more(limit, more),
    ensures
        does_the_same::<W, DeterminizeFsaOp<'_, W, CD>>(with_more::<W::M, W::Delta>(limit, more)),
        fails_with_it::<W, DeterminizeFsaOp<'_, W, CD>>(
            with_more::<W::M, W::Delta>(limit, more),
            |e: FstError| over_limit(e, limit),
        ),
{
    let related = with_more::<W::M, W::Delta>(limit, more);
    assert forall|a: DetM<W::M, W::Delta>, b: DetM<W::M, W::Delta>| #[trigger]
        related(a, b) && DeterminizeFsaOp::<'_, W, CD>::valid(a) implies {
        &&& DeterminizeFsaOp::<'_, W, CD>::valid(b)
        &&& DeterminizeFsaOp::<'_, W, CD>::properties_model(a) == DeterminizeFsaOp::<
            '_,
            W,
            CD,
        >::properties_model(b)
        &&& match DeterminizeFsaOp::<'_, W, CD>::start_model(a).1 {
            Ok(start) => DeterminizeFsaOp::<'_, W, CD>::start_model(b).1 == Ok::<
                Option<StateId>,
                FstError,
            >(start) && related(
                DeterminizeFsaOp::<'_, W, CD>::start_model(a).0,
                DeterminizeFsaOp::<'_, W, CD>::start_model(b).0,
            ),
            Err(e) => over_limit(e, limit) || DeterminizeFsaOp::<'_, W, CD>::start_model(b).1 is Err,
        }
    } by {
        if let Some(q) = a.fst.start {
            let tuple = TupleM {
                pairs: seq![ElementM { state: q, weight: W::one_model() }],
                filter_state: q,
            };
            lemma_find_relaxed::<W>(a.table, tuple, more);
        }
    }
    assert forall|a: DetM<W::M, W::Delta>, b: DetM<W::M, W::Delta>, id: StateId|
        #![trigger related(a, b), DeterminizeFsaOp::<'_, W, CD>::trs_model(a, id)]
        related(a, b) && DeterminizeFsaOp::<'_, W, CD>::valid(a) && DeterminizeFsaOp::<
            '_,
            W,
            CD,
        >::known(a, id) implies match DeterminizeFsaOp::<'_, W, CD>::trs_model(a, id).1 {
        Ok(trs) => DeterminizeFsaOp::<'_, W, CD>::trs_model(b, id).1 == Ok::<
            Seq<TrM<W::M>>,
            FstError,
        >(trs) && related(
            DeterminizeFsaOp::<'_, W, CD>::trs_model(a, id).0,
            DeterminizeFsaOp::<'_, W, CD>::trs_model(b, id).0,
        ),
        Err(e) => over_limit(e, limit) || DeterminizeFsaOp::<'_, W, CD>::trs_model(b, id).1 is Err,
    } by {
        let pairs = a.table.tuples[id as int].pairs;
        lemma_expand_pairs_relaxed::<W, CD>(a.fst, a.table, pairs, more);
        if let Ok(e) = expand_pairs::<W, CD>(a.fst, a.table, pairs) {
            lemma_name_groups_relaxed::<W, CD>(a.table, e.groups, a.delta, more);
        }
    }
}

/// A larger limit on the elements of subsets, or none, changes nothing that the smaller one
/// allows: the same machine comes out. If a machine comes out with the larger limit and not
/// with the smaller one, the error names the smaller one.
pub proof fn law_larger_subset_limit_is_harmless<
    W: WeaklyDivisibleSemiring + WeightQuantize,
    CD: CommonDivisor<W>,
>(
    fst: FstM<W::M>,
    in_dist: Option<Seq<W::M>>,
    delta: W::Delta,
    limit: Option<usize>,
    more: Option<usize>,
    max_states: Option<usize>,
)
    requires
        allows_more(limit, more),
    ensures
        ({
            let small = limited_compute::<W, CD>(fst, in_dist, delta, limit, max_states).1;
            let large = limited_compute::<W, CD>(fst, in_dist, delta, more, max_states).1;
            &&& small is Ok ==> large == small
            &&& large is Ok ==> (small matches Err(e) ==> over_limit(e, limit))
        }),
{
    lemma_does_with_more::<W, CD>(limit, more);
    let a = DetM { fst, table: TableM::<W::M>::empty(in_dist, limit), delta };
    let b = DetM { fst, table: TableM::<W::M>::empty(in_dist, more), delta };
    let related = with_more::<W::M, W::Delta>(limit, more);
    assert(related(a, b));
    law_same_operation_gives_same_machine::<W, DeterminizeFsaOp<'_, W, CD>, NullCache<W>>(
        a,
        b,
        related,
        fst.isymt,
        fst.osymt,
        max_states,
        None,
    );
    if limited_compute::<W, CD>(fst, in_dist, delta, more, max_states).1 is Ok {
        law_failure_is_owed::<W, DeterminizeFsaOp<'_, W, CD>, NullCache<W>>(
            a,
            b,
            related,
            |e: FstError| over_limit(e, limit),
            fst.isymt,
            fst.osymt,
            max_states,
            None,
        );
    }
}

/// The largest limit there is is no limit.
pub proof fn law_largest_subset_limit_is_none<
    W: WeaklyDivisibleSemiring + WeightQuantize,
    CD: CommonDivisor<W>,
>(
    fst: FstM<W::M>,
    in_dist: Option<Seq<W::M>>,
    delta: W::Delta,
    max_states: Option<usize>,
)
    ensures
        ({
            let limited = limited_compute::<W, CD>(
                fst,
                in_dist,
                delta,
                Some(usize::MAX),
                max_states,
            ).1;
            let free = det_compute::<W, CD>(fst, in_dist, delta, max_states).1;
            limited is Ok || free is Ok ==> limited == free
        }),
{
    law_larger_subset_limit_is_harmless::<W, CD>(
        fst,
        in_dist,
        delta,
        Some(usize::MAX),
        None,
        max_states,
    );
}

} // verus!
