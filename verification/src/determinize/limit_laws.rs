//! What a limit on the elements of subsets does to a determinization.

use crate::determinize::determinize_fsa::det_compute;
use crate::determinize::determinize_fsa_op::{
    expand_pairs, expand_trs, lemma_name_groups, name_groups, norm_model, DetM, DeterminizeFsaOp,
    ExpandM, GroupM,
};
use crate::determinize::divisors::CommonDivisor;
use crate::determinize::element::{ElementM, TupleM};
use crate::determinize::state_table::{count_elements, find_model, lemma_find, TableM};
use crate::error::FstError;
use crate::fst::tr::{StateId, TrM};
use crate::fst::vector_fst::FstM;
use crate::lazy::cache::CacheM;
use crate::lazy::fst_op::FstOp;
use crate::lazy::laws::law_machine_stays_valid;
use crate::lazy::lazy_fst::{compute_model, LazyM};
use crate::lazy::null_cache::NullCache;
use crate::lazy::simulation_laws::{does_the_same, law_same_operation_gives_same_machine};
use crate::semirings::semiring::{Semiring, WeaklyDivisibleSemiring, WeightQuantize};
use vstd::prelude::*;

verus! {

/// The table without a limit.
pub open spec fn unlimited<M>(t: TableM<M>) -> TableM<M> {
    TableM { max_elements: None, ..t }
}

proof fn lemma_find_unlimited<W: Semiring>(t: TableM<W::M>, tuple: TupleM<W::M>)
    requires
        find_model::<W>(t, tuple).1 is Ok,
    ensures
        find_model::<W>(unlimited(t), tuple) == (
            unlimited(find_model::<W>(t, tuple).0),
            find_model::<W>(t, tuple).1,
        ),
{
}

proof fn lemma_expand_trs_unlimited<W: Semiring, CD: CommonDivisor<W>>(
    t: TableM<W::M>,
    e: ExpandM<W::M>,
    weight: W::M,
    trs: Seq<TrM<W::M>>,
)
    ensures
        expand_trs::<W, CD>(t, e, weight, trs) is Ok ==> expand_trs::<W, CD>(
            unlimited(t),
            e,
            weight,
            trs,
        ) == expand_trs::<W, CD>(t, e, weight, trs),
    decreases trs.len(),
{
    if trs.len() > 0 {
        lemma_expand_trs_unlimited::<W, CD>(t, e, weight, trs.drop_last());
    }
}

proof fn lemma_expand_pairs_unlimited<W: Semiring, CD: CommonDivisor<W>>(
    fst: FstM<W::M>,
    t: TableM<W::M>,
    pairs: Seq<ElementM<W::M>>,
)
    ensures
        expand_pairs::<W, CD>(fst, t, pairs) is Ok ==> expand_pairs::<W, CD>(
            fst,
            unlimited(t),
            pairs,
        ) == expand_pairs::<W, CD>(fst, t, pairs),
    decreases pairs.len(),
{
    if pairs.len() > 0 {
        lemma_expand_pairs_unlimited::<W, CD>(fst, t, pairs.drop_last());
        if let Ok(e) = expand_pairs::<W, CD>(fst, t, pairs.drop_last()) {
            if fst.has_state(pairs.last().state) {
                lemma_expand_trs_unlimited::<W, CD>(
                    t,
                    e,
                    pairs.last().weight,
                    fst.states[pairs.last().state as int].trs,
                );
            }
        }
    }
}

proof fn lemma_name_groups_unlimited<
    W: WeaklyDivisibleSemiring + WeightQuantize,
    CD: CommonDivisor<W>,
>(t: TableM<W::M>, groups: Seq<GroupM<W::M>>, delta: W::Delta)
    ensures
        name_groups::<W, CD>(t, groups, delta).1 is Ok ==> name_groups::<W, CD>(
            unlimited(t),
            groups,
            delta,
        ) == (
            unlimited(name_groups::<W, CD>(t, groups, delta).0),
            name_groups::<W, CD>(t, groups, delta).1,
        ),
    decreases groups.len(),
{
    if groups.len() > 0 {
        lemma_name_groups_unlimited::<W, CD>(t, groups.drop_last(), delta);
        let (t1, r) = name_groups::<W, CD>(t, groups.drop_last(), delta);
        if name_groups::<W, CD>(t, groups, delta).1 is Ok {
            let (weight, pairs) = norm_model::<W, CD>(groups.last().pairs, delta)->Ok_0;
            lemma_find_unlimited::<W>(t1, TupleM { pairs, filter_state: 0 });
        }
    }
}

/// The second determinization is the first without its limit.
spec fn without_limit<M, D>() -> spec_fn(DetM<M, D>, DetM<M, D>) -> bool {
    |a: DetM<M, D>, b: DetM<M, D>| b == (DetM { table: unlimited(a.table), ..a })
}

proof fn lemma_does_without<W: WeaklyDivisibleSemiring + WeightQuantize, CD: CommonDivisor<W>>()
    ensures
        does_the_same::<W, DeterminizeFsaOp<'_, W, CD>>(without_limit::<W::M, W::Delta>()),
{
    let related = without_limit::<W::M, W::Delta>();
    assert forall|a: DetM<W::M, W::Delta>, b: DetM<W::M, W::Delta>| #[trigger]
        related(a, b) && DeterminizeFsaOp::<'_, W, CD>::valid(a) implies {
        &&& DeterminizeFsaOp::<'_, W, CD>::valid(b)
        &&& DeterminizeFsaOp::<'_, W, CD>::properties_model(a) == DeterminizeFsaOp::<
            '_,
            W,
            CD,
        >::properties_model(b)
        &&& DeterminizeFsaOp::<'_, W, CD>::start_model(a).1 is Ok ==> DeterminizeFsaOp::<
            '_,
            W,
            CD,
        >::start_model(b).1 == DeterminizeFsaOp::<'_, W, CD>::start_model(a).1 && related(
            DeterminizeFsaOp::<'_, W, CD>::start_model(a).0,
            DeterminizeFsaOp::<'_, W, CD>::start_model(b).0,
        )
    } by {
        if let Some(q) = a.fst.start {
            let tuple = TupleM {
                pairs: seq![ElementM { state: q, weight: W::one_model() }],
                filter_state: q,
            };
            if find_model::<W>(a.table, tuple).1 is Ok {
                lemma_find_unlimited::<W>(a.table, tuple);
            }
        }
    }
    assert forall|a: DetM<W::M, W::Delta>, b: DetM<W::M, W::Delta>, id: StateId|
        #![trigger related(a, b), DeterminizeFsaOp::<'_, W, CD>::trs_model(a, id)]
        related(a, b) && DeterminizeFsaOp::<'_, W, CD>::valid(a) && DeterminizeFsaOp::<
            '_,
            W,
            CD,
        >::known(a, id) && DeterminizeFsaOp::<'_, W, CD>::trs_model(a, id).1 is Ok implies {
        &&& DeterminizeFsaOp::<'_, W, CD>::trs_model(b, id).1 == DeterminizeFsaOp::<
            '_,
            W,
            CD,
        >::trs_model(a, id).1
        &&& related(
            DeterminizeFsaOp::<'_, W, CD>::trs_model(a, id).0,
            DeterminizeFsaOp::<'_, W, CD>::trs_model(b, id).0,
        )
    } by {
        let pairs = a.table.tuples[id as int].pairs;
        lemma_expand_pairs_unlimited::<W, CD>(a.fst, a.table, pairs);
        let e = expand_pairs::<W, CD>(a.fst, a.table, pairs)->Ok_0;
        lemma_name_groups_unlimited::<W, CD>(a.table, e.groups, a.delta);
    }
}

/// The determinization of `fst` in which subsets may hold `limit` elements in all,
/// written out.
pub open spec fn limited_compute<
    W: WeaklyDivisibleSemiring + WeightQuantize,
    CD: CommonDivisor<W>,
>(
    fst: FstM<W::M>,
    in_dist: Option<Seq<W::M>>,
    delta: W::Delta,
    limit: Option<usize>,
    max_states: Option<usize>,
) -> (LazyM<W::M, DetM<W::M, W::Delta>>, Result<FstM<W::M>, FstError>) {
    compute_model::<W, DeterminizeFsaOp<'_, W, CD>, NullCache<W>>(
        LazyM {
            cache: CacheM::empty(),
            op: DetM { fst, table: TableM::empty(in_dist, limit), delta },
        },
        fst.isymt,
        fst.osymt,
        max_states,
        None,
    )
}

/// A limit on the elements of subsets that is not exceeded changes nothing: with it the
/// same machine comes out as without.
pub proof fn law_subset_limit_is_harmless<
    W: WeaklyDivisibleSemiring + WeightQuantize,
    CD: CommonDivisor<W>,
>(
    fst: FstM<W::M>,
    in_dist: Option<Seq<W::M>>,
    delta: W::Delta,
    limit: Option<usize>,
    max_states: Option<usize>,
)
    requires
        limited_compute::<W, CD>(fst, in_dist, delta, limit, max_states).1 is Ok,
    ensures
        det_compute::<W, CD>(fst, in_dist, delta, max_states).1 == limited_compute::<W, CD>(
            fst,
            in_dist,
            delta,
            limit,
            max_states,
        ).1,
{
    lemma_does_without::<W, CD>();
    let a = DetM { fst, table: TableM::<W::M>::empty(in_dist, limit), delta };
    let b = DetM { fst, table: TableM::<W::M>::empty(in_dist, None), delta };
    law_same_operation_gives_same_machine::<W, DeterminizeFsaOp<'_, W, CD>, NullCache<W>>(
        a,
        b,
        without_limit::<W::M, W::Delta>(),
        fst.isymt,
        fst.osymt,
        max_states,
        None,
    );
}

/// Whether or not a determinization fails, the subsets that it has named hold no more
/// elements than the limit allows.
pub proof fn law_subset_limit_is_kept<
    W: WeaklyDivisibleSemiring + WeightQuantize,
    CD: CommonDivisor<W>,
>(
    fst: FstM<W::M>,
    in_dist: Option<Seq<W::M>>,
    delta: W::Delta,
    limit: usize,
    max_states: Option<usize>,
)
    requires
        limit < usize::MAX,
    ensures
        count_elements(
            limited_compute::<W, CD>(
                fst,
                in_dist,
                delta,
                Some(limit),
                max_states,
            ).0.op.table.tuples,
        ) <= limit,
{
    let begin = LazyM {
        cache: CacheM::<W::M>::empty(),
        op: DetM { fst, table: TableM::<W::M>::empty(in_dist, Some(limit)), delta },
    };
    let good = |s: DetM<W::M, W::Delta>| s.table.max_elements == Some(limit);
    assert forall|s: DetM<W::M, W::Delta>|
        DeterminizeFsaOp::<'_, W, CD>::valid(s) && #[trigger] good(s) implies good(
        DeterminizeFsaOp::<'_, W, CD>::start_model(s).0,
    ) by {
        if let Some(q) = s.fst.start {
            lemma_find::<W>(
                s.table,
                TupleM {
                    pairs: seq![ElementM { state: q, weight: W::one_model() }],
                    filter_state: q,
                },
            );
        }
    }
    assert forall|s: DetM<W::M, W::Delta>, id: StateId|
        #![trigger good(s), DeterminizeFsaOp::<'_, W, CD>::trs_model(s, id)]
        DeterminizeFsaOp::<'_, W, CD>::valid(s) && good(s) && DeterminizeFsaOp::<
            '_,
            W,
            CD,
        >::known(s, id) implies good(DeterminizeFsaOp::<'_, W, CD>::trs_model(s, id).0) by {
        if let Ok(e) = expand_pairs::<W, CD>(s.fst, s.table, s.table.tuples[id as int].pairs) {
            lemma_name_groups::<W, CD>(s.table, e.groups, s.delta);
        }
    }
    law_machine_stays_valid::<W, DeterminizeFsaOp<'_, W, CD>, NullCache<W>>(
        begin,
        fst.isymt,
        fst.osymt,
        max_states,
        None,
        good,
    );
}

} // verus!
