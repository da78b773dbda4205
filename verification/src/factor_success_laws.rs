//! When spreading output strings over transitions succeeds.

use crate::determinize::element::TupleM;
use crate::determinize::state_table::{find_model, TableM};
use crate::error::FstError;
use crate::factor_weight::{
    all_trs, body_trs, body_tuple, end_weight, factor_begin, factor_compute, factor_ends,
    factor_trs, lemma_all_trs, tail_tuple, FactorM, FactorWeightOp,
};
use crate::fst::tr::{Label, StateId, TrM, EPS_LABEL};
use crate::fst::vector_fst::{FstM, StateM};
use crate::lazy::fst_op::FstOp;
use crate::lazy::laws::{closed_machine, law_output_follows_operation, op_expand, states_met};
use crate::lazy::null_cache::NullCache;
use crate::lazy::reach_laws::law_failure_has_a_reason;
use crate::semirings::gallic::{after_first, first_of, GallicWeightMin, GallicWeightRestrict, ItemM};
use crate::semirings::gallic_union::{list_quantize, GallicWeight};
use crate::semirings::semiring::{Semiring, WeightQuantize};
use crate::weight_convert::{from_gallic_model, plain_state, plain_tr, Gallic};
use vstd::prelude::*;

verus! {

/// What is clean splits into first parts that write at most one label, and rests that can
/// be rounded and are clean again; and what does not split writes at most one label.
pub open spec fn splits_cleanly<W: Semiring, G: Gallic<W> + WeightQuantize>(
    clean: spec_fn(G::M) -> bool,
    delta: G::Delta,
) -> bool {
    forall|w: G::M| #[trigger]
        clean(w) ==> {
            &&& G::factors_model(w).len() == 0 ==> G::extract_model(w) is Ok
            &&& forall|i: int|
                0 <= i < G::factors_model(w).len() ==> pair_is_clean::<W, G>(
                    clean,
                    delta,
                    #[trigger] G::factors_model(w)[i],
                )
        }
}

/// The first part writes at most one label, and the rest can be rounded and is clean.
pub open spec fn pair_is_clean<W: Semiring, G: Gallic<W> + WeightQuantize>(
    clean: spec_fn(G::M) -> bool,
    delta: G::Delta,
    pair: (G::M, G::M),
) -> bool {
    &&& G::extract_model(pair.0) is Ok
    &&& G::quantize_model(pair.1, delta) matches Ok(rest) && clean(rest)
}

/// The empty label does not occur in the string.
pub open spec fn no_empty_label(string: Seq<Label>) -> bool {
    forall|i: int| 0 <= i < string.len() ==> #[trigger] string[i] != EPS_LABEL
}

/// An optional item in whose string the empty label does not occur.
pub open spec fn clean_option<M>() -> spec_fn(Option<ItemM<M>>) -> bool {
    |a: Option<ItemM<M>>| a matches Some(x) ==> no_empty_label(x.string)
}

/// Items in whose strings the empty label does not occur.
pub open spec fn clean_list<M>() -> spec_fn(Seq<ItemM<M>>) -> bool {
    |a: Seq<ItemM<M>>|
        forall|i: int| 0 <= i < a.len() ==> no_empty_label((#[trigger] a[i]).string)
}

proof fn lemma_clean_parts(string: Seq<Label>)
    requires
        no_empty_label(string),
    ensures
        no_empty_label(first_of(string)),
        first_of(string).len() <= 1,
        no_empty_label(after_first(string, 1)),
{
    assert forall|i: int| 0 <= i < after_first(string, 1).len() implies #[trigger] after_first(
        string,
        1,
    )[i] != EPS_LABEL by {
        assert(after_first(string, 1)[i] == string[i + 1]);
    }
}

/// Strings without the empty label split cleanly, if one can be rounded and stays one.
pub proof fn law_strings_split_cleanly<W: WeightQuantize>(delta: W::Delta)
    requires
        W::quantize_model(W::one_model(), delta) == Ok::<W::M, FstError>(W::one_model()),
    ensures
        splits_cleanly::<W, GallicWeightRestrict<W>>(clean_option::<W::M>(), delta),
        splits_cleanly::<W, GallicWeightMin<W>>(clean_option::<W::M>(), delta),
        splits_cleanly::<W, GallicWeight<W>>(clean_list::<W::M>(), delta),
{
    assert forall|a: Option<ItemM<W::M>>| #[trigger] clean_option::<W::M>()(a) implies {
        &&& GallicWeightRestrict::<W>::factors_model(a).len() == 0
            ==> GallicWeightRestrict::<W>::extract_model(a) is Ok
        &&& forall|i: int|
            0 <= i < GallicWeightRestrict::<W>::factors_model(a).len() ==> pair_is_clean::<
                W,
                GallicWeightRestrict<W>,
            >(clean_option::<W::M>(), delta, #[trigger] GallicWeightRestrict::<W>::factors_model(a)[i])
        &&& forall|i: int|
            0 <= i < GallicWeightMin::<W>::factors_model(a).len() ==> pair_is_clean::<
                W,
                GallicWeightMin<W>,
            >(clean_option::<W::M>(), delta, #[trigger] GallicWeightMin::<W>::factors_model(a)[i])
    } by {
        if let Some(x) = a {
            lemma_clean_parts(x.string);
            if x.string.len() == 1 {
                assert(x.string[0] != EPS_LABEL);
            }
            if x.string.len() > 1 {
                assert(first_of(x.string)[0] != EPS_LABEL);
            }
        }
    }
    assert forall|a: Seq<ItemM<W::M>>| #[trigger] clean_list::<W::M>()(a) implies {
        &&& GallicWeight::<W>::factors_model(a).len() == 0 ==> GallicWeight::<W>::extract_model(
            a,
        ) is Ok
        &&& forall|i: int|
            0 <= i < GallicWeight::<W>::factors_model(a).len() ==> pair_is_clean::<
                W,
                GallicWeight<W>,
            >(clean_list::<W::M>(), delta, #[trigger] GallicWeight::<W>::factors_model(a)[i])
    } by {
        if a.len() == 1 {
            assert(no_empty_label(a[0].string));
            if a[0].string.len() == 1 {
                assert(a[0].string[0] != EPS_LABEL);
            }
        }
        assert forall|i: int|
            0 <= i < GallicWeight::<W>::factors_model(a).len() implies pair_is_clean::<
            W,
            GallicWeight<W>,
        >(clean_list::<W::M>(), delta, #[trigger] GallicWeight::<W>::factors_model(a)[i]) by {
            let x = a[i];
            lemma_clean_parts(x.string);
            let first = ItemM { string: first_of(x.string), weight: x.weight };
            let rest = ItemM { string: after_first(x.string, 1), weight: W::one_model() };
            let pair = GallicWeight::<W>::factors_model(a)[i];
            assert(pair == (seq![first], seq![rest]));
            if first.string.len() == 1 {
                assert(first.string[0] != EPS_LABEL);
            }
            reveal_with_fuel(list_quantize, 2);
            assert(seq![rest].drop_last() =~= Seq::empty());
            assert(seq![rest].last() == rest);
            assert(list_quantize::<W>(seq![rest], delta)->Ok_0 =~= seq![rest]);
        }
    }
}

/// Every transition writes at most one label and has the same label on both sides, final
/// weights are clean, and one goes with every weight as it should.
pub open spec fn ready<W: Semiring, G: Gallic<W> + WeightQuantize>(
    fst: FstM<G::M>,
    clean: spec_fn(G::M) -> bool,
) -> bool {
    &&& forall|v: int, j: int|
        0 <= v < fst.states.len() && 0 <= j < fst.states[v].trs.len() ==> plain_tr::<W, G>(
            #[trigger] fst.states[v].trs[j],
        ) && G::times_model(G::one_model(), fst.states[v].trs[j].weight) == Ok::<G::M, FstError>(
            fst.states[v].trs[j].weight,
        )
    &&& forall|v: int|
        0 <= v < fst.states.len() ==> match (#[trigger] fst.states[v]).final_weight {
            Some(w) => clean(w) && G::times_model(G::one_model(), w) == Ok::<G::M, FstError>(w),
            None => true,
        }
}

/// The tuple stands for a state of the machine, or for something clean that is still to be
/// written.
spec fn ready_tuple<G: Semiring>(
    fst: FstM<G::M>,
    clean: spec_fn(G::M) -> bool,
    tuple: TupleM<G::M>,
) -> bool {
    &&& tuple.pairs.len() == 1
    &&& if tuple.filter_state == 0 {
        fst.has_state(tuple.pairs[0].state) && tuple.pairs[0].weight == G::one_model()
    } else {
        clean(tuple.pairs[0].weight)
    }
}

spec fn ready_table<G: Semiring>(
    fst: FstM<G::M>,
    clean: spec_fn(G::M) -> bool,
    t: TableM<G::M>,
) -> bool {
    &&& t.max_elements is None
    &&& t.in_dist is None
    &&& forall|i: int|
        0 <= i < t.tuples.len() ==> ready_tuple::<G>(fst, clean, #[trigger] t.tuples[i])
}

/// The error that there are no ids left.
spec fn no_ids_left(e: FstError) -> bool {
    e == FstError::TooManyStates
}

proof fn lemma_ready_find<G: Semiring>(
    fst: FstM<G::M>,
    clean: spec_fn(G::M) -> bool,
    t: TableM<G::M>,
    tuple: TupleM<G::M>,
)
    requires
        ready_table::<G>(fst, clean, t),
        ready_tuple::<G>(fst, clean, tuple),
    ensures
        ready_table::<G>(fst, clean, find_model::<G>(t, tuple).0),
        find_model::<G>(t, tuple).1 matches Err(e) ==> no_ids_left(e),
{
}

proof fn lemma_ready_trs<W: Semiring, G: Gallic<W> + WeightQuantize>(
    fst: FstM<G::M>,
    clean: spec_fn(G::M) -> bool,
    t: TableM<G::M>,
    trs: Seq<TrM<G::M>>,
)
    requires
        ready_table::<G>(fst, clean, t),
        forall|j: int|
            0 <= j < trs.len() ==> plain_tr::<W, G>(#[trigger] trs[j]) && G::times_model(
                G::one_model(),
                trs[j].weight,
            ) == Ok::<G::M, FstError>(trs[j].weight) && fst.has_state(trs[j].nextstate),
    ensures
        ready_table::<G>(fst, clean, factor_trs::<G>(t, G::one_model(), trs).0),
        match factor_trs::<G>(t, G::one_model(), trs).1 {
            Ok(out) => forall|j: int| 0 <= j < out.len() ==> plain_tr::<W, G>(#[trigger] out[j]),
            Err(e) => no_ids_left(e),
        },
    decreases trs.len(),
{
    if trs.len() > 0 {
        let init = trs.drop_last();
        assert(forall|j: int| 0 <= j < init.len() ==> #[trigger] init[j] == trs[j]);
        lemma_ready_trs::<W, G>(fst, clean, t, init);
        let t1 = factor_trs::<G>(t, G::one_model(), init).0;
        let last = trs[trs.len() - 1];
        assert(last == trs.last());
        lemma_ready_find::<G>(fst, clean, t1, body_tuple::<G>(last.nextstate));
    }
}

proof fn lemma_ready_ends<W: Semiring, G: Gallic<W> + WeightQuantize>(
    fst: FstM<G::M>,
    clean: spec_fn(G::M) -> bool,
    t: TableM<G::M>,
    delta: G::Delta,
    pairs: Seq<(G::M, G::M)>,
)
    requires
        ready_table::<G>(fst, clean, t),
        forall|i: int|
            0 <= i < pairs.len() ==> pair_is_clean::<W, G>(clean, delta, #[trigger] pairs[i]),
    ensures
        ready_table::<G>(fst, clean, factor_ends::<G>(t, delta, pairs).0),
        match factor_ends::<G>(t, delta, pairs).1 {
            Ok(out) => forall|j: int| 0 <= j < out.len() ==> plain_tr::<W, G>(#[trigger] out[j]),
            Err(e) => no_ids_left(e),
        },
    decreases pairs.len(),
{
    if pairs.len() > 0 {
        let init = pairs.drop_last();
        assert(forall|j: int| 0 <= j < init.len() ==> #[trigger] init[j] == pairs[j]);
        lemma_ready_ends::<W, G>(fst, clean, t, delta, init);
        let t1 = factor_ends::<G>(t, delta, init).0;
        let last = pairs[pairs.len() - 1];
        assert(last == pairs.last());
        assert(pair_is_clean::<W, G>(clean, delta, last));
        let rest = G::quantize_model(last.1, delta)->Ok_0;
        lemma_ready_find::<G>(fst, clean, t1, tail_tuple(rest));
    }
}

/// Everything about a state of the factored machine.
proof fn lemma_ready_state<W: Semiring, G: Gallic<W> + WeightQuantize>(
    s: FactorM<G::M, G::Delta>,
    clean: spec_fn(G::M) -> bool,
    tuple: TupleM<G::M>,
)
    requires
        closed_machine(s.fst),
        ready::<W, G>(s.fst, clean),
        splits_cleanly::<W, G>(clean, s.delta),
        ready_table::<G>(s.fst, clean, s.table),
        ready_tuple::<G>(s.fst, clean, tuple),
    ensures
        ready_table::<G>(s.fst, clean, all_trs::<W, G>(s, tuple).0),
        match all_trs::<W, G>(s, tuple).1 {
            Ok(out) => forall|j: int| 0 <= j < out.len() ==> plain_tr::<W, G>(#[trigger] out[j]),
            Err(e) => no_ids_left(e),
        },
        end_weight::<G>(s.fst, tuple) matches Ok(w) && (w matches Some(x) ==> clean(x)),
{
    let element = tuple.pairs[0];
    let q = element.state as int;
    if tuple.filter_state == 0 {
        let trs = s.fst.states[q].trs;
        assert forall|j: int| 0 <= j < trs.len() implies plain_tr::<W, G>(#[trigger] trs[j])
            && G::times_model(G::one_model(), trs[j].weight) == Ok::<G::M, FstError>(trs[j].weight)
            && s.fst.has_state(trs[j].nextstate) by {
            assert(plain_tr::<W, G>(s.fst.states[q].trs[j]));
        }
        lemma_ready_trs::<W, G>(s.fst, clean, s.table, trs);
        assert(s.fst.states[q].final_weight == s.fst.states[q].final_weight);
    }
    let (t1, r) = body_trs::<G>(s.fst, s.table, tuple);
    if let Ok(Some(w)) = end_weight::<G>(s.fst, tuple) {
        assert(clean(w));
        lemma_ready_ends::<W, G>(s.fst, clean, t1, s.delta, G::factors_model(w));
    }
}

/// Spreading the strings of a machine over transitions fails for no other reason than that
/// there are no ids left, and what comes out can be written with one label on each
/// transition and at most one at the end of each state.
pub proof fn law_factoring_succeeds<W: Semiring, G: Gallic<W> + WeightQuantize>(
    fst: FstM<G::M>,
    delta: G::Delta,
    clean: spec_fn(G::M) -> bool,
)
    requires
        closed_machine(fst),
        ready::<W, G>(fst, clean),
        splits_cleanly::<W, G>(clean, delta),
    ensures
        match factor_compute::<W, G>(fst, delta).1 {
            Ok(out) => {
                &&& forall|v: int|
                    0 <= v < out.states.len() ==> plain_state::<W, G>(#[trigger] out.states[v])
                &&& from_gallic_model::<W, G>(out) matches Err(e) ==> e == FstError::TooManyStates
            },
            Err(e) => e == FstError::TooManyStates,
        },
{
    let good = |s: FactorM<G::M, G::Delta>|
        s.fst == fst && s.delta == delta && ready_table::<G>(fst, clean, s.table);
    let allowed = |e: FstError| no_ids_left(e);
    let holds = |s: FactorM<G::M, G::Delta>, id: StateId, state: StateM<G::M>|
        plain_state::<W, G>(state);
    let begin = factor_begin::<G>(fst, delta);
    assert forall|s: FactorM<G::M, G::Delta>|
        FactorWeightOp::<'_, W, G>::valid(s) && #[trigger] good(s) implies good(
        FactorWeightOp::<'_, W, G>::start_model(s).0,
    ) && (FactorWeightOp::<'_, W, G>::start_model(s).1 matches Err(e) ==> allowed(e)) by {
        if let Some(q) = fst.start {
            lemma_ready_find::<G>(fst, clean, s.table, body_tuple::<G>(q));
        }
    }
    assert forall|s: FactorM<G::M, G::Delta>, id: StateId|
        #![trigger good(s), FactorWeightOp::<'_, W, G>::trs_model(s, id)]
        FactorWeightOp::<'_, W, G>::valid(s) && good(s) && FactorWeightOp::<'_, W, G>::known(
            s,
            id,
        ) implies good(FactorWeightOp::<'_, W, G>::trs_model(s, id).0) && (FactorWeightOp::<
        '_,
        W,
        G,
    >::trs_model(s, id).1 matches Err(e) ==> allowed(e)) by {
        lemma_ready_state::<W, G>(s, clean, s.table.tuples[id as int]);
    }
    assert forall|s: FactorM<G::M, G::Delta>, id: StateId|
        #![trigger good(s), FactorWeightOp::<'_, W, G>::final_weight_model(s, id)]
        FactorWeightOp::<'_, W, G>::valid(s) && good(s) && FactorWeightOp::<'_, W, G>::known(
            s,
            id,
        ) implies good(FactorWeightOp::<'_, W, G>::final_weight_model(s, id).0) && (
    FactorWeightOp::<'_, W, G>::final_weight_model(s, id).1 matches Err(e) ==> allowed(e)) by {
        lemma_ready_state::<W, G>(s, clean, s.table.tuples[id as int]);
    }
    law_failure_has_a_reason::<G, FactorWeightOp<'_, W, G>, NullCache<G>>(
        begin,
        fst.isymt,
        fst.osymt,
        None,
        None,
        good,
        allowed,
    );
    assert forall|s: FactorM<G::M, G::Delta>, id: StateId|
        FactorWeightOp::<'_, W, G>::valid(s) && good(s) && FactorWeightOp::<'_, W, G>::known(s, id)
            && (#[trigger] op_expand::<G, FactorWeightOp<'_, W, G>>(s, id)).1 is Ok implies good(
        op_expand::<G, FactorWeightOp<'_, W, G>>(s, id).0,
    ) && holds(
        op_expand::<G, FactorWeightOp<'_, W, G>>(s, id).0,
        id,
        op_expand::<G, FactorWeightOp<'_, W, G>>(s, id).1->Ok_0,
    ) by {
        let tuple = s.table.tuples[id as int];
        lemma_ready_state::<W, G>(s, clean, tuple);
        lemma_all_trs::<W, G>(s, tuple);
        let s1 = FactorWeightOp::<'_, W, G>::trs_model(s, id).0;
        assert(s1.table.tuples[id as int] == tuple);
        lemma_ready_state::<W, G>(s1, clean, tuple);
    }
    law_output_follows_operation::<G, FactorWeightOp<'_, W, G>>(
        begin.op,
        fst.isymt,
        fst.osymt,
        None,
        None,
        good,
        holds,
    );
    if let Ok(out) = factor_compute::<W, G>(fst, delta).1 {
        assert forall|v: int| 0 <= v < out.states.len() implies plain_state::<W, G>(
            #[trigger] out.states[v],
        ) by {
            assert(out.states.len() <= u32::MAX);
            assert(plain_state::<W, G>(StateM::<G::M>::fresh()));
            let id = v as StateId;
            let met = states_met::<G, FactorWeightOp<'_, W, G>, NullCache<G>>(
                begin,
                None,
                None,
            );
            if met.contains(id) {
                assert(holds(
                    factor_compute::<W, G>(fst, delta).0.op,
                    id,
                    out.states[id as int],
                ));
            } else {
                assert(out.states[v] == StateM::<G::M>::fresh());
            }
        }
    }
}

} // verus!
