//! A transducer that is refused as not functional has two ways to write.

use crate::determinize::determinize_fsa::{det_begin, det_compute};
use crate::determinize::determinize_fsa_op::{
    divide_all, divisor_of, expand_one, expand_pairs, expand_trs, final_or_zero, group_pairs,
    groups_upto, merge_equal, name_groups, pairs_upto, residual, subset_final, with_group, DetM,
    DeterminizeFsaOp, ExpandM, GroupM,
};
use crate::determinize::divisors::GallicCommonDivisor;
use crate::determinize::element::{ElementM, TupleM};
use crate::determinize::laws::lemma_det_expansion;
use crate::determinize::lean_laws::{lemma_pairs_upto_range, lemma_upto_ranges};
use crate::determinize::state_table::{find_model, TableM};
use crate::error::FstError;
use crate::fst::tr::{Label, StateId, TrM};
use crate::fst::vector_fst::FstM;
use crate::lazy::fst_op::FstOp;
use crate::lazy::laws::closed_machine;
use crate::lazy::null_cache::NullCache;
use crate::lazy::reach_laws::law_failure_has_a_reason;
use crate::paths::{is_path, lemma_path_concat, lemma_path_end, lemma_path_one, path_end};
use crate::semirings::gallic::{after_first, label_string, GallicWeightRestrict, ItemM};
use crate::semirings::semiring::{DivideType, Semiring, WeaklyDivisibleSemiring, WeightQuantize};
use crate::weight_convert::{to_gallic_model, to_gallic_tr};
use vstd::prelude::*;

verus! {

/// What a path reads, label by label.
pub open spec fn read_by<M>(path: Seq<TrM<M>>) -> Seq<Label> {
    Seq::new(path.len(), |i: int| path[i].ilabel)
}

/// What a path writes; the empty label writes nothing.
pub open spec fn written_by<M>(path: Seq<TrM<M>>) -> Seq<Label>
    decreases path.len(),
{
    if path.len() == 0 {
        Seq::empty()
    } else {
        written_by(path.drop_last()) + label_string(path.last().olabel)
    }
}

/// Two paths from the start read the same and write something different, and lead to the
/// same state, or both to final states.
pub open spec fn two_ways<M>(fst: FstM<M>) -> bool {
    exists|p: Seq<TrM<M>>, q: Seq<TrM<M>>|
        #![trigger is_path(fst, fst.start->0 as int, p), is_path(fst, fst.start->0 as int, q)]
        {
            let s = fst.start->0 as int;
            &&& is_path(fst, s, p)
            &&& is_path(fst, s, q)
            &&& read_by(p) == read_by(q)
            &&& written_by(p) != written_by(q)
            &&& path_end(s, p) == path_end(s, q) || (fst.states[path_end(s, p)].final_weight is Some
                && fst.states[path_end(s, q)].final_weight is Some)
        }
}

/// Computing with weights never fails as if two strings had been written.
pub open spec fn weights_write_nothing<W: WeaklyDivisibleSemiring + WeightQuantize>() -> bool {
    &&& forall|a: W::M, b: W::M|
        #[trigger] W::plus_model(a, b) != Err::<W::M, FstError>(FstError::NonFunctional)
    &&& forall|a: W::M, b: W::M|
        #[trigger] W::times_model(a, b) != Err::<W::M, FstError>(FstError::NonFunctional)
    &&& forall|a: W::M, b: W::M| #[trigger]
        W::divide_model(a, b, DivideType::DivideLeft) != Err::<W::M, FstError>(
            FstError::NonFunctional,
        )
    &&& forall|a: W::M, delta: W::Delta|
        #[trigger] W::quantize_model(a, delta) != Err::<W::M, FstError>(FstError::NonFunctional)
}

/// A path from the start reads `x`, writes `y` and leads to `q`.
spec fn leads<M>(fst: FstM<M>, x: Seq<Label>, y: Seq<Label>, q: int) -> bool {
    exists|path: Seq<TrM<M>>|
        {
            &&& #[trigger] is_path(fst, fst.start->0 as int, path)
            &&& path_end(fst.start->0 as int, path) == q
            &&& read_by(path) == x
            &&& written_by(path) == y
        }
}

proof fn lemma_leads_apart<M>(
    fst: FstM<M>,
    x: Seq<Label>,
    y: Seq<Label>,
    z: Seq<Label>,
    u: int,
    v: int,
)
    requires
        leads(fst, x, y, u),
        leads(fst, x, z, v),
        y != z,
        u == v || (fst.states[u].final_weight is Some && fst.states[v].final_weight is Some),
    ensures
        two_ways(fst),
{
    let s = fst.start->0 as int;
    let p = choose|path: Seq<TrM<M>>|
        #[trigger] is_path(fst, s, path) && path_end(s, path) == u && read_by(path) == x
            && written_by(path) == y;
    let q = choose|path: Seq<TrM<M>>|
        #[trigger] is_path(fst, s, path) && path_end(s, path) == v && read_by(path) == x
            && written_by(path) == z;
    assert(is_path(fst, s, p) && is_path(fst, s, q));
}

proof fn lemma_leads_on<M>(
    fst: FstM<M>,
    x: Seq<Label>,
    y: Seq<Label>,
    q: int,
    j: int,
)
    requires
        closed_machine(fst),
        leads(fst, x, y, q),
        0 <= q < fst.states.len(),
        0 <= j < fst.states[q].trs.len(),
    ensures
        ({
            let tr = fst.states[q].trs[j];
            leads(fst, x.push(tr.ilabel), y + label_string(tr.olabel), tr.nextstate as int)
        }),
{
    let s = fst.start->0 as int;
    let tr = fst.states[q].trs[j];
    let path = choose|path: Seq<TrM<M>>|
        #[trigger] is_path(fst, s, path) && path_end(s, path) == q && read_by(path) == x
            && written_by(path) == y;
    lemma_path_end(fst, s, path);
    lemma_path_one(fst, q, tr);
    lemma_path_concat(fst, s, path, seq![tr]);
    let longer = path + seq![tr];
    assert(longer.drop_last() =~= path);
    assert(longer.last() == tr);
    assert(read_by(longer) =~= x.push(tr.ilabel));
    assert(is_path(fst, s, longer));
}

/// Every element of the subset is where a path leads that reads `x` and writes `u` and
/// what is still to be written.
spec fn traced_by<W: Semiring>(
    fst: FstM<W::M>,
    x: Seq<Label>,
    u: Seq<Label>,
    pairs: Seq<ElementM<Option<ItemM<W::M>>>>,
) -> bool {
    forall|i: int|
        0 <= i < pairs.len() ==> traced::<W>(fst, x, u, #[trigger] pairs[i])
}

spec fn traced<W: Semiring>(
    fst: FstM<W::M>,
    x: Seq<Label>,
    u: Seq<Label>,
    pair: ElementM<Option<ItemM<W::M>>>,
) -> bool {
    &&& pair.weight is Some
    &&& fst.has_state(pair.state)
    &&& leads(fst, x, u + pair.weight->0.string, pair.state as int)
}

spec fn traced_groups<W: Semiring>(
    fst: FstM<W::M>,
    x: Seq<Label>,
    u: Seq<Label>,
    groups: Seq<GroupM<Option<ItemM<W::M>>>>,
) -> bool {
    forall|i: int|
        0 <= i < groups.len() ==> (#[trigger] groups[i]).pairs.len() > 0 && traced_by::<W>(
            fst,
            x.push(groups[i].label),
            u,
            groups[i].pairs,
        )
}

/// The error has another reason, or there are two ways.
spec fn excused<M>(fst: FstM<M>, e: FstError) -> bool {
    e != FstError::NonFunctional || two_ways(fst)
}

proof fn lemma_traced_group<W: Semiring>(
    fst: FstM<W::M>,
    x: Seq<Label>,
    u: Seq<Label>,
    groups: Seq<GroupM<Option<ItemM<W::M>>>>,
    label: Label,
    pairs: Seq<ElementM<Option<ItemM<W::M>>>>,
)
    requires
        traced_groups::<W>(fst, x, u, groups),
    ensures
        traced_by::<W>(fst, x.push(label), u, group_pairs(groups, label)),
        pairs.len() > 0 && traced_by::<W>(fst, x.push(label), u, pairs) ==> traced_groups::<W>(
            fst,
            x,
            u,
            with_group(groups, label, pairs),
        ),
{
    lemma_upto_ranges(groups, label);
    let after = with_group(groups, label, pairs);
    let k = groups_upto(groups, label);
    if pairs.len() > 0 && traced_by::<W>(fst, x.push(label), u, pairs) {
        assert forall|i: int| 0 <= i < after.len() implies (#[trigger] after[i]).pairs.len() > 0
            && traced_by::<W>(fst, x.push(after[i].label), u, after[i].pairs) by {
            if k > 0 && groups[k - 1].label == label {
                if i != k - 1 {
                    assert(after[i] == groups[i]);
                }
            } else if i < k {
                assert(after[i] == groups[i]);
            } else if i > k {
                assert(after[i] == groups[i - 1]);
            }
        }
    }
}

proof fn lemma_traced_one<W: WeaklyDivisibleSemiring + WeightQuantize>(
    fst: FstM<W::M>,
    x: Seq<Label>,
    u: Seq<Label>,
    t: TableM<Option<ItemM<W::M>>>,
    e: ExpandM<Option<ItemM<W::M>>>,
    label: Label,
    pair: ElementM<Option<ItemM<W::M>>>,
)
    requires
        traced_groups::<W>(fst, x, u, e.groups),
        traced::<W>(fst, x.push(label), u, pair),
    ensures
        match expand_one::<GallicWeightRestrict<W>, GallicCommonDivisor>(
            t,
            e,
            label,
            pair.state,
            pair.weight,
        ) {
            Ok(after) => traced_groups::<W>(fst, x, u, after.groups),
            Err(f) => excused(fst, f),
        },
{
    lemma_traced_group::<W>(fst, x, u, e.groups, label, Seq::empty());
    let pairs = group_pairs(e.groups, label);
    let k = pairs_upto(pairs, pair.state);
    lemma_pairs_upto_range(pairs, pair.state);
    let more = pairs.insert(k, ElementM { state: pair.state, weight: pair.weight });
    assert forall|i: int| 0 <= i < more.len() implies traced::<W>(
        fst,
        x.push(label),
        u,
        #[trigger] more[i],
    ) by {
        if i < k {
            assert(more[i] == pairs[i]);
        } else if i > k {
            assert(more[i] == pairs[i - 1]);
        } else {
            assert(more[i] == pair);
        }
    }
    lemma_traced_group::<W>(fst, x, u, e.groups, label, more);
}

proof fn lemma_traced_trs<W: WeaklyDivisibleSemiring + WeightQuantize>(
    fst: FstM<W::M>,
    x: Seq<Label>,
    u: Seq<Label>,
    t: TableM<Option<ItemM<W::M>>>,
    e: ExpandM<Option<ItemM<W::M>>>,
    pair: ElementM<Option<ItemM<W::M>>>,
    n: int,
)
    requires
        fst.start is Some,
        closed_machine(fst),
        weights_write_nothing::<W>(),
        traced_groups::<W>(fst, x, u, e.groups),
        traced::<W>(fst, x, u, pair),
        0 <= n <= fst.states[pair.state as int].trs.len(),
    ensures
        ({
            let a = to_gallic_model::<W, GallicWeightRestrict<W>>(fst);
            let trs = a.states[pair.state as int].trs.take(n);
            match expand_trs::<GallicWeightRestrict<W>, GallicCommonDivisor>(
                t,
                e,
                pair.weight,
                trs,
            ) {
                Ok(after) => traced_groups::<W>(fst, x, u, after.groups),
                Err(f) => excused(fst, f),
            }
        }),
    decreases n,
{
    let a = to_gallic_model::<W, GallicWeightRestrict<W>>(fst);
    let q = pair.state as int;
    let trs = a.states[q].trs.take(n);
    if n > 0 {
        let init = a.states[q].trs.take(n - 1);
        assert(trs.drop_last() =~= init);
        lemma_traced_trs::<W>(fst, x, u, t, e, pair, n - 1);
        let tr = fst.states[q].trs[n - 1];
        let last = trs.last();
        assert(last == to_gallic_tr::<W, GallicWeightRestrict<W>>(tr));
        if let Ok(sofar) = expand_trs::<GallicWeightRestrict<W>, GallicCommonDivisor>(
            t,
            e,
            pair.weight,
            init,
        ) {
            let product = GallicWeightRestrict::<W>::times_model(pair.weight, last.weight);
            assert(W::times_model(pair.weight->0.weight, tr.weight) != Err::<W::M, FstError>(
                FstError::NonFunctional,
            ));
            if let Ok(w) = product {
                let y = u + pair.weight->0.string;
                lemma_leads_on(fst, x, y, q, n - 1);
                assert(u + w->0.string =~= y + label_string(tr.olabel));
                let next = ElementM { state: tr.nextstate, weight: w };
                assert(traced::<W>(fst, x.push(tr.ilabel), u, next));
                lemma_traced_one::<W>(fst, x, u, t, sofar, tr.ilabel, next);
            }
        }
    }
}

/// The sum of final weights so far writes what some path to a final state writes.
spec fn ends_with<W: Semiring>(
    fst: FstM<W::M>,
    x: Seq<Label>,
    u: Seq<Label>,
    sum: Option<ItemM<W::M>>,
) -> bool {
    sum matches Some(item) ==> exists|q: int|
        0 <= q < fst.states.len() && (#[trigger] fst.states[q]).final_weight is Some && leads(
            fst,
            x,
            u + item.string,
            q,
        )
}

proof fn lemma_traced_expansion<W: WeaklyDivisibleSemiring + WeightQuantize>(
    fst: FstM<W::M>,
    x: Seq<Label>,
    u: Seq<Label>,
    t: TableM<Option<ItemM<W::M>>>,
    pairs: Seq<ElementM<Option<ItemM<W::M>>>>,
)
    requires
        fst.start is Some,
        closed_machine(fst),
        weights_write_nothing::<W>(),
        traced_by::<W>(fst, x, u, pairs),
    ensures
        ({
            let a = to_gallic_model::<W, GallicWeightRestrict<W>>(fst);
            &&& match expand_pairs::<GallicWeightRestrict<W>, GallicCommonDivisor>(a, t, pairs) {
                Ok(e) => traced_groups::<W>(fst, x, u, e.groups),
                Err(f) => excused(fst, f),
            }
            &&& match subset_final::<GallicWeightRestrict<W>>(a, pairs) {
                Ok(sum) => ends_with::<W>(fst, x, u, sum),
                Err(f) => excused(fst, f),
            }
        }),
    decreases pairs.len(),
{
    let a = to_gallic_model::<W, GallicWeightRestrict<W>>(fst);
    if pairs.len() > 0 {
        let init = pairs.drop_last();
        assert(forall|i: int| 0 <= i < init.len() ==> #[trigger] init[i] == pairs[i]);
        lemma_traced_expansion::<W>(fst, x, u, t, init);
        let last = pairs[pairs.len() - 1];
        assert(last == pairs.last());
        assert(traced::<W>(fst, x, u, last));
        let q = last.state as int;
        if let Ok(e) = expand_pairs::<GallicWeightRestrict<W>, GallicCommonDivisor>(a, t, init) {
            let trs = a.states[q].trs;
            assert(trs.take(trs.len() as int) =~= trs);
            lemma_traced_trs::<W>(fst, x, u, t, e, last, trs.len() as int);
        }
        if let Ok(sum) = subset_final::<GallicWeightRestrict<W>>(a, init) {
            let f = final_or_zero::<GallicWeightRestrict<W>>(a.states[q].final_weight);
            if let Some(w) = fst.states[q].final_weight {
                assert(W::times_model(last.weight->0.weight, w) != Err::<W::M, FstError>(
                    FstError::NonFunctional,
                ));
                if let Ok(through) = GallicWeightRestrict::<W>::times_model(last.weight, f) {
                    let item = through->0;
                    assert(item.string =~= last.weight->0.string);
                    assert(fst.states[q].final_weight is Some);
                    assert(ends_with::<W>(fst, x, u, through));
                    if let Some(other) = sum {
                        let v = choose|v: int|
                            0 <= v < fst.states.len() && (
                            #[trigger] fst.states[v]).final_weight is Some && leads(
                                fst,
                                x,
                                u + other.string,
                                v,
                            );
                        if other.string != item.string {
                            lemma_prefix_apart(u, other.string, item.string);
                            lemma_leads_apart(fst, x, u + other.string, u + item.string, v, q);
                        }
                        assert(W::plus_model(other.weight, item.weight) != Err::<W::M, FstError>(
                            FstError::NonFunctional,
                        ));
                    }
                }
            }
        }
    }
}

proof fn lemma_prefix_apart(u: Seq<Label>, a: Seq<Label>, b: Seq<Label>)
    requires
        a != b,
    ensures
        u + a != u + b,
{
    if u + a == u + b {
        assert((u + a).skip(u.len() as int) =~= a);
        assert((u + b).skip(u.len() as int) =~= b);
    }
}

/// The string begins with the divisor.
spec fn begins(string: Seq<Label>, d: Seq<Label>) -> bool {
    d.len() == 0 || (d.len() == 1 && string.len() > 0 && string[0] == d[0])
}

spec fn divides_pairs<W: Semiring>(
    pairs: Seq<ElementM<Option<ItemM<W::M>>>>,
    d: Option<ItemM<W::M>>,
) -> bool {
    &&& d is Some
    &&& forall|i: int|
        0 <= i < pairs.len() ==> begins((#[trigger] pairs[i]).weight->0.string, d->0.string)
}

proof fn lemma_traced_divisor<W: WeaklyDivisibleSemiring + WeightQuantize>(
    fst: FstM<W::M>,
    x: Seq<Label>,
    u: Seq<Label>,
    pairs: Seq<ElementM<Option<ItemM<W::M>>>>,
)
    requires
        weights_write_nothing::<W>(),
        traced_by::<W>(fst, x, u, pairs),
    ensures
        match divisor_of::<GallicWeightRestrict<W>, GallicCommonDivisor>(pairs) {
            Ok(d) => if pairs.len() > 0 {
                divides_pairs::<W>(pairs, d)
            } else {
                d is None
            },
            Err(e) => e != FstError::NonFunctional,
        },
        match merge_equal::<GallicWeightRestrict<W>>(pairs) {
            Ok(m) => {
                &&& traced_by::<W>(fst, x, u, m)
                &&& forall|d: Option<ItemM<W::M>>|
                    divides_pairs::<W>(pairs, d) ==> #[trigger] divides_pairs::<W>(m, d)
            },
            Err(e) => excused(fst, e),
        },
    decreases pairs.len(),
{
    if pairs.len() > 0 {
        let init = pairs.drop_last();
        assert(forall|i: int| 0 <= i < init.len() ==> #[trigger] init[i] == pairs[i]);
        lemma_traced_divisor::<W>(fst, x, u, init);
        let last = pairs[pairs.len() - 1];
        assert(last == pairs.last());
        assert(traced::<W>(fst, x, u, last));
        let item = last.weight->0;
        if let Ok(d) = divisor_of::<GallicWeightRestrict<W>, GallicCommonDivisor>(init) {
            assert(W::plus_model(W::zero_model(), item.weight) != Err::<W::M, FstError>(
                FstError::NonFunctional,
            ));
            if let Some(z) = d {
                assert(W::plus_model(z.weight, item.weight) != Err::<W::M, FstError>(
                    FstError::NonFunctional,
                ));
            }
            if let Ok(d2) = divisor_of::<GallicWeightRestrict<W>, GallicCommonDivisor>(pairs) {
                assert forall|i: int| 0 <= i < pairs.len() implies begins(
                    (#[trigger] pairs[i]).weight->0.string,
                    d2->0.string,
                ) by {
                    if i < init.len() {
                        assert(begins(init[i].weight->0.string, d->0.string));
                    }
                }
            }
        }
        if let Ok(m) = merge_equal::<GallicWeightRestrict<W>>(init) {
            assert forall|d: Option<ItemM<W::M>>| divides_pairs::<W>(pairs, d) implies
                #[trigger] divides_pairs::<W>(init, d) by {
                assert forall|i: int| 0 <= i < init.len() implies begins(
                    (#[trigger] init[i]).weight->0.string,
                    d->0.string,
                ) by {
                    assert(begins(pairs[i].weight->0.string, d->0.string));
                }
            }
            if m.len() > 0 && m.last().state == last.state {
                let before = m[m.len() - 1];
                assert(before == m.last());
                assert(traced::<W>(fst, x, u, before));
                let other = before.weight->0;
                if other.string != item.string {
                    lemma_prefix_apart(u, other.string, item.string);
                    lemma_leads_apart(
                        fst,
                        x,
                        u + other.string,
                        u + item.string,
                        last.state as int,
                        last.state as int,
                    );
                }
                assert(W::plus_model(other.weight, item.weight) != Err::<W::M, FstError>(
                    FstError::NonFunctional,
                ));
                if let Ok(m2) = merge_equal::<GallicWeightRestrict<W>>(pairs) {
                    assert(m2[m2.len() - 1].weight->0.string == item.string);
                    assert forall|d: Option<ItemM<W::M>>| divides_pairs::<W>(pairs, d) implies
                        #[trigger] divides_pairs::<W>(m2, d) by {
                        assert(divides_pairs::<W>(init, d));
                        assert(divides_pairs::<W>(m, d));
                        assert(begins(pairs[pairs.len() - 1].weight->0.string, d->0.string));
                        assert forall|i: int| 0 <= i < m2.len() implies begins(
                            (#[trigger] m2[i]).weight->0.string,
                            d->0.string,
                        ) by {
                            if i < m2.len() - 1 {
                                assert(m2[i] == m[i]);
                            }
                        }
                    }
                }
            } else {
                let m2 = m.push(last);
                assert forall|d: Option<ItemM<W::M>>| divides_pairs::<W>(pairs, d) implies
                    #[trigger] divides_pairs::<W>(m2, d) by {
                    assert(divides_pairs::<W>(init, d));
                    assert(divides_pairs::<W>(m, d));
                    assert forall|i: int| 0 <= i < m2.len() implies begins(
                        (#[trigger] m2[i]).weight->0.string,
                        d->0.string,
                    ) by {
                        if i < m2.len() - 1 {
                            assert(m2[i] == m[i]);
                        } else {
                            assert(m2[i] == pairs[pairs.len() - 1]);
                        }
                    }
                }
            }
        }
    }
}

proof fn lemma_traced_quotients<W: WeaklyDivisibleSemiring + WeightQuantize>(
    fst: FstM<W::M>,
    x: Seq<Label>,
    u: Seq<Label>,
    pairs: Seq<ElementM<Option<ItemM<W::M>>>>,
    d: Option<ItemM<W::M>>,
    delta: W::Delta,
)
    requires
        weights_write_nothing::<W>(),
        traced_by::<W>(fst, x, u, pairs),
        divides_pairs::<W>(pairs, d),
    ensures
        match divide_all::<GallicWeightRestrict<W>>(pairs, d, delta) {
            Ok(m) => traced_by::<W>(fst, x, u + d->0.string, m),
            Err(e) => e != FstError::NonFunctional,
        },
    decreases pairs.len(),
{
    if pairs.len() > 0 {
        let init = pairs.drop_last();
        assert(forall|i: int| 0 <= i < init.len() ==> #[trigger] init[i] == pairs[i]);
        lemma_traced_quotients::<W>(fst, x, u, init, d, delta);
        let last = pairs[pairs.len() - 1];
        assert(last == pairs.last());
        assert(traced::<W>(fst, x, u, last));
        assert(begins(last.weight->0.string, d->0.string));
        let (item, z) = (last.weight->0, d->0);
        assert(W::divide_model(item.weight, z.weight, DivideType::DivideLeft) != Err::<
            W::M,
            FstError,
        >(FstError::NonFunctional));
        if let Ok(c) = W::divide_model(item.weight, z.weight, DivideType::DivideLeft) {
            assert(W::quantize_model(c, delta) != Err::<W::M, FstError>(FstError::NonFunctional));
        }
        let rest = after_first(item.string, z.string.len());
        assert((u + z.string) + rest =~= u + item.string) by {
            if z.string.len() == 1 && item.string.len() == 1 {
                assert(z.string =~= item.string);
            }
        }
        if let Ok(w) = residual::<GallicWeightRestrict<W>>(last.weight, d, delta) {
            assert(w->0.string == rest);
            assert(traced::<W>(fst, x, u + z.string, ElementM { state: last.state, weight: w }));
        }
    }
}

/// The subset can be traced.
spec fn known_subset<W: Semiring>(
    fst: FstM<W::M>,
    pairs: Seq<ElementM<Option<ItemM<W::M>>>>,
) -> bool {
    exists|x: Seq<Label>, u: Seq<Label>| #[trigger] traced_by::<W>(fst, x, u, pairs)
}

spec fn traced_table<W: Semiring>(fst: FstM<W::M>, t: TableM<Option<ItemM<W::M>>>) -> bool {
    &&& t.in_dist is None
    &&& forall|i: int| 0 <= i < t.tuples.len() ==> known_subset::<W>(fst, (#[trigger] t.tuples[i]).pairs)
}

proof fn lemma_traced_find<W: WeaklyDivisibleSemiring + WeightQuantize>(
    fst: FstM<W::M>,
    t: TableM<Option<ItemM<W::M>>>,
    tuple: TupleM<Option<ItemM<W::M>>>,
)
    requires
        traced_table::<W>(fst, t),
        known_subset::<W>(fst, tuple.pairs),
    ensures
        traced_table::<W>(fst, find_model::<GallicWeightRestrict<W>>(t, tuple).0),
        find_model::<GallicWeightRestrict<W>>(t, tuple).1 != Err::<StateId, FstError>(
            FstError::NonFunctional,
        ),
{
}

proof fn lemma_traced_names<W: WeaklyDivisibleSemiring + WeightQuantize>(
    fst: FstM<W::M>,
    x: Seq<Label>,
    u: Seq<Label>,
    t: TableM<Option<ItemM<W::M>>>,
    groups: Seq<GroupM<Option<ItemM<W::M>>>>,
    delta: W::Delta,
)
    requires
        weights_write_nothing::<W>(),
        traced_table::<W>(fst, t),
        traced_groups::<W>(fst, x, u, groups),
    ensures
        ({
            let (after, r) = name_groups::<GallicWeightRestrict<W>, GallicCommonDivisor>(
                t,
                groups,
                delta,
            );
            traced_table::<W>(fst, after) && (r matches Err(e) ==> excused(fst, e))
        }),
    decreases groups.len(),
{
    if groups.len() > 0 {
        let init = groups.drop_last();
        assert(forall|i: int| 0 <= i < init.len() ==> #[trigger] init[i] == groups[i]);
        lemma_traced_names::<W>(fst, x, u, t, init, delta);
        let t1 = name_groups::<GallicWeightRestrict<W>, GallicCommonDivisor>(t, init, delta).0;
        let g = groups[groups.len() - 1];
        assert(groups.last() == g);
        let longer = x.push(g.label);
        lemma_traced_divisor::<W>(fst, longer, u, g.pairs);
        if let Ok(d) = divisor_of::<GallicWeightRestrict<W>, GallicCommonDivisor>(g.pairs) {
            if let Ok(m) = merge_equal::<GallicWeightRestrict<W>>(g.pairs) {
                assert(divides_pairs::<W>(m, d));
                lemma_traced_quotients::<W>(fst, longer, u, m, d, delta);
                if let Ok(dest) = divide_all::<GallicWeightRestrict<W>>(m, d, delta) {
                    assert(traced_by::<W>(fst, longer, u + d->0.string, dest));
                    lemma_traced_find::<W>(fst, t1, TupleM { pairs: dest, filter_state: 0 });
                }
            }
        }
    }
}

/// When the automaton of a transducer that is treated as functional cannot be determinized
/// because it would write two strings for one, the transducer has two ways: two paths that
/// read the same and write something different, and lead to the same state, or both to
/// final states.
pub proof fn law_refused_automaton_has_two_ways<W: WeaklyDivisibleSemiring + WeightQuantize>(
    fst: FstM<W::M>,
    delta: W::Delta,
    max_states: Option<usize>,
)
    requires
        closed_machine(fst),
        weights_write_nothing::<W>(),
    ensures
        ({
            let a = to_gallic_model::<W, GallicWeightRestrict<W>>(fst);
            det_compute::<GallicWeightRestrict<W>, GallicCommonDivisor>(
                a,
                None,
                delta,
                max_states,
            ).1 == Err::<FstM<Option<ItemM<W::M>>>, FstError>(FstError::NonFunctional) ==> two_ways(
                fst,
            )
        }),
{
    let a = to_gallic_model::<W, GallicWeightRestrict<W>>(fst);
    let good = |s: DetM<Option<ItemM<W::M>>, W::Delta>|
        s.fst == a && s.delta == delta && traced_table::<W>(fst, s.table) && (fst.start is None
            ==> s.table.tuples.len() == 0);
    let failure = |e: FstError| excused(fst, e);
    let begin = det_begin::<GallicWeightRestrict<W>>(a, None, delta);
    lemma_det_expansion::<GallicWeightRestrict<W>, GallicCommonDivisor>(begin.op);
    assert forall|s: DetM<Option<ItemM<W::M>>, W::Delta>|
        DeterminizeFsaOp::<'_, GallicWeightRestrict<W>, GallicCommonDivisor>::valid(s)
            && #[trigger] good(s) implies good(
        DeterminizeFsaOp::<'_, GallicWeightRestrict<W>, GallicCommonDivisor>::start_model(s).0,
    ) && (DeterminizeFsaOp::<'_, GallicWeightRestrict<W>, GallicCommonDivisor>::start_model(
        s,
    ).1 matches Err(e) ==> failure(e)) by {
        if let Some(q) = fst.start {
            let one = GallicWeightRestrict::<W>::one_model();
            let none = Seq::<Label>::empty();
            let pairs = seq![ElementM { state: q, weight: one }];
            assert(traced::<W>(fst, none, none, pairs[0])) by {
                let path = Seq::<TrM<W::M>>::empty();
                assert(is_path(fst, q as int, path));
                assert(read_by(path) =~= none);
                assert(none + one->0.string =~= none);
            }
            assert(traced_by::<W>(fst, none, none, pairs));
            lemma_traced_find::<W>(fst, s.table, TupleM { pairs, filter_state: q });
        }
    }
    assert forall|s: DetM<Option<ItemM<W::M>>, W::Delta>, id: StateId|
        #![trigger good(s), DeterminizeFsaOp::<'_, GallicWeightRestrict<W>, GallicCommonDivisor>::trs_model(s, id)]
        DeterminizeFsaOp::<'_, GallicWeightRestrict<W>, GallicCommonDivisor>::valid(s) && good(s)
            && DeterminizeFsaOp::<'_, GallicWeightRestrict<W>, GallicCommonDivisor>::known(
            s,
            id,
        ) implies good(
        DeterminizeFsaOp::<'_, GallicWeightRestrict<W>, GallicCommonDivisor>::trs_model(s, id).0,
    ) && (DeterminizeFsaOp::<'_, GallicWeightRestrict<W>, GallicCommonDivisor>::trs_model(
        s,
        id,
    ).1 matches Err(e) ==> failure(e)) by {
        let pairs = s.table.tuples[id as int].pairs;
        assert(known_subset::<W>(fst, pairs));
        let (x, u) = choose|x: Seq<Label>, u: Seq<Label>| #[trigger]
            traced_by::<W>(fst, x, u, pairs);
        lemma_traced_expansion::<W>(fst, x, u, s.table, pairs);
        if let Ok(e) = expand_pairs::<GallicWeightRestrict<W>, GallicCommonDivisor>(
            a,
            s.table,
            pairs,
        ) {
            lemma_traced_names::<W>(fst, x, u, s.table, e.groups, delta);
        }
    }
    assert forall|s: DetM<Option<ItemM<W::M>>, W::Delta>, id: StateId|
        #![trigger good(s), DeterminizeFsaOp::<'_, GallicWeightRestrict<W>, GallicCommonDivisor>::final_weight_model(s, id)]
        DeterminizeFsaOp::<'_, GallicWeightRestrict<W>, GallicCommonDivisor>::valid(s) && good(s)
            && DeterminizeFsaOp::<'_, GallicWeightRestrict<W>, GallicCommonDivisor>::known(
            s,
            id,
        ) implies good(
        DeterminizeFsaOp::<'_, GallicWeightRestrict<W>, GallicCommonDivisor>::final_weight_model(
            s,
            id,
        ).0,
    ) && (DeterminizeFsaOp::<'_, GallicWeightRestrict<W>, GallicCommonDivisor>::final_weight_model(
        s,
        id,
    ).1 matches Err(e) ==> failure(e)) by {
        let pairs = s.table.tuples[id as int].pairs;
        assert(known_subset::<W>(fst, pairs));
        let (x, u) = choose|x: Seq<Label>, u: Seq<Label>| #[trigger]
            traced_by::<W>(fst, x, u, pairs);
        lemma_traced_expansion::<W>(fst, x, u, s.table, pairs);
    }
    law_failure_has_a_reason::<
        GallicWeightRestrict<W>,
        DeterminizeFsaOp<'_, GallicWeightRestrict<W>, GallicCommonDivisor>,
        NullCache<GallicWeightRestrict<W>>,
    >(begin, a.isymt, a.osymt, max_states, None, good, failure);
}

} // verus!
