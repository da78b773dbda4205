//! The distances of a tropical machine settle.

use crate::connect::connect_model;
use crate::determinize::determinize_fsa_op::final_or_zero;
use crate::fst::tr::{StateId, TrM};
use crate::fst::vector_fst::{lemma_final_is_weight, FstM, VectorFst};
use crate::lazy::laws::closed_machine;
use crate::paths::lemma_connect_state_back;
use crate::prune::{distance_at, prune_model, prune_states};
use crate::prune_laws::{
    all_at_most, best_weight, kept_at, lemma_gather_at, lemma_gather_trs_below, lemma_prune_keeps,
    lemma_pruned_closed, lemma_spread_below, lemma_spread_trs_below, prune_limit,
};
use crate::semirings::path_weights::at_most;
use crate::semirings::tropical::{lemma_cost_fits, TropicalWeight};
use crate::shortest_distance::{
    distances, distances_within, final_distances, gather, gather_trs, lemma_distances_len,
    settled, settles, spread, spread_trs,
};
use vstd::prelude::*;

verus! {

/// A cost, where `None` is infinity.
pub type Cost = Option<int>;

/// Every final weight lies within the representation of tropical weights.
pub open spec fn finals_fit(fst: FstM<Cost>) -> bool {
    forall|v: int|
        0 <= v < fst.states.len() ==> match (#[trigger] fst.states[v]).final_weight {
            Some(Some(x)) => i64::MIN <= x <= i64::MAX,
            _ => true,
        }
}

/// Every final weight of a machine in memory lies within the representation.
pub proof fn law_finals_fit(fst: VectorFst<TropicalWeight>)
    ensures
        finals_fit(fst.model()),
{
    assert forall|v: int| 0 <= v < fst.model().states.len() implies match (
    #[trigger] fst.model().states[v]).final_weight {
        Some(Some(x)) => i64::MIN <= x <= i64::MAX,
        _ => true,
    } by {
        if fst.model().states[v].final_weight is Some {
            let w = lemma_final_is_weight(fst, v);
            lemma_cost_fits(w);
        }
    }
}

/// Every distance lies within the representation.
pub open spec fn all_fit(a: Seq<Cost>) -> bool {
    forall|v: int|
        0 <= v < a.len() ==> match #[trigger] a[v] {
            Some(x) => i64::MIN <= x <= i64::MAX,
            None => true,
        }
}

proof fn lemma_spread_trs_mono(
    a: Seq<Cost>,
    b: Seq<Cost>,
    da: Cost,
    db: Cost,
    trs: Seq<TrM<Cost>>,
)
    requires
        all_at_most::<TropicalWeight>(a, b),
        at_most::<TropicalWeight>(da, db),
        forall|i: int| 0 <= i < trs.len() ==> (#[trigger] trs[i]).nextstate < a.len(),
        spread_trs::<TropicalWeight>(a, da, trs) is Ok,
        spread_trs::<TropicalWeight>(b, db, trs) is Ok,
    ensures
        all_at_most::<TropicalWeight>(
            spread_trs::<TropicalWeight>(a, da, trs)->Ok_0,
            spread_trs::<TropicalWeight>(b, db, trs)->Ok_0,
        ),
    decreases trs.len(),
{
    if trs.len() > 0 {
        lemma_spread_trs_mono(a, b, da, db, trs.drop_last());
        lemma_spread_trs_below::<TropicalWeight>(a, da, trs.drop_last());
        lemma_spread_trs_below::<TropicalWeight>(b, db, trs.drop_last());
        let x = spread_trs::<TropicalWeight>(a, da, trs.drop_last())->Ok_0;
        let y = spread_trs::<TropicalWeight>(b, db, trs.drop_last())->Ok_0;
        let v = trs.last().nextstate as int;
        assert(trs[trs.len() - 1].nextstate < a.len());
        assert(at_most::<TropicalWeight>(x[v], y[v]));
    }
}

proof fn lemma_spread_mono(fst: FstM<Cost>, a: Seq<Cost>, b: Seq<Cost>, n: int)
    requires
        closed_machine(fst),
        0 <= n <= fst.states.len(),
        a.len() == fst.states.len(),
        all_at_most::<TropicalWeight>(a, b),
        spread::<TropicalWeight>(fst, a, n) is Ok,
        spread::<TropicalWeight>(fst, b, n) is Ok,
    ensures
        all_at_most::<TropicalWeight>(
            spread::<TropicalWeight>(fst, a, n)->Ok_0,
            spread::<TropicalWeight>(fst, b, n)->Ok_0,
        ),
        spread::<TropicalWeight>(fst, a, n)->Ok_0.len() == fst.states.len(),
    decreases n,
{
    if n > 0 {
        lemma_spread_mono(fst, a, b, n - 1);
        lemma_spread_trs_mono(
            spread::<TropicalWeight>(fst, a, n - 1)->Ok_0,
            spread::<TropicalWeight>(fst, b, n - 1)->Ok_0,
            a[n - 1],
            b[n - 1],
            fst.states[n - 1].trs,
        );
        lemma_spread_trs_below::<TropicalWeight>(
            spread::<TropicalWeight>(fst, a, n - 1)->Ok_0,
            a[n - 1],
            fst.states[n - 1].trs,
        );
    }
}

/// What is smaller than a sum within the representation, or a product that is, is
/// within it.
proof fn lemma_spread_trs_fits(sums: Seq<Cost>, d: Cost, trs: Seq<TrM<Cost>>)
    requires
        forall|i: int| 0 <= i < trs.len() ==> (#[trigger] trs[i]).nextstate < sums.len(),
        spread_trs::<TropicalWeight>(sums, d, trs) is Ok,
        all_fit(sums),
    ensures
        all_fit(spread_trs::<TropicalWeight>(sums, d, trs)->Ok_0),
    decreases trs.len(),
{
    if trs.len() > 0 {
        lemma_spread_trs_fits(sums, d, trs.drop_last());
        lemma_spread_trs_below::<TropicalWeight>(sums, d, trs.drop_last());
    }
}

proof fn lemma_spread_fits(fst: FstM<Cost>, dist: Seq<Cost>, n: int)
    requires
        closed_machine(fst),
        0 <= n <= fst.states.len(),
        dist.len() == fst.states.len(),
        spread::<TropicalWeight>(fst, dist, n) is Ok,
    ensures
        all_fit(spread::<TropicalWeight>(fst, dist, n)->Ok_0),
    decreases n,
{
    if n > 0 {
        lemma_spread_fits(fst, dist, n - 1);
        lemma_spread_below::<TropicalWeight>(fst, dist, n - 1);
        lemma_spread_trs_fits(
            spread::<TropicalWeight>(fst, dist, n - 1)->Ok_0,
            dist[n - 1],
            fst.states[n - 1].trs,
        );
    }
}

proof fn lemma_gather_trs_fits(sum: Cost, dist: Seq<Cost>, trs: Seq<TrM<Cost>>)
    requires
        gather_trs::<TropicalWeight>(sum, dist, trs) is Ok,
        sum matches Some(x) ==> i64::MIN <= x <= i64::MAX,
    ensures
        gather_trs::<TropicalWeight>(sum, dist, trs)->Ok_0 matches Some(x) ==> i64::MIN <= x
            <= i64::MAX,
    decreases trs.len(),
{
    if trs.len() > 0 {
        lemma_gather_trs_fits(sum, dist, trs.drop_last());
    }
}

proof fn lemma_gather_trs_mono(
    sum: Cost,
    a: Seq<Cost>,
    b: Seq<Cost>,
    trs: Seq<TrM<Cost>>,
)
    requires
        all_at_most::<TropicalWeight>(a, b),
        forall|i: int| 0 <= i < trs.len() ==> (#[trigger] trs[i]).nextstate < a.len(),
        gather_trs::<TropicalWeight>(sum, a, trs) is Ok,
        gather_trs::<TropicalWeight>(sum, b, trs) is Ok,
    ensures
        at_most::<TropicalWeight>(
            gather_trs::<TropicalWeight>(sum, a, trs)->Ok_0,
            gather_trs::<TropicalWeight>(sum, b, trs)->Ok_0,
        ),
    decreases trs.len(),
{
    if trs.len() > 0 {
        lemma_gather_trs_mono(sum, a, b, trs.drop_last());
        let v = trs.last().nextstate as int;
        assert(trs[trs.len() - 1].nextstate < a.len());
        assert(at_most::<TropicalWeight>(a[v], b[v]));
    }
}

/// Distances shrink from one length to the next and stay within the
/// representation.
pub proof fn lemma_distances_shrink(fst: FstM<Cost>, reverse: bool, k: nat)
    requires
        closed_machine(fst),
        finals_fit(fst),
        distances_within::<TropicalWeight>(fst, reverse, k + 1) is Ok,
    ensures
        distances_within::<TropicalWeight>(fst, reverse, k) is Ok,
        all_at_most::<TropicalWeight>(
            distances_within::<TropicalWeight>(fst, reverse, k + 1)->Ok_0,
            distances_within::<TropicalWeight>(fst, reverse, k)->Ok_0,
        ),
        all_fit(distances_within::<TropicalWeight>(fst, reverse, k)->Ok_0),
        all_fit(distances_within::<TropicalWeight>(fst, reverse, k + 1)->Ok_0),
    decreases k,
{
    let n = fst.states.len() as int;
    let now = distances_within::<TropicalWeight>(fst, reverse, k);
    lemma_distances_len::<TropicalWeight>(fst, reverse, k);
    lemma_distances_len::<TropicalWeight>(fst, reverse, k + 1);
    let d = now->Ok_0;
    let e = distances_within::<TropicalWeight>(fst, reverse, k + 1)->Ok_0;
    if reverse {
        lemma_gather_at::<TropicalWeight>(fst, d, n);
        assert forall|v: int| 0 <= v < n implies (match #[trigger] e[v] {
            Some(x) => i64::MIN <= x <= i64::MAX,
            None => true,
        }) && at_most::<TropicalWeight>(e[v], final_distances::<TropicalWeight>(fst)[v]) by {
            let first = final_or_zero::<TropicalWeight>(fst.states[v].final_weight);
            lemma_gather_trs_below::<TropicalWeight>(first, d, fst.states[v].trs);
            lemma_gather_trs_fits(first, d, fst.states[v].trs);
            assert(fst.states[v].final_weight == fst.states[v].final_weight);
        }
    } else {
        lemma_spread_below::<TropicalWeight>(fst, d, n);
        lemma_spread_fits(fst, d, n);
    }
    if k == 0 {
        assert forall|v: int| 0 <= v < n implies match #[trigger] d[v] {
            Some(x) => i64::MIN <= x <= i64::MAX,
            None => true,
        } by {
            assert(fst.states[v].final_weight == fst.states[v].final_weight);
        }
    } else {
        let j = (k - 1) as nat;
        lemma_distances_shrink(fst, reverse, j);
        let c = distances_within::<TropicalWeight>(fst, reverse, j)->Ok_0;
        lemma_distances_len::<TropicalWeight>(fst, reverse, j);
        assert(all_at_most::<TropicalWeight>(d, c));
        if reverse {
            lemma_gather_at::<TropicalWeight>(fst, c, n);
            assert forall|v: int| 0 <= v < n implies at_most::<TropicalWeight>(#[trigger] e[v], d[v]) by {
                assert forall|i: int| 0 <= i < fst.states[v].trs.len() implies (
                #[trigger] fst.states[v].trs[i]).nextstate < d.len() by {}
                assert(e[v] == gather::<TropicalWeight>(fst, d, n)->Ok_0[v]);
                assert(d[v] == gather::<TropicalWeight>(fst, c, n)->Ok_0[v]);
                lemma_gather_trs_mono(
                    final_or_zero::<TropicalWeight>(fst.states[v].final_weight),
                    d,
                    c,
                    fst.states[v].trs,
                );
            }
        } else {
            lemma_spread_mono(fst, d, c, n);
        }
    }
}

/// How far a list of distances still can shrink.
spec fn slack(d: Seq<Cost>) -> nat
    decreases d.len(),
{
    if d.len() == 0 {
        0
    } else {
        slack(d.drop_last()) + (match d.last() {
            Some(x) => if x > i64::MIN {
                (x - i64::MIN) as nat
            } else {
                0
            },
            None => 0x1_0000_0000_0000_0000nat,
        })
    }
}

proof fn lemma_slack(a: Seq<Cost>, b: Seq<Cost>)
    requires
        all_at_most::<TropicalWeight>(a, b),
        all_fit(a),
        all_fit(b),
    ensures
        slack(a) <= slack(b),
        a != b ==> slack(a) < slack(b),
    decreases a.len(),
{
    if a.len() > 0 {
        let (x, y) = (a[a.len() - 1], b[b.len() - 1]);
        assert(at_most::<TropicalWeight>(x, y));
        assert forall|v: int| 0 <= v < a.drop_last().len() implies at_most::<TropicalWeight>(
            #[trigger] a.drop_last()[v],
            b.drop_last()[v],
        ) by {
            assert(at_most::<TropicalWeight>(a[v], b[v]));
        }
        assert forall|v: int| 0 <= v < a.drop_last().len() implies match #[trigger] a.drop_last()[v] {
            Some(x) => i64::MIN <= x <= i64::MAX,
            None => true,
        } by {
            assert(a.drop_last()[v] == a[v]);
        }
        assert forall|v: int| 0 <= v < b.drop_last().len() implies match #[trigger] b.drop_last()[v] {
            Some(x) => i64::MIN <= x <= i64::MAX,
            None => true,
        } by {
            assert(b.drop_last()[v] == b[v]);
        }
        lemma_slack(a.drop_last(), b.drop_last());
        if a.drop_last() == b.drop_last() && x == y {
            assert(a =~= b.drop_last().push(y));
            assert(b =~= b.drop_last().push(y));
        }
    } else {
        assert(a =~= b);
    }
}

proof fn lemma_settles(fst: FstM<Cost>, reverse: bool, k: nat)
    requires
        closed_machine(fst),
        finals_fit(fst),
        distances_within::<TropicalWeight>(fst, reverse, k) is Ok,
    ensures
        settles::<TropicalWeight>(fst, reverse),
    decreases slack(distances_within::<TropicalWeight>(fst, reverse, k)->Ok_0),
{
    let next = distances_within::<TropicalWeight>(fst, reverse, k + 1);
    if next is Err {
        assert(settled::<TropicalWeight>(fst, reverse, k + 1));
    } else if settled::<TropicalWeight>(fst, reverse, k) {
    } else {
        lemma_distances_shrink(fst, reverse, k);
        lemma_slack(next->Ok_0, distances_within::<TropicalWeight>(fst, reverse, k)->Ok_0);
        lemma_settles(fst, reverse, k + 1);
    }
}

/// The distances of a tropical machine always settle, or do not fit.
pub proof fn law_tropical_distances_settle(fst: FstM<Cost>, reverse: bool)
    requires
        closed_machine(fst),
        finals_fit(fst),
    ensures
        settles::<TropicalWeight>(fst, reverse),
{
    lemma_settles(fst, reverse, 0);
}

/// Pruning leaves no final weight that was not there before.
pub proof fn law_pruned_finals_fit(fst: FstM<Cost>, threshold: Cost)
    requires
        closed_machine(fst),
        fst.states.len() <= u32::MAX,
        finals_fit(fst),
        prune_model::<TropicalWeight>(fst, threshold).1 is Ok,
    ensures
        finals_fit(prune_model::<TropicalWeight>(fst, threshold).0),
{
    let out = prune_model::<TropicalWeight>(fst, threshold).0;
    if fst.states.len() > 0 && fst.start is Some && best_weight::<TropicalWeight>(fst) is Some {
        let from = distances::<TropicalWeight>(fst, false)->Ok_0;
        let to = distances::<TropicalWeight>(fst, true)->Ok_0;
        let limit = prune_limit::<TropicalWeight>(fst, threshold);
        let n = fst.states.len() as int;
        let g = prune_states::<TropicalWeight>(fst, from, to, limit, n).0;
        lemma_prune_keeps::<TropicalWeight>(fst, from, to, limit, n);
        lemma_pruned_closed::<TropicalWeight>(fst, from, to, limit);
        assert(out == connect_model(g));
        assert forall|i: int| 0 <= i < out.states.len() implies match (
        #[trigger] out.states[i]).final_weight {
            Some(Some(x)) => i64::MIN <= x <= i64::MAX,
            _ => true,
        } by {
            let v = lemma_connect_state_back(g, i);
            assert(kept_at::<TropicalWeight>(
                fst,
                g,
                v,
                distance_at::<TropicalWeight>(from, v as StateId),
                to,
                limit,
            ));
            assert(fst.states[v] == fst.states[v]);
        }
    }
}

} // verus!
