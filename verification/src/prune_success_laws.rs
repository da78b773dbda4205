//! When pruning succeeds, and when the distances of a tropical machine fit.

use crate::determinize::determinize_fsa_op::final_or_zero;
use crate::error::FstError;
use crate::fst::tr::{StateId, TrM};
use crate::fst::vector_fst::FstM;
use crate::lazy::laws::closed_machine;
use crate::prune::{distance_at, prune_final, prune_model, prune_states, put_back, without_trs};
use crate::prune_laws::{all_at_most, lemma_prune_keeps};
use crate::semirings::path_weights::at_most;
use crate::semirings::semiring::Semiring;
use crate::semirings::tropical::TropicalWeight;
use crate::settle_laws::{finals_fit, law_tropical_distances_settle, lemma_distances_shrink, Cost};
use crate::shortest_distance::{
    distances, distances_within, final_distances, gather, gather_trs, lemma_distances_len, settled,
    settles, spread, spread_trs, start_distances,
};
use vstd::prelude::*;

verus! {

/// The weight of the best path through the transition can be computed.
pub open spec fn way_fits<W: Semiring>(from: W::M, tr: TrM<W::M>, to: W::M) -> bool {
    W::times_model(from, tr.weight) matches Ok(w) && W::times_model(w, to) is Ok
}

/// The weights of the best paths through what a state holds can be computed.
pub open spec fn state_fits<W: Semiring>(
    fst: FstM<W::M>,
    from_start: Seq<W::M>,
    to_final: Seq<W::M>,
    v: int,
) -> bool {
    &&& fst.states[v].final_weight matches Some(w) ==> W::times_model(from_start[v], w) is Ok
    &&& forall|i: int|
        0 <= i < fst.states[v].trs.len() ==> way_fits::<W>(
            from_start[v],
            #[trigger] fst.states[v].trs[i],
            to_final[fst.states[v].trs[i].nextstate as int],
        )
}

proof fn lemma_put_back_succeeds<W: Semiring>(
    fst: FstM<W::M>,
    s: StateId,
    from: W::M,
    to_final: Seq<W::M>,
    limit: W::M,
    trs: Seq<TrM<W::M>>,
)
    requires
        forall|i: int| 0 <= i < trs.len() ==> (#[trigger] trs[i]).nextstate < to_final.len(),
    ensures
        put_back::<W>(fst, s, from, to_final, limit, trs).1 is Ok <==> forall|i: int|
            0 <= i < trs.len() ==> way_fits::<W>(
                from,
                #[trigger] trs[i],
                to_final[trs[i].nextstate as int],
            ),
    decreases trs.len(),
{
    if trs.len() > 0 {
        let init = trs.drop_last();
        assert forall|i: int| 0 <= i < init.len() implies (#[trigger] init[i]).nextstate
            < to_final.len() by {
            assert(init[i] == trs[i]);
        }
        lemma_put_back_succeeds::<W>(fst, s, from, to_final, limit, init);
        assert(trs[trs.len() - 1] == trs.last());
        let all = forall|i: int|
            0 <= i < trs.len() ==> way_fits::<W>(
                from,
                #[trigger] trs[i],
                to_final[trs[i].nextstate as int],
            );
        let before = forall|i: int|
            0 <= i < init.len() ==> way_fits::<W>(
                from,
                #[trigger] init[i],
                to_final[init[i].nextstate as int],
            );
        if all {
            assert forall|i: int| 0 <= i < init.len() implies way_fits::<W>(
                from,
                #[trigger] init[i],
                to_final[init[i].nextstate as int],
            ) by {
                assert(init[i] == trs[i]);
            }
        }
        if before && way_fits::<W>(from, trs.last(), to_final[trs.last().nextstate as int]) {
            assert forall|i: int| 0 <= i < trs.len() implies way_fits::<W>(
                from,
                #[trigger] trs[i],
                to_final[trs[i].nextstate as int],
            ) by {
                if i < init.len() {
                    assert(init[i] == trs[i]);
                }
            }
        }
    }
}

proof fn lemma_prune_states_succeed<W: Semiring>(
    fst: FstM<W::M>,
    from_start: Seq<W::M>,
    to_final: Seq<W::M>,
    limit: W::M,
    n: int,
)
    requires
        closed_machine(fst),
        0 <= n <= fst.states.len() <= u32::MAX,
        from_start.len() == fst.states.len(),
        to_final.len() == fst.states.len(),
    ensures
        prune_states::<W>(fst, from_start, to_final, limit, n).1 is Ok <==> forall|v: int|
            0 <= v < n ==> #[trigger] state_fits::<W>(fst, from_start, to_final, v),
    decreases n,
{
    if n > 0 {
        lemma_prune_states_succeed::<W>(fst, from_start, to_final, limit, n - 1);
        let before = prune_states::<W>(fst, from_start, to_final, limit, n - 1);
        if before.1 is Ok {
            lemma_prune_keeps::<W>(fst, from_start, to_final, limit, n - 1);
            let v = n - 1;
            let f = before.0;
            assert(f.states[v] == fst.states[v]);
            let s = v as StateId;
            let from = distance_at::<W>(from_start, s);
            let trs = fst.states[v].trs;
            let pruned = prune_final::<W>(f, s, from, limit).0;
            lemma_put_back_succeeds::<W>(without_trs(pruned, s), s, from, to_final, limit, trs);
            assert(prune_states::<W>(fst, from_start, to_final, limit, n).1 is Ok <==> state_fits::<
                W,
            >(fst, from_start, to_final, v));
        }
    }
}

/// Pruning fails only where a weight cannot be computed. It succeeds on a machine without
/// states or without a start. If the distances can be computed, it succeeds if and only if
/// nothing leads from the start to the end, or the limit can be computed, and the weight
/// of the best path through each final state and each transition. What cannot be reached,
/// or leads nowhere, is no reason to fail.
pub proof fn law_prune_succeeds<W: Semiring>(fst: FstM<W::M>, threshold: W::M)
    requires
        closed_machine(fst),
        fst.states.len() <= u32::MAX,
        settles::<W>(fst, true),
        settles::<W>(fst, false),
    ensures
        fst.states.len() == 0 || fst.start is None ==> prune_model::<W>(fst, threshold).1 is Ok,
        fst.states.len() > 0 && fst.start is Some && distances::<W>(fst, true) is Ok
            && distances::<W>(fst, false) is Ok ==> {
            let to = distances::<W>(fst, true)->Ok_0;
            let from = distances::<W>(fst, false)->Ok_0;
            let best = to[fst.start->0 as int];
            prune_model::<W>(fst, threshold).1 is Ok <==> best == W::zero_model() || (
            W::times_model(best, threshold) is Ok && forall|v: int|
                0 <= v < fst.states.len() ==> #[trigger] state_fits::<W>(fst, from, to, v))
        },
        fst.states.len() > 0 && fst.start is Some ==> match (
            distances::<W>(fst, true),
            distances::<W>(fst, false),
        ) {
            (Err(e), _) => prune_model::<W>(fst, threshold).1 == Err::<(), FstError>(e),
            (Ok(_), Err(e)) => prune_model::<W>(fst, threshold).1 == Err::<(), FstError>(e),
            _ => true,
        },
{
    if fst.states.len() > 0 && fst.start is Some && distances::<W>(fst, true) is Ok
        && distances::<W>(fst, false) is Ok {
        let to = distances::<W>(fst, true)->Ok_0;
        let from = distances::<W>(fst, false)->Ok_0;
        let k = choose|k: nat| #[trigger] settled::<W>(fst, true, k);
        let j = choose|k: nat| #[trigger] settled::<W>(fst, false, k);
        lemma_distances_len::<W>(fst, true, k);
        lemma_distances_len::<W>(fst, false, j);
        let best = to[fst.start->0 as int];
        if let Ok(limit) = W::times_model(best, threshold) {
            lemma_prune_states_succeed::<W>(fst, from, to, limit, fst.states.len() as int);
        }
    }
}

/// The cost is infinite or lies between zero and the bound.
pub open spec fn cost_within(c: Cost, bound: int) -> bool {
    c matches Some(x) ==> 0 <= x <= bound
}

/// Every cost is infinite or lies between zero and the bound.
pub open spec fn costs_within(d: Seq<Cost>, bound: int) -> bool {
    forall|v: int| 0 <= v < d.len() ==> cost_within(#[trigger] d[v], bound)
}

/// Every weight of the machine is infinite or lies between zero and the bound.
pub open spec fn weights_within(fst: FstM<Cost>, bound: int) -> bool {
    &&& forall|v: int|
        0 <= v < fst.states.len() ==> ((#[trigger] fst.states[v]).final_weight matches Some(w)
            ==> cost_within(w, bound))
    &&& forall|v: int, i: int|
        0 <= v < fst.states.len() && 0 <= i < fst.states[v].trs.len() ==> cost_within(
            (#[trigger] fst.states[v].trs[i]).weight,
            bound,
        )
}

/// How many costs are finite.
spec fn finite_costs(d: Seq<Cost>) -> nat
    decreases d.len(),
{
    if d.len() == 0 {
        0
    } else {
        finite_costs(d.drop_last()) + (if d.last() is Some {
            1nat
        } else {
            0nat
        })
    }
}

proof fn lemma_finite_costs(a: Seq<Cost>, b: Seq<Cost>)
    requires
        all_at_most::<TropicalWeight>(a, b),
    ensures
        finite_costs(b) <= finite_costs(a) <= a.len(),
        finite_costs(a) == finite_costs(b) ==> forall|v: int|
            0 <= v < a.len() && (#[trigger] a[v]) is Some ==> b[v] is Some,
        forall|v: int| 0 <= v < a.len() && (#[trigger] a[v]) is Some ==> finite_costs(a) >= 1,
    decreases a.len(),
{
    if a.len() > 0 {
        let (c, d) = (a.drop_last(), b.drop_last());
        assert forall|v: int| 0 <= v < c.len() implies at_most::<TropicalWeight>(
            #[trigger] c[v],
            d[v],
        ) by {
            assert(at_most::<TropicalWeight>(a[v], b[v]));
        }
        lemma_finite_costs(c, d);
        assert(at_most::<TropicalWeight>(a[a.len() - 1], b[a.len() - 1]));
        assert forall|v: int| 0 <= v < a.len() && (#[trigger] a[v]) is Some implies finite_costs(a)
            >= 1 by {
            if v < c.len() {
                assert(c[v] == a[v]);
            }
        }
        if finite_costs(a) == finite_costs(b) {
            assert forall|v: int|
                0 <= v < a.len() && (#[trigger] a[v]) is Some implies b[v] is Some by {
                if v < c.len() {
                    assert(c[v] == a[v]);
                    assert(d[v] == b[v]);
                }
            }
        }
    }
}

proof fn lemma_spread_trs_within(
    sums: Seq<Cost>,
    d: Cost,
    trs: Seq<TrM<Cost>>,
    m: int,
    bound: int,
)
    requires
        0 <= m,
        0 <= bound,
        m + bound <= i64::MAX,
        costs_within(sums, m + bound),
        cost_within(d, m),
        forall|i: int|
            0 <= i < trs.len() ==> (#[trigger] trs[i]).nextstate < sums.len() && cost_within(
                trs[i].weight,
                bound,
            ),
    ensures
        spread_trs::<TropicalWeight>(sums, d, trs) matches Ok(out) && out.len() == sums.len()
            && costs_within(out, m + bound),
    decreases trs.len(),
{
    if trs.len() > 0 {
        let init = trs.drop_last();
        assert forall|i: int| 0 <= i < init.len() implies (#[trigger] init[i]).nextstate
            < sums.len() && cost_within(init[i].weight, bound) by {
            assert(init[i] == trs[i]);
        }
        lemma_spread_trs_within(sums, d, init, m, bound);
        let last = trs[trs.len() - 1];
        assert(last == trs.last());
        let before = spread_trs::<TropicalWeight>(sums, d, init)->Ok_0;
        assert(cost_within(before[last.nextstate as int], m + bound));
    }
}

proof fn lemma_spread_within(fst: FstM<Cost>, dist: Seq<Cost>, n: int, m: int, bound: int)
    requires
        closed_machine(fst),
        weights_within(fst, bound),
        0 <= n <= fst.states.len(),
        dist.len() == fst.states.len(),
        0 <= m,
        0 <= bound,
        m + bound <= i64::MAX,
        costs_within(dist, m),
    ensures
        spread::<TropicalWeight>(fst, dist, n) matches Ok(out) && out.len() == fst.states.len()
            && costs_within(out, m + bound),
    decreases n,
{
    if n > 0 {
        lemma_spread_within(fst, dist, n - 1, m, bound);
        let sums = spread::<TropicalWeight>(fst, dist, n - 1)->Ok_0;
        assert(cost_within(dist[n - 1], m));
        let trs = fst.states[n - 1].trs;
        assert forall|i: int| 0 <= i < trs.len() implies (#[trigger] trs[i]).nextstate < sums.len()
            && cost_within(trs[i].weight, bound) by {
            assert(fst.states[n - 1].trs[i] == trs[i]);
        }
        lemma_spread_trs_within(sums, dist[n - 1], trs, m, bound);
    }
}

proof fn lemma_gather_trs_within(
    sum: Cost,
    dist: Seq<Cost>,
    trs: Seq<TrM<Cost>>,
    m: int,
    bound: int,
)
    requires
        0 <= m,
        0 <= bound,
        m + bound <= i64::MAX,
        cost_within(sum, m + bound),
        costs_within(dist, m),
        forall|i: int|
            0 <= i < trs.len() ==> (#[trigger] trs[i]).nextstate < dist.len() && cost_within(
                trs[i].weight,
                bound,
            ),
    ensures
        gather_trs::<TropicalWeight>(sum, dist, trs) matches Ok(out) && cost_within(out, m + bound),
    decreases trs.len(),
{
    if trs.len() > 0 {
        let init = trs.drop_last();
        assert forall|i: int| 0 <= i < init.len() implies (#[trigger] init[i]).nextstate
            < dist.len() && cost_within(init[i].weight, bound) by {
            assert(init[i] == trs[i]);
        }
        lemma_gather_trs_within(sum, dist, init, m, bound);
        let last = trs[trs.len() - 1];
        assert(last == trs.last());
        assert(cost_within(dist[last.nextstate as int], m));
    }
}

proof fn lemma_gather_within(fst: FstM<Cost>, dist: Seq<Cost>, n: int, m: int, bound: int)
    requires
        closed_machine(fst),
        weights_within(fst, bound),
        0 <= n <= fst.states.len(),
        dist.len() == fst.states.len(),
        0 <= m,
        0 <= bound,
        m + bound <= i64::MAX,
        costs_within(dist, m),
    ensures
        gather::<TropicalWeight>(fst, dist, n) matches Ok(out) && out.len() == n && costs_within(
            out,
            m + bound,
        ),
    decreases n,
{
    if n > 0 {
        lemma_gather_within(fst, dist, n - 1, m, bound);
        let trs = fst.states[n - 1].trs;
        assert forall|i: int| 0 <= i < trs.len() implies (#[trigger] trs[i]).nextstate < dist.len()
            && cost_within(trs[i].weight, bound) by {
            assert(fst.states[n - 1].trs[i] == trs[i]);
        }
        let first = final_or_zero::<TropicalWeight>(fst.states[n - 1].final_weight);
        lemma_gather_trs_within(first, dist, trs, m, bound);
    }
}

proof fn lemma_times_grows(s: int, t: int, bound: int)
    requires
        0 <= s <= t,
        0 <= bound,
    ensures
        0 <= s * bound <= t * bound,
        s * bound + bound == (s + 1) * bound,
{
    assert(0 <= s * bound <= t * bound) by (nonlinear_arith)
        requires
            0 <= s <= t,
            0 <= bound,
    ;
    assert(s * bound + bound == (s + 1) * bound) by (nonlinear_arith);
}

proof fn lemma_weights_fit(fst: FstM<Cost>, bound: int)
    requires
        weights_within(fst, bound),
        bound <= i64::MAX,
    ensures
        finals_fit(fst),
{
    assert forall|v: int| 0 <= v < fst.states.len() implies match (
    #[trigger] fst.states[v]).final_weight {
        Some(Some(x)) => i64::MIN <= x <= i64::MAX,
        _ => true,
    } by {}
}

/// The costs over paths of a given length exist, and the largest is at most as many times
/// the largest weight as there are finite ones.
proof fn lemma_distances_within_bound(fst: FstM<Cost>, reverse: bool, k: nat, bound: int)
    requires
        closed_machine(fst),
        weights_within(fst, bound),
        0 <= bound,
        (fst.states.len() + 1) * bound <= i64::MAX,
    ensures
        distances_within::<TropicalWeight>(fst, reverse, k) matches Ok(d) && d.len()
            == fst.states.len() && costs_within(d, finite_costs(d) * bound),
    decreases k,
{
    let n = fst.states.len() as int;
    lemma_times_grows(1, n + 1, bound);
    lemma_weights_fit(fst, bound);
    if k == 0 {
        let d = distances_within::<TropicalWeight>(fst, reverse, 0)->Ok_0;
        assert(d == if reverse {
            final_distances::<TropicalWeight>(fst)
        } else {
            start_distances::<TropicalWeight>(fst)
        });
        assert forall|v: int| 0 <= v < d.len() implies at_most::<TropicalWeight>(
            #[trigger] d[v],
            d[v],
        ) by {}
        lemma_finite_costs(d, d);
        assert forall|v: int| 0 <= v < d.len() implies cost_within(
            #[trigger] d[v],
            finite_costs(d) * bound,
        ) by {
            if d[v] is Some {
                lemma_times_grows(1, finite_costs(d) as int, bound);
                assert(fst.states[v].final_weight == fst.states[v].final_weight);
            }
        }
    } else {
        let j = (k - 1) as nat;
        lemma_distances_within_bound(fst, reverse, j, bound);
        let c = distances_within::<TropicalWeight>(fst, reverse, j)->Ok_0;
        assert forall|v: int| 0 <= v < c.len() implies at_most::<TropicalWeight>(
            #[trigger] c[v],
            c[v],
        ) by {}
        lemma_finite_costs(c, c);
        let s = finite_costs(c) as int;
        lemma_times_grows(s, n, bound);
        lemma_times_grows(n, n + 1, bound);
        if reverse {
            lemma_gather_within(fst, c, n, s * bound, bound);
        } else {
            lemma_spread_within(fst, c, n, s * bound, bound);
        }
        let d = distances_within::<TropicalWeight>(fst, reverse, k)->Ok_0;
        lemma_distances_shrink(fst, reverse, j);
        lemma_finite_costs(d, c);
        let t = finite_costs(d) as int;
        if t > s {
            lemma_times_grows(s + 1, t, bound);
        }
        assert forall|v: int| 0 <= v < d.len() implies cost_within(#[trigger] d[v], t * bound) by {
            assert(cost_within(d[v], s * bound + bound));
            assert(at_most::<TropicalWeight>(d[v], c[v]));
            if d[v] is Some && t == s {
                assert(c[v] is Some);
                assert(cost_within(c[v], s * bound));
            }
        }
    }
}

/// The distances of a tropical machine whose weights are infinite or lie between zero and
/// a bound can be computed, if so many times the bound as there are states, and one more,
/// lies within the representation. Each is infinite or at most so many times the bound as
/// there are states.
pub proof fn law_tropical_distances_fit(fst: FstM<Cost>, reverse: bool, bound: int)
    requires
        closed_machine(fst),
        weights_within(fst, bound),
        0 <= bound,
        (fst.states.len() + 1) * bound <= i64::MAX,
    ensures
        settles::<TropicalWeight>(fst, reverse),
        distances::<TropicalWeight>(fst, reverse) matches Ok(d) && d.len() == fst.states.len()
            && costs_within(d, fst.states.len() * bound),
{
    let n = fst.states.len() as int;
    lemma_times_grows(1, n + 1, bound);
    lemma_weights_fit(fst, bound);
    law_tropical_distances_settle(fst, reverse);
    let k = choose|k: nat| #[trigger] settled::<TropicalWeight>(fst, reverse, k);
    lemma_distances_within_bound(fst, reverse, k, bound);
    let d = distances::<TropicalWeight>(fst, reverse)->Ok_0;
    assert forall|v: int| 0 <= v < d.len() implies at_most::<TropicalWeight>(
        #[trigger] d[v],
        d[v],
    ) by {}
    lemma_finite_costs(d, d);
    lemma_times_grows(finite_costs(d) as int, n, bound);
    assert forall|v: int| 0 <= v < d.len() implies cost_within(#[trigger] d[v], n * bound) by {
        assert(cost_within(d[v], finite_costs(d) * bound));
    }
}

/// Pruning a tropical machine never fails if its sums lie within the representation: its
/// weights are infinite or lie between zero and a bound, and twice so many times the bound
/// as there are states, and one more, lies within it, and so does the threshold on top of
/// so many times the bound as there are states.
pub proof fn law_tropical_prune_succeeds(fst: FstM<Cost>, threshold: Cost, bound: int)
    requires
        closed_machine(fst),
        fst.states.len() <= u32::MAX,
        weights_within(fst, bound),
        0 <= bound,
        (2 * fst.states.len() + 1) * bound <= i64::MAX,
        threshold matches Some(t) ==> i64::MIN <= t && fst.states.len() * bound + t <= i64::MAX,
    ensures
        prune_model::<TropicalWeight>(fst, threshold).1 is Ok,
{
    let n = fst.states.len() as int;
    lemma_times_grows(n + 1, 2 * n + 1, bound);
    lemma_times_grows(n, n, bound);
    law_tropical_distances_fit(fst, true, bound);
    law_tropical_distances_fit(fst, false, bound);
    law_prune_succeeds::<TropicalWeight>(fst, threshold);
    if n > 0 && fst.start is Some {
        let to = distances::<TropicalWeight>(fst, true)->Ok_0;
        let from = distances::<TropicalWeight>(fst, false)->Ok_0;
        let m = n * bound;
        assert(m + bound + m <= i64::MAX) by (nonlinear_arith)
            requires
                m == n * bound,
                (2 * n + 1) * bound <= i64::MAX,
        ;
        assert(cost_within(to[fst.start->0 as int], m));
        assert forall|v: int| 0 <= v < n implies #[trigger] state_fits::<TropicalWeight>(
            fst,
            from,
            to,
            v,
        ) by {
            assert(cost_within(from[v], m));
            assert(fst.states[v].final_weight == fst.states[v].final_weight);
            assert forall|i: int| 0 <= i < fst.states[v].trs.len() implies way_fits::<
                TropicalWeight,
            >(
                from[v],
                #[trigger] fst.states[v].trs[i],
                to[fst.states[v].trs[i].nextstate as int],
            ) by {
                assert(cost_within(to[fst.states[v].trs[i].nextstate as int], m));
            }
        }
    }
}

} // verus!
