//! What pruning keeps and what it removes, for weights with the path property.

use crate::connect::{accessible_within, connect_model};
use crate::determinize::determinize_fsa_op::final_or_zero;
use crate::error::FstError;
use crate::fst::tr::{StateId, TrM};
use crate::fst::vector_fst::FstM;
use crate::lazy::laws::closed_machine;
use crate::paths::{
    accepting_path, alike, is_path, law_connect_keeps_paths, law_connect_leaves_useful,
    lemma_accessible_path, lemma_connect_state_back, lemma_connect_tr_back, lemma_path_concat,
    lemma_path_end, lemma_path_one, lemma_renumbered_end, lemma_renumbered_passes, passes,
    path_end, renumbered_path,
};
use crate::prune::{
    distance_at, natural_less_model, prune_final, prune_model, prune_state, prune_states, put_back,
    through, without_trs,
};
use crate::semirings::laws::SemiringLaws;
use crate::semirings::path_weights::{
    at_most, lemma_at_most_chain, lemma_at_most_nothing, lemma_at_most_product,
    lemma_at_most_self, lemma_at_most_sum, lemma_natural_order, PathWeights,
};
use crate::semirings::semiring::Semiring;
use crate::shortest_distance::{
    distances, distances_within, gather, gather_trs, lemma_distances_len, settled, settles, spread,
    spread_trs, start_distances,
};
use vstd::prelude::*;

verus! {

/// The weight of a path.
pub open spec fn path_cost<W: SemiringLaws>(path: Seq<TrM<W::M>>) -> W::V
    decreases path.len(),
{
    if path.len() == 0 {
        W::value(W::one_model())
    } else {
        W::product(W::value(path[0].weight), path_cost::<W>(path.drop_first()))
    }
}

/// The weight of a path to a final state with the given weight.
pub open spec fn total_cost<W: SemiringLaws>(path: Seq<TrM<W::M>>, w: W::M) -> W::V {
    W::product(path_cost::<W>(path), W::value(w))
}

/// Every distance of the first is at least as good as that of the second.
pub open spec fn all_at_most<W: SemiringLaws>(a: Seq<W::M>, b: Seq<W::M>) -> bool {
    &&& a.len() == b.len()
    &&& forall|v: int| 0 <= v < a.len() ==> at_most::<W>(W::value(#[trigger] a[v]), W::value(b[v]))
}

/// A sum only gets better, and is at least as good as every way that was added.
pub proof fn lemma_spread_trs_below<W: PathWeights>(
    sums: Seq<W::M>,
    d: W::M,
    trs: Seq<TrM<W::M>>,
)
    requires
        forall|i: int| 0 <= i < trs.len() ==> (#[trigger] trs[i]).nextstate < sums.len(),
        spread_trs::<W>(sums, d, trs) is Ok,
    ensures
        all_at_most::<W>(spread_trs::<W>(sums, d, trs)->Ok_0, sums),
        forall|i: int|
            0 <= i < trs.len() ==> at_most::<W>(
                W::value(spread_trs::<W>(sums, d, trs)->Ok_0[trs[i].nextstate as int]),
                W::product(W::value(d), W::value((#[trigger] trs[i]).weight)),
            ),
    decreases trs.len(),
{
    let after = spread_trs::<W>(sums, d, trs)->Ok_0;
    if trs.len() > 0 {
        let shorter = trs.drop_last();
        let last = trs.last();
        assert(trs[trs.len() - 1] == last);
        assert forall|i: int| 0 <= i < shorter.len() implies (#[trigger] shorter[i]).nextstate
            < sums.len() by {
            assert(shorter[i] == trs[i]);
        }
        lemma_spread_trs_below::<W>(sums, d, shorter);
        let before = spread_trs::<W>(sums, d, shorter)->Ok_0;
        let at = last.nextstate as int;
        let way = W::times_model(d, last.weight)->Ok_0;
        W::law_times(d, last.weight);
        W::law_plus(before[at], way);
        lemma_at_most_sum::<W>(W::value(before[at]), W::value(way));
        assert forall|v: int| 0 <= v < after.len() implies at_most::<W>(
            W::value(#[trigger] after[v]),
            W::value(before[v]),
        ) by {
            lemma_at_most_self::<W>(W::value(before[v]));
        }
        assert forall|v: int| 0 <= v < after.len() implies at_most::<W>(
            W::value(#[trigger] after[v]),
            W::value(sums[v]),
        ) by {
            assert(at_most::<W>(W::value(before[v]), W::value(sums[v])));
            lemma_at_most_chain::<W>(
                W::value(after[v]),
                W::value(before[v]),
                W::value(sums[v]),
            );
        }
        assert forall|i: int| 0 <= i < trs.len() implies at_most::<W>(
            W::value(after[trs[i].nextstate as int]),
            W::product(W::value(d), W::value((#[trigger] trs[i]).weight)),
        ) by {
            if i < trs.len() - 1 {
                assert(shorter[i] == trs[i]);
                let v = trs[i].nextstate as int;
                assert(at_most::<W>(W::value(after[v]), W::value(before[v])));
                lemma_at_most_chain::<W>(
                    W::value(after[v]),
                    W::value(before[v]),
                    W::product(W::value(d), W::value(trs[i].weight)),
                );
            }
        }
    } else {
        assert forall|v: int| 0 <= v < after.len() implies at_most::<W>(
            W::value(#[trigger] after[v]),
            W::value(sums[v]),
        ) by {
            lemma_at_most_self::<W>(W::value(sums[v]));
        }
    }
}

/// What comes out of a round is at least as good as where it begins and as every way
/// over one transition.
pub proof fn lemma_spread_below<W: PathWeights>(fst: FstM<W::M>, dist: Seq<W::M>, n: int)
    requires
        closed_machine(fst),
        0 <= n <= fst.states.len(),
        dist.len() == fst.states.len(),
        spread::<W>(fst, dist, n) is Ok,
    ensures
        all_at_most::<W>(spread::<W>(fst, dist, n)->Ok_0, start_distances::<W>(fst)),
        forall|u: int, i: int|
            0 <= u < n && 0 <= i < fst.states[u].trs.len() ==> at_most::<W>(
                W::value(spread::<W>(fst, dist, n)->Ok_0[fst.states[u].trs[i].nextstate as int]),
                W::product(
                    W::value(dist[u]),
                    W::value((#[trigger] fst.states[u].trs[i]).weight),
                ),
            ),
    decreases n,
{
    let after = spread::<W>(fst, dist, n)->Ok_0;
    let begin = start_distances::<W>(fst);
    if n > 0 {
        lemma_spread_below::<W>(fst, dist, n - 1);
        let before = spread::<W>(fst, dist, n - 1)->Ok_0;
        lemma_spread_trs_below::<W>(before, dist[n - 1], fst.states[n - 1].trs);
        assert forall|v: int| 0 <= v < after.len() implies at_most::<W>(
            W::value(#[trigger] after[v]),
            W::value(begin[v]),
        ) by {
            assert(at_most::<W>(W::value(before[v]), W::value(begin[v])));
            lemma_at_most_chain::<W>(
                W::value(after[v]),
                W::value(before[v]),
                W::value(begin[v]),
            );
        }
        assert forall|u: int, i: int|
            0 <= u < n && 0 <= i < fst.states[u].trs.len() implies at_most::<W>(
            W::value(after[fst.states[u].trs[i].nextstate as int]),
            W::product(W::value(dist[u]), W::value((#[trigger] fst.states[u].trs[i]).weight)),
        ) by {
            let v = fst.states[u].trs[i].nextstate as int;
            if u < n - 1 {
                assert(at_most::<W>(W::value(after[v]), W::value(before[v])));
                lemma_at_most_chain::<W>(
                    W::value(after[v]),
                    W::value(before[v]),
                    W::product(W::value(dist[u]), W::value(fst.states[u].trs[i].weight)),
                );
            }
        }
    } else {
        assert forall|v: int| 0 <= v < after.len() implies at_most::<W>(
            W::value(#[trigger] after[v]),
            W::value(begin[v]),
        ) by {
            lemma_at_most_self::<W>(W::value(begin[v]));
        }
    }
}

pub proof fn lemma_gather_trs_below<W: PathWeights>(
    sum: W::M,
    dist: Seq<W::M>,
    trs: Seq<TrM<W::M>>,
)
    requires
        gather_trs::<W>(sum, dist, trs) is Ok,
    ensures
        at_most::<W>(W::value(gather_trs::<W>(sum, dist, trs)->Ok_0), W::value(sum)),
        forall|i: int|
            0 <= i < trs.len() ==> at_most::<W>(
                W::value(gather_trs::<W>(sum, dist, trs)->Ok_0),
                W::product(
                    W::value((#[trigger] trs[i]).weight),
                    W::value(dist[trs[i].nextstate as int]),
                ),
            ),
    decreases trs.len(),
{
    if trs.len() > 0 {
        let shorter = trs.drop_last();
        let last = trs.last();
        lemma_gather_trs_below::<W>(sum, dist, shorter);
        let before = gather_trs::<W>(sum, dist, shorter)->Ok_0;
        let after = gather_trs::<W>(sum, dist, trs)->Ok_0;
        let way = W::times_model(last.weight, dist[last.nextstate as int])->Ok_0;
        W::law_times(last.weight, dist[last.nextstate as int]);
        W::law_plus(before, way);
        lemma_at_most_sum::<W>(W::value(before), W::value(way));
        lemma_at_most_chain::<W>(W::value(after), W::value(before), W::value(sum));
        assert forall|i: int| 0 <= i < trs.len() implies at_most::<W>(
            W::value(after),
            W::product(
                W::value((#[trigger] trs[i]).weight),
                W::value(dist[trs[i].nextstate as int]),
            ),
        ) by {
            if i < trs.len() - 1 {
                assert(shorter[i] == trs[i]);
                lemma_at_most_chain::<W>(
                    W::value(after),
                    W::value(before),
                    W::product(
                        W::value(trs[i].weight),
                        W::value(dist[trs[i].nextstate as int]),
                    ),
                );
            }
        }
    } else {
        lemma_at_most_self::<W>(W::value(sum));
    }
}

/// What a round gives for each state.
pub proof fn lemma_gather_at<W: Semiring>(fst: FstM<W::M>, dist: Seq<W::M>, n: int)
    requires
        0 <= n <= fst.states.len(),
        gather::<W>(fst, dist, n) is Ok,
    ensures
        gather::<W>(fst, dist, n)->Ok_0.len() == n,
        forall|v: int|
            0 <= v < n ==> gather_trs::<W>(
                final_or_zero::<W>(fst.states[v].final_weight),
                dist,
                fst.states[v].trs,
            ) == Ok::<W::M, FstError>(#[trigger] gather::<W>(fst, dist, n)->Ok_0[v]),
    decreases n,
{
    if n > 0 {
        lemma_gather_at::<W>(fst, dist, n - 1);
        let before = gather::<W>(fst, dist, n - 1)->Ok_0;
        let after = gather::<W>(fst, dist, n)->Ok_0;
        assert forall|v: int| 0 <= v < n implies gather_trs::<W>(
            final_or_zero::<W>(fst.states[v].final_weight),
            dist,
            fst.states[v].trs,
        ) == Ok::<W::M, FstError>(#[trigger] after[v]) by {
            if v < n - 1 {
                assert(after[v] == before[v]);
            }
        }
    }
}

/// The final weight and the transitions of `v` are kept as far as they are within
/// the limit.
pub open spec fn kept_at<W: Semiring>(
    fst: FstM<W::M>,
    g: FstM<W::M>,
    v: int,
    from: W::M,
    to_final: Seq<W::M>,
    limit: W::M,
) -> bool {
    &&& match fst.states[v].final_weight {
        None => g.states[v].final_weight is None,
        Some(w) => {
            &&& W::times_model(from, w) is Ok
            &&& g.states[v].final_weight == if natural_less_model::<W>(
                limit,
                W::times_model(from, w)->Ok_0,
            ) {
                None
            } else {
                Some(w)
            }
        },
    }
    &&& forall|tr: TrM<W::M>| #[trigger]
        fst.states[v].trs.contains(tr) ==> through::<W>(from, tr, to_final) is Ok && (
        !natural_less_model::<W>(limit, through::<W>(from, tr, to_final)->Ok_0)
            ==> g.states[v].trs.contains(tr))
    &&& forall|tr: TrM<W::M>| #[trigger]
        g.states[v].trs.contains(tr) ==> fst.states[v].trs.contains(tr)
            && !natural_less_model::<W>(limit, through::<W>(from, tr, to_final)->Ok_0)
}

proof fn lemma_push_contains<A>(s: Seq<A>, last: A, a: A)
    ensures
        s.push(last).contains(a) <==> s.contains(a) || a == last,
{
    if s.contains(a) {
        let i = choose|i: int| 0 <= i < s.len() && s[i] == a;
        assert(s.push(last)[i] == a);
    }
    if a == last {
        assert(s.push(last)[s.len() as int] == a);
    }
    if s.push(last).contains(a) {
        let i = choose|i: int| 0 <= i < s.push(last).len() && s.push(last)[i] == a;
        if i < s.len() {
            assert(s[i] == a);
        }
    }
}

proof fn lemma_put_back_keeps<W: Semiring>(
    base: FstM<W::M>,
    s: StateId,
    from: W::M,
    to_final: Seq<W::M>,
    limit: W::M,
    trs: Seq<TrM<W::M>>,
)
    requires
        s < base.states.len(),
        base.states[s as int].trs.len() == 0,
        put_back::<W>(base, s, from, to_final, limit, trs).1 is Ok,
    ensures
        ({
            let f = put_back::<W>(base, s, from, to_final, limit, trs).0;
            &&& f.states.len() == base.states.len()
            &&& f.start == base.start
            &&& f.states[s as int].final_weight == base.states[s as int].final_weight
            &&& forall|v: int|
                0 <= v < base.states.len() && v != s ==> #[trigger] f.states[v] == base.states[v]
            &&& forall|tr: TrM<W::M>| #[trigger]
                trs.contains(tr) ==> through::<W>(from, tr, to_final) is Ok && (
                !natural_less_model::<W>(limit, through::<W>(from, tr, to_final)->Ok_0)
                    ==> f.states[s as int].trs.contains(tr))
            &&& forall|tr: TrM<W::M>| #[trigger]
                f.states[s as int].trs.contains(tr) ==> trs.contains(tr)
                    && !natural_less_model::<W>(limit, through::<W>(from, tr, to_final)->Ok_0)
        }),
    decreases trs.len(),
{
    if trs.len() > 0 {
        let last = trs.last();
        lemma_put_back_keeps::<W>(base, s, from, to_final, limit, trs.drop_last());
        let before = put_back::<W>(base, s, from, to_final, limit, trs.drop_last()).0;
        let f = put_back::<W>(base, s, from, to_final, limit, trs).0;
        assert(trs =~= trs.drop_last().push(last));
        assert forall|tr: TrM<W::M>| #[trigger] trs.contains(tr) implies through::<W>(
            from,
            tr,
            to_final,
        ) is Ok && (!natural_less_model::<W>(limit, through::<W>(from, tr, to_final)->Ok_0)
            ==> f.states[s as int].trs.contains(tr)) by {
            lemma_push_contains(trs.drop_last(), last, tr);
            lemma_push_contains(before.states[s as int].trs, last, tr);
        }
        assert forall|tr: TrM<W::M>| #[trigger]
            f.states[s as int].trs.contains(tr) implies trs.contains(tr)
            && !natural_less_model::<W>(limit, through::<W>(from, tr, to_final)->Ok_0) by {
            lemma_push_contains(trs.drop_last(), last, tr);
            lemma_push_contains(before.states[s as int].trs, last, tr);
        }
    }
}

proof fn lemma_prune_state_keeps<W: Semiring>(
    fst: FstM<W::M>,
    s: StateId,
    from: W::M,
    to_final: Seq<W::M>,
    limit: W::M,
)
    requires
        s < fst.states.len(),
        prune_state::<W>(fst, s, from, to_final, limit).1 is Ok,
    ensures
        ({
            let f = prune_state::<W>(fst, s, from, to_final, limit).0;
            &&& f.states.len() == fst.states.len()
            &&& f.start == fst.start
            &&& kept_at::<W>(fst, f, s as int, from, to_final, limit)
            &&& forall|v: int|
                0 <= v < fst.states.len() && v != s ==> #[trigger] f.states[v] == fst.states[v]
        }),
{
    let f = prune_final::<W>(fst, s, from, limit).0;
    lemma_put_back_keeps::<W>(
        without_trs(f, s),
        s,
        from,
        to_final,
        limit,
        fst.states[s as int].trs,
    );
}

pub proof fn lemma_prune_keeps<W: Semiring>(
    fst: FstM<W::M>,
    from_start: Seq<W::M>,
    to_final: Seq<W::M>,
    limit: W::M,
    n: int,
)
    requires
        0 <= n <= fst.states.len() <= u32::MAX,
        prune_states::<W>(fst, from_start, to_final, limit, n).1 is Ok,
    ensures
        ({
            let g = prune_states::<W>(fst, from_start, to_final, limit, n).0;
            &&& g.states.len() == fst.states.len()
            &&& g.start == fst.start
            &&& forall|v: int|
                n <= v < fst.states.len() ==> #[trigger] g.states[v] == fst.states[v]
            &&& forall|v: int|
                0 <= v < n ==> #[trigger] kept_at::<W>(
                    fst,
                    g,
                    v,
                    distance_at::<W>(from_start, v as StateId),
                    to_final,
                    limit,
                )
        }),
    decreases n,
{
    if n > 0 {
        lemma_prune_keeps::<W>(fst, from_start, to_final, limit, n - 1);
        let f = prune_states::<W>(fst, from_start, to_final, limit, n - 1).0;
        let g = prune_states::<W>(fst, from_start, to_final, limit, n).0;
        let s = (n - 1) as StateId;
        lemma_prune_state_keeps::<W>(
            f,
            s,
            distance_at::<W>(from_start, s),
            to_final,
            limit,
        );
        assert forall|v: int| 0 <= v < n implies #[trigger] kept_at::<W>(
            fst,
            g,
            v,
            distance_at::<W>(from_start, v as StateId),
            to_final,
            limit,
        ) by {
            if v < n - 1 {
                assert(kept_at::<W>(
                    fst,
                    f,
                    v,
                    distance_at::<W>(from_start, v as StateId),
                    to_final,
                    limit,
                ));
                assert(g.states[v] == f.states[v]);
            } else {
                assert(f.states[v] == fst.states[v]);
            }
        }
    }
}

/// The distances to the final states are at least as good as every path to one.
pub proof fn lemma_to_final_below<W: PathWeights>(
    fst: FstM<W::M>,
    dist: Seq<W::M>,
    s: int,
    path: Seq<TrM<W::M>>,
    w: W::M,
)
    requires
        closed_machine(fst),
        gather::<W>(fst, dist, fst.states.len() as int) == Ok::<Seq<W::M>, FstError>(dist),
        is_path(fst, s, path),
        fst.states[path_end(s, path)].final_weight == Some(w),
    ensures
        at_most::<W>(W::value(dist[s]), total_cost::<W>(path, w)),
    decreases path.len(),
{
    let n = fst.states.len() as int;
    lemma_gather_at::<W>(fst, dist, n);
    let first = final_or_zero::<W>(fst.states[s].final_weight);
    assert(dist[s] == gather::<W>(fst, dist, n)->Ok_0[s]);
    lemma_gather_trs_below::<W>(first, dist, fst.states[s].trs);
    if path.len() > 0 {
        let tr = path[0];
        let rest = path.drop_first();
        let next = tr.nextstate as int;
        lemma_path_end(fst, s, path);
        lemma_to_final_below::<W>(fst, dist, next, rest, w);
        let i = choose|i: int| 0 <= i < fst.states[s].trs.len() && fst.states[s].trs[i] == tr;
        assert(at_most::<W>(
            W::value(dist[s]),
            W::product(W::value(fst.states[s].trs[i].weight), W::value(dist[next])),
        ));
        let (d, t) = (W::value(dist[next]), total_cost::<W>(rest, w));
        lemma_at_most_product::<W>(d, t, W::value(tr.weight));
        lemma_at_most_chain::<W>(
            W::value(dist[s]),
            W::product(W::value(tr.weight), d),
            W::product(W::value(tr.weight), t),
        );
        W::law_product_associative(W::value(tr.weight), path_cost::<W>(rest), W::value(w));
    } else {
        W::law_product_one(W::value(w));
    }
}

/// What settled distances are like.
pub open spec fn stable<W: Semiring>(
    fst: FstM<W::M>,
    from_start: Seq<W::M>,
    to_final: Seq<W::M>,
) -> bool {
    &&& spread::<W>(fst, from_start, fst.states.len() as int) == Ok::<Seq<W::M>, FstError>(
        from_start,
    )
    &&& gather::<W>(fst, to_final, fst.states.len() as int) == Ok::<Seq<W::M>, FstError>(to_final)
    &&& from_start.len() == fst.states.len()
    &&& to_final.len() == fst.states.len()
}

/// A path whose weight is not beyond the limit is kept.
pub proof fn lemma_path_kept<W: PathWeights>(
    fst: FstM<W::M>,
    from_start: Seq<W::M>,
    to_final: Seq<W::M>,
    limit: W::M,
    s: int,
    spent: W::V,
    path: Seq<TrM<W::M>>,
    w: W::M,
)
    requires
        closed_machine(fst),
        fst.states.len() <= u32::MAX,
        stable::<W>(fst, from_start, to_final),
        prune_states::<W>(
            fst,
            from_start,
            to_final,
            limit,
            fst.states.len() as int,
        ).1 is Ok,
        is_path(fst, s, path),
        fst.states[path_end(s, path)].final_weight == Some(w),
        at_most::<W>(W::value(from_start[s]), spent),
        at_most::<W>(W::product(spent, total_cost::<W>(path, w)), W::value(limit)),
    ensures
        ({
            let g = prune_states::<W>(
                fst,
                from_start,
                to_final,
                limit,
                fst.states.len() as int,
            ).0;
            &&& is_path(g, s, path)
            &&& g.states[path_end(s, path)].final_weight == Some(w)
        }),
    decreases path.len(),
{
    let n = fst.states.len() as int;
    let g = prune_states::<W>(fst, from_start, to_final, limit, n).0;
    lemma_prune_keeps::<W>(fst, from_start, to_final, limit, n);
    let from = from_start[s];
    let f = W::value(from);
    assert(kept_at::<W>(
        fst,
        g,
        s,
        distance_at::<W>(from_start, s as StateId),
        to_final,
        limit,
    ));
    assert(distance_at::<W>(from_start, s as StateId) == from);
    if path.len() > 0 {
        let tr = path[0];
        let rest = path.drop_first();
        let next = tr.nextstate as int;
        lemma_path_end(fst, s, path);
        assert(is_path(fst, next, rest));
        lemma_to_final_below::<W>(fst, to_final, next, rest, w);
        lemma_spread_below::<W>(fst, from_start, n);
        let i = choose|i: int| 0 <= i < fst.states[s].trs.len() && fst.states[s].trs[i] == tr;
        let (t, d) = (W::value(tr.weight), W::value(to_final[next]));
        let on = total_cost::<W>(rest, w);
        let gone = W::product(spent, t);
        assert(at_most::<W>(
            W::value(from_start[next]),
            W::product(f, W::value(fst.states[s].trs[i].weight)),
        ));
        lemma_at_most_product::<W>(f, spent, t);
        lemma_at_most_chain::<W>(W::value(from_start[next]), W::product(f, t), gone);
        // What follows weighs as much from here.
        W::law_product_associative(t, path_cost::<W>(rest), W::value(w));
        W::law_product_associative(spent, t, on);
        assert(at_most::<W>(W::product(gone, on), W::value(limit)));
        assert(fst.states[s].trs.contains(tr));
        let first = W::times_model(from, tr.weight)->Ok_0;
        W::law_times(from, tr.weight);
        W::law_times(first, to_final[next]);
        let whole = through::<W>(from, tr, to_final)->Ok_0;
        assert(W::value(whole) == W::product(W::product(f, t), d));
        lemma_at_most_product::<W>(W::product(f, t), gone, d);
        lemma_at_most_product::<W>(d, on, gone);
        lemma_at_most_chain::<W>(W::value(whole), W::product(gone, d), W::product(gone, on));
        lemma_at_most_chain::<W>(W::value(whole), W::product(gone, on), W::value(limit));
        lemma_natural_order::<W>(limit, whole);
        assert(g.states[s].trs.contains(tr));
        lemma_path_kept::<W>(fst, from_start, to_final, limit, next, gone, rest, w);
    } else {
        let whole = W::times_model(from, w)->Ok_0;
        W::law_times(from, w);
        W::law_product_one(W::value(w));
        lemma_at_most_product::<W>(f, spent, W::value(w));
        lemma_at_most_chain::<W>(
            W::value(whole),
            W::product(spent, W::value(w)),
            W::value(limit),
        );
        lemma_natural_order::<W>(limit, whole);
    }
}

pub proof fn lemma_stable<W: Semiring>(fst: FstM<W::M>)
    requires
        closed_machine(fst),
        settles::<W>(fst, true),
        settles::<W>(fst, false),
        distances::<W>(fst, true) is Ok,
        distances::<W>(fst, false) is Ok,
    ensures
        stable::<W>(fst, distances::<W>(fst, false)->Ok_0, distances::<W>(fst, true)->Ok_0),
{
    let j = choose|k: nat| #[trigger] settled::<W>(fst, true, k);
    let k = choose|k: nat| #[trigger] settled::<W>(fst, false, k);
    lemma_distances_len::<W>(fst, true, j);
    lemma_distances_len::<W>(fst, false, k);
}

/// The best weight of a path from the start to a final state.
pub open spec fn best_weight<W: Semiring>(fst: FstM<W::M>) -> W::M {
    distance_at::<W>(distances::<W>(fst, true)->Ok_0, fst.start->0)
}

/// The limit that pruning uses: the best weight and the threshold together.
pub open spec fn prune_limit<W: Semiring>(fst: FstM<W::M>, threshold: W::M) -> W::M {
    W::times_model(best_weight::<W>(fst), threshold)->Ok_0
}

/// Pruning has work to do and succeeds: the distances settle, and some path leads from
/// the start to a final state.
pub open spec fn prunes<W: Semiring>(fst: FstM<W::M>, threshold: W::M) -> bool {
    &&& closed_machine(fst)
    &&& fst.states.len() <= u32::MAX
    &&& settles::<W>(fst, true)
    &&& settles::<W>(fst, false)
    &&& fst.start is Some
    &&& prune_model::<W>(fst, threshold).1 is Ok
    &&& best_weight::<W>(fst) != W::zero_model()
}

/// No path is better than the best weight that the limit is measured from.
pub proof fn law_prune_measures_from_best<W: PathWeights>(
    fst: FstM<W::M>,
    threshold: W::M,
    path: Seq<TrM<W::M>>,
    w: W::M,
)
    requires
        prunes::<W>(fst, threshold),
        accepting_path(fst, path, w),
    ensures
        at_most::<W>(W::value(best_weight::<W>(fst)), total_cost::<W>(path, w)),
{
    lemma_stable::<W>(fst);
    lemma_to_final_below::<W>(
        fst,
        distances::<W>(fst, true)->Ok_0,
        fst.start->0 as int,
        path,
        w,
    );
}

/// The start is no further than nothing.
pub proof fn lemma_start_is_near<W: PathWeights>(fst: FstM<W::M>, from: Seq<W::M>, to: Seq<W::M>)
    requires
        closed_machine(fst),
        fst.states.len() <= u32::MAX,
        fst.start is Some,
        stable::<W>(fst, from, to),
    ensures
        at_most::<W>(W::value(from[fst.start->0 as int]), W::value(W::one_model())),
{
    lemma_spread_below::<W>(fst, from, fst.states.len() as int);
    let s = fst.start->0 as int;
    assert(at_most::<W>(W::value(from[s]), W::value(start_distances::<W>(fst)[s])));
}

/// A path from the start to a final state whose weight is not beyond the limit survives
/// pruning.
pub proof fn law_prune_keeps_good_paths<W: PathWeights>(
    fst: FstM<W::M>,
    threshold: W::M,
    path: Seq<TrM<W::M>>,
    w: W::M,
)
    requires
        prunes::<W>(fst, threshold),
        accepting_path(fst, path, w),
        at_most::<W>(total_cost::<W>(path, w), W::value(prune_limit::<W>(fst, threshold))),
    ensures
        exists|p: Seq<TrM<W::M>>|
            #[trigger] accepting_path(prune_model::<W>(fst, threshold).0, p, w) && alike(path, p),
{
    lemma_stable::<W>(fst);
    let to_final = distances::<W>(fst, true)->Ok_0;
    let from_start = distances::<W>(fst, false)->Ok_0;
    let limit = prune_limit::<W>(fst, threshold);
    let n = fst.states.len() as int;
    let s = fst.start->0 as int;
    lemma_start_is_near::<W>(fst, from_start, to_final);
    W::law_product_one(total_cost::<W>(path, w));
    lemma_path_kept::<W>(
        fst,
        from_start,
        to_final,
        limit,
        s,
        W::value(W::one_model()),
        path,
        w,
    );
    let g = prune_states::<W>(fst, from_start, to_final, limit, n).0;
    lemma_prune_keeps::<W>(fst, from_start, to_final, limit, n);
    assert(accepting_path(g, path, w));
    law_connect_keeps_paths(g, path, w);
    assert(accepting_path(prune_model::<W>(fst, threshold).0, renumbered_path(g, path), w));
}

/// The weight of two paths, one after the other.
pub proof fn lemma_cost_concat<W: SemiringLaws>(p: Seq<TrM<W::M>>, q: Seq<TrM<W::M>>)
    ensures
        path_cost::<W>(p + q) == W::product(path_cost::<W>(p), path_cost::<W>(q)),
    decreases p.len(),
{
    if p.len() == 0 {
        assert(p + q =~= q);
        W::law_product_one(path_cost::<W>(q));
    } else {
        let rest = p.drop_first();
        lemma_cost_concat::<W>(rest, q);
        assert((p + q).drop_first() =~= rest + q);
        W::law_product_associative(
            W::value(p[0].weight),
            path_cost::<W>(rest),
            path_cost::<W>(q),
        );
    }
}

pub proof fn lemma_cost_one<W: SemiringLaws>(tr: TrM<W::M>)
    ensures
        path_cost::<W>(seq![tr]) == W::value(tr.weight),
{
    assert(seq![tr].drop_first() =~= Seq::<TrM<W::M>>::empty());
    assert(path_cost::<W>(seq![tr].drop_first()) == W::value(W::one_model()));
    W::law_product_one(W::value(tr.weight));
}

/// A sum over ways on is where it began or one of the ways.
proof fn lemma_gather_trs_attained<W: PathWeights>(
    sum: W::M,
    dist: Seq<W::M>,
    trs: Seq<TrM<W::M>>,
)
    requires
        gather_trs::<W>(sum, dist, trs) is Ok,
    ensures
        gather_trs::<W>(sum, dist, trs)->Ok_0 == sum || exists|i: int|
            0 <= i < trs.len() && W::times_model(
                (#[trigger] trs[i]).weight,
                dist[trs[i].nextstate as int],
            ) == Ok::<W::M, FstError>(gather_trs::<W>(sum, dist, trs)->Ok_0),
    decreases trs.len(),
{
    if trs.len() > 0 {
        let shorter = trs.drop_last();
        let last = trs.last();
        lemma_gather_trs_attained::<W>(sum, dist, shorter);
        let before = gather_trs::<W>(sum, dist, shorter)->Ok_0;
        let after = gather_trs::<W>(sum, dist, trs)->Ok_0;
        let way = W::times_model(last.weight, dist[last.nextstate as int])->Ok_0;
        W::law_selects(before, way);
        if after == before {
            if before != sum {
                let i = choose|i: int|
                    0 <= i < shorter.len() && W::times_model(
                        (#[trigger] shorter[i]).weight,
                        dist[shorter[i].nextstate as int],
                    ) == Ok::<W::M, FstError>(before);
                assert(trs[i] == shorter[i]);
            }
        } else {
            assert(trs[trs.len() - 1] == last);
        }
    }
}

/// A product that is a way is made of ways.
proof fn lemma_factors<W: PathWeights>(a: W::M, b: W::M, c: W::M)
    requires
        W::times_model(a, b) == Ok::<W::M, FstError>(c),
        c != W::zero_model(),
    ensures
        a != W::zero_model(),
        b != W::zero_model(),
{
    W::law_times(a, b);
    W::law_product_zero(W::value(a));
    W::law_product_zero(W::value(b));
    W::law_same(c, W::zero_model());
}

/// A distance to the final states is the weight of a path to one, unless it is that of
/// no way at all.
pub proof fn lemma_to_final_attained<W: PathWeights>(fst: FstM<W::M>, k: nat, s: int) -> (r: (
    Seq<TrM<W::M>>,
    W::M,
))
    requires
        closed_machine(fst),
        0 <= s < fst.states.len(),
        distances_within::<W>(fst, true, k) is Ok,
        distances_within::<W>(fst, true, k)->Ok_0[s] != W::zero_model(),
    ensures
        is_path(fst, s, r.0),
        fst.states[path_end(s, r.0)].final_weight == Some(r.1),
        total_cost::<W>(r.0, r.1) == W::value(distances_within::<W>(fst, true, k)->Ok_0[s]),
    decreases k,
{
    let n = fst.states.len() as int;
    let d = distances_within::<W>(fst, true, k)->Ok_0;
    let first = final_or_zero::<W>(fst.states[s].final_weight);
    let trs = fst.states[s].trs;
    W::law_product_one(W::value(d[s]));
    if k > 0 {
        let c = distances_within::<W>(fst, true, (k - 1) as nat)->Ok_0;
        lemma_gather_at::<W>(fst, c, n);
        assert(d[s] == gather::<W>(fst, c, n)->Ok_0[s]);
        lemma_gather_trs_attained::<W>(first, c, trs);
        if d[s] == first {
            (Seq::empty(), d[s])
        } else {
            let i = choose|i: int|
                0 <= i < trs.len() && W::times_model(
                    (#[trigger] trs[i]).weight,
                    c[trs[i].nextstate as int],
                ) == Ok::<W::M, FstError>(d[s]);
            let tr = trs[i];
            assert(fst.states[s].trs[i].nextstate < fst.states.len());
            lemma_factors::<W>(tr.weight, c[tr.nextstate as int], d[s]);
            W::law_times(tr.weight, c[tr.nextstate as int]);
            let (rest, w) = lemma_to_final_attained::<W>(
                fst,
                (k - 1) as nat,
                tr.nextstate as int,
            );
            assert(fst.states[s].trs.contains(tr));
            lemma_path_one(fst, s, tr);
            lemma_path_concat(fst, s, seq![tr], rest);
            lemma_cost_concat::<W>(seq![tr], rest);
            lemma_cost_one::<W>(tr);
            W::law_product_associative(W::value(tr.weight), path_cost::<W>(rest), W::value(w));
            (seq![tr] + rest, w)
        }
    } else {
        (Seq::empty(), d[s])
    }
}

proof fn lemma_spread_trs_attained<W: PathWeights>(
    sums: Seq<W::M>,
    d: W::M,
    trs: Seq<TrM<W::M>>,
    v: int,
)
    requires
        forall|i: int| 0 <= i < trs.len() ==> (#[trigger] trs[i]).nextstate < sums.len(),
        0 <= v < sums.len(),
        spread_trs::<W>(sums, d, trs) is Ok,
    ensures
        spread_trs::<W>(sums, d, trs)->Ok_0[v] == sums[v] || exists|i: int|
            0 <= i < trs.len() && (#[trigger] trs[i]).nextstate == v && W::times_model(
                d,
                trs[i].weight,
            ) == Ok::<W::M, FstError>(spread_trs::<W>(sums, d, trs)->Ok_0[v]),
    decreases trs.len(),
{
    if trs.len() > 0 {
        let shorter = trs.drop_last();
        let last = trs.last();
        assert(trs[trs.len() - 1] == last);
        assert forall|i: int| 0 <= i < shorter.len() implies (#[trigger] shorter[i]).nextstate
            < sums.len() by {
            assert(shorter[i] == trs[i]);
        }
        lemma_spread_trs_attained::<W>(sums, d, shorter, v);
        lemma_spread_trs_below::<W>(sums, d, shorter);
        let before = spread_trs::<W>(sums, d, shorter)->Ok_0;
        let after = spread_trs::<W>(sums, d, trs)->Ok_0;
        let way = W::times_model(d, last.weight)->Ok_0;
        W::law_selects(before[last.nextstate as int], way);
        if after[v] == before[v] {
            if before[v] != sums[v] {
                let i = choose|i: int|
                    0 <= i < shorter.len() && (#[trigger] shorter[i]).nextstate == v
                        && W::times_model(d, shorter[i].weight) == Ok::<W::M, FstError>(before[v]);
                assert(trs[i] == shorter[i]);
            }
        } else {
            assert(last.nextstate == v && after[v] == way);
        }
    }
}

/// Some transition to `v` accounts for the given weight.
spec fn stepped<W: Semiring>(
    fst: FstM<W::M>,
    dist: Seq<W::M>,
    n: int,
    v: int,
    cost: W::M,
) -> bool {
    exists|u: int, i: int|
        0 <= u < n && 0 <= i < fst.states[u].trs.len() && (
        #[trigger] fst.states[u].trs[i]).nextstate == v && W::times_model(
            dist[u],
            fst.states[u].trs[i].weight,
        ) == Ok::<W::M, FstError>(cost)
}

proof fn lemma_spread_attained<W: PathWeights>(
    fst: FstM<W::M>,
    dist: Seq<W::M>,
    n: int,
    v: int,
)
    requires
        closed_machine(fst),
        0 <= n <= fst.states.len(),
        dist.len() == fst.states.len(),
        0 <= v < fst.states.len(),
        spread::<W>(fst, dist, n) is Ok,
    ensures
        spread::<W>(fst, dist, n)->Ok_0[v] == start_distances::<W>(fst)[v] || stepped::<W>(
            fst,
            dist,
            n,
            v,
            spread::<W>(fst, dist, n)->Ok_0[v],
        ),
    decreases n,
{
    if n > 0 {
        lemma_spread_attained::<W>(fst, dist, n - 1, v);
        lemma_spread_below::<W>(fst, dist, n - 1);
        let before = spread::<W>(fst, dist, n - 1)->Ok_0;
        let after = spread::<W>(fst, dist, n)->Ok_0;
        let trs = fst.states[n - 1].trs;
        lemma_spread_trs_attained::<W>(before, dist[n - 1], trs, v);
        if after[v] == before[v] {
            if before[v] != start_distances::<W>(fst)[v] {
                let (u, i) = choose|u: int, i: int|
                    0 <= u < n - 1 && 0 <= i < fst.states[u].trs.len() && (
                    #[trigger] fst.states[u].trs[i]).nextstate == v && W::times_model(
                        dist[u],
                        fst.states[u].trs[i].weight,
                    ) == Ok::<W::M, FstError>(before[v]);
                assert(fst.states[u].trs[i].nextstate == v);
            }
        } else {
            let i = choose|i: int|
                0 <= i < trs.len() && (#[trigger] trs[i]).nextstate == v && W::times_model(
                    dist[n - 1],
                    trs[i].weight,
                ) == Ok::<W::M, FstError>(after[v]);
            assert(fst.states[n - 1].trs[i].nextstate == v);
        }
    }
}

/// A distance from the start is the weight of a path from there, unless it is that of
/// no way at all.
pub proof fn lemma_from_start_attained<W: PathWeights>(fst: FstM<W::M>, k: nat, v: int) -> (path:
    Seq<TrM<W::M>>)
    requires
        closed_machine(fst),
        0 <= v < fst.states.len() <= u32::MAX,
        distances_within::<W>(fst, false, k) is Ok,
        distances_within::<W>(fst, false, k)->Ok_0[v] != W::zero_model(),
    ensures
        fst.start is Some,
        is_path(fst, fst.start->0 as int, path),
        path_end(fst.start->0 as int, path) == v,
        path_cost::<W>(path) == W::value(distances_within::<W>(fst, false, k)->Ok_0[v]),
    decreases k,
{
    let n = fst.states.len() as int;
    let d = distances_within::<W>(fst, false, k)->Ok_0;
    if k > 0 {
        let c = distances_within::<W>(fst, false, (k - 1) as nat)->Ok_0;
        lemma_distances_len::<W>(fst, false, (k - 1) as nat);
        lemma_spread_attained::<W>(fst, c, n, v);
        if d[v] == start_distances::<W>(fst)[v] {
            Seq::empty()
        } else {
            let (u, i) = choose|u: int, i: int|
                0 <= u < n && 0 <= i < fst.states[u].trs.len() && (
                #[trigger] fst.states[u].trs[i]).nextstate == v && W::times_model(
                    c[u],
                    fst.states[u].trs[i].weight,
                ) == Ok::<W::M, FstError>(d[v]);
            let tr = fst.states[u].trs[i];
            lemma_factors::<W>(c[u], tr.weight, d[v]);
            W::law_times(c[u], tr.weight);
            let before = lemma_from_start_attained::<W>(fst, (k - 1) as nat, u);
            assert(fst.states[u].trs.contains(tr));
            lemma_path_one(fst, u, tr);
            lemma_path_concat(fst, fst.start->0 as int, before, seq![tr]);
            lemma_cost_concat::<W>(before, seq![tr]);
            lemma_cost_one::<W>(tr);
            before + seq![tr]
        }
    } else {
        Seq::empty()
    }
}

/// The best weight that the limit is measured from is that of a path.
pub proof fn law_prune_best_is_attained<W: PathWeights>(fst: FstM<W::M>, threshold: W::M)
    requires
        prunes::<W>(fst, threshold),
    ensures
        exists|path: Seq<TrM<W::M>>, w: W::M|
            #[trigger] accepting_path(fst, path, w) && total_cost::<W>(path, w) == W::value(
                best_weight::<W>(fst),
            ),
{
    lemma_stable::<W>(fst);
    let k = choose|k: nat| #[trigger] settled::<W>(fst, true, k);
    let (path, w) = lemma_to_final_attained::<W>(fst, k, fst.start->0 as int);
    assert(accepting_path(fst, path, w));
}

/// What is within a limit that is a way is a way.
pub proof fn lemma_within_is_way<W: PathWeights>(limit: W::M, x: W::M)
    requires
        limit != W::zero_model(),
        !natural_less_model::<W>(limit, x),
    ensures
        x != W::zero_model(),
{
    lemma_natural_order::<W>(limit, x);
    lemma_at_most_nothing::<W>(W::value(limit));
    W::law_same(limit, W::zero_model());
}

/// Every transition that survives pruning lies on a path from the start to a final
/// state, of the pruned machine, whose weight is not beyond the limit.
pub proof fn law_prune_leaves_good_paths<W: PathWeights>(
    fst: FstM<W::M>,
    threshold: W::M,
    i: int,
    j: int,
)
    requires
        prunes::<W>(fst, threshold),
        0 <= i < prune_model::<W>(fst, threshold).0.states.len(),
        0 <= j < prune_model::<W>(fst, threshold).0.states[i].trs.len(),
    ensures
        exists|path: Seq<TrM<W::M>>, w: W::M, k: int|
            #[trigger] accepting_path(prune_model::<W>(fst, threshold).0, path, w)
                && #[trigger] passes(
                prune_model::<W>(fst, threshold).0,
                path,
                k,
                i,
                prune_model::<W>(fst, threshold).0.states[i].trs[j],
            ) && at_most::<W>(
                total_cost::<W>(path, w),
                W::value(prune_limit::<W>(fst, threshold)),
            ),
{
    lemma_stable::<W>(fst);
    let to_final = distances::<W>(fst, true)->Ok_0;
    let from_start = distances::<W>(fst, false)->Ok_0;
    let limit = prune_limit::<W>(fst, threshold);
    let n = fst.states.len() as int;
    let g = prune_states::<W>(fst, from_start, to_final, limit, n).0;
    let out = prune_model::<W>(fst, threshold).0;
    lemma_prune_keeps::<W>(fst, from_start, to_final, limit, n);
    lemma_pruned_closed::<W>(fst, from_start, to_final, limit);
    if limit == W::zero_model() {
        law_connect_leaves_useful(g, i, j);
        let (path, w, k) = choose|path: Seq<TrM<W::M>>, w: W::M, k: int|
            #[trigger] accepting_path(connect_model(g), path, w) && #[trigger] passes(
                connect_model(g),
                path,
                k,
                i,
                connect_model(g).states[i].trs[j],
            );
        lemma_at_most_nothing::<W>(total_cost::<W>(path, w));
        assert(accepting_path(out, path, w));
        assert(passes(out, path, k, i, out.states[i].trs[j]));
    } else {
        let (v, tr) = lemma_connect_tr_back(g, i, j);
        let u = tr.nextstate as int;
        assert(kept_at::<W>(
            fst,
            g,
            v,
            distance_at::<W>(from_start, v as StateId),
            to_final,
            limit,
        ));
        assert(fst.states[v].trs.contains(tr));
        let from = from_start[v];
        assert(distance_at::<W>(from_start, v as StateId) == from);
        let whole = through::<W>(from, tr, to_final)->Ok_0;
        let first = W::times_model(from, tr.weight)->Ok_0;
        lemma_within_is_way::<W>(limit, whole);
        lemma_natural_order::<W>(limit, whole);
        lemma_factors::<W>(first, to_final[u], whole);
        lemma_factors::<W>(from, tr.weight, first);
        W::law_times(from, tr.weight);
        W::law_times(first, to_final[u]);
        let to = choose|k: nat| #[trigger] settled::<W>(fst, false, k);
        let on = choose|k: nat| #[trigger] settled::<W>(fst, true, k);
        let before = lemma_from_start_attained::<W>(fst, to, v);
        let (after, w) = lemma_to_final_attained::<W>(fst, on, u);
        let s = fst.start->0 as int;
        lemma_path_one(fst, v, tr);
        lemma_path_concat(fst, s, before, seq![tr]);
        lemma_path_concat(fst, s, before + seq![tr], after);
        lemma_cost_concat::<W>(before, seq![tr]);
        lemma_cost_one::<W>(tr);
        lemma_cost_concat::<W>(before + seq![tr], after);
        let path = before + seq![tr] + after;
        W::law_product_associative(W::value(first), path_cost::<W>(after), W::value(w));
        assert(total_cost::<W>(path, w) == W::value(whole));
        lemma_start_is_near::<W>(fst, from_start, to_final);
        W::law_product_one(total_cost::<W>(path, w));
        lemma_path_kept::<W>(
            fst,
            from_start,
            to_final,
            limit,
            s,
            W::value(W::one_model()),
            path,
            w,
        );
        assert(accepting_path(g, path, w));
        law_connect_keeps_paths(g, path, w);
        lemma_renumbered_passes(g, before, tr, after, w);
        lemma_cost_alike::<W>(path, renumbered_path(g, path));
        assert(accepting_path(out, renumbered_path(g, path), w));
        assert(passes(
            out,
            renumbered_path(g, path),
            before.len() as int,
            i,
            out.states[i].trs[j],
        ));
    }
}

/// Every final weight that survives pruning ends a path from the start, of the
/// pruned machine, whose weight is not beyond the limit.
pub proof fn law_prune_leaves_good_ends<W: PathWeights>(
    fst: FstM<W::M>,
    threshold: W::M,
    i: int,
)
    requires
        prunes::<W>(fst, threshold),
        0 <= i < prune_model::<W>(fst, threshold).0.states.len(),
        prune_model::<W>(fst, threshold).0.states[i].final_weight is Some,
    ensures
        exists|path: Seq<TrM<W::M>>, w: W::M|
            #[trigger] accepting_path(prune_model::<W>(fst, threshold).0, path, w) && path_end(
                prune_model::<W>(fst, threshold).0.start->0 as int,
                path,
            ) == i && at_most::<W>(
                total_cost::<W>(path, w),
                W::value(prune_limit::<W>(fst, threshold)),
            ),
{
    lemma_stable::<W>(fst);
    let to_final = distances::<W>(fst, true)->Ok_0;
    let from_start = distances::<W>(fst, false)->Ok_0;
    let limit = prune_limit::<W>(fst, threshold);
    let n = fst.states.len() as int;
    let g = prune_states::<W>(fst, from_start, to_final, limit, n).0;
    let out = prune_model::<W>(fst, threshold).0;
    lemma_prune_keeps::<W>(fst, from_start, to_final, limit, n);
    lemma_pruned_closed::<W>(fst, from_start, to_final, limit);
    let v = lemma_connect_state_back(g, i);
    let w = g.states[v].final_weight->0;
    let s = fst.start->0 as int;
    let path = if limit == W::zero_model() {
        let to = choose|n: nat| (#[trigger] accessible_within(g, n)).contains(v);
        lemma_accessible_path(g, v, to)
    } else {
        assert(kept_at::<W>(
            fst,
            g,
            v,
            distance_at::<W>(from_start, v as StateId),
            to_final,
            limit,
        ));
        let from = from_start[v];
        assert(distance_at::<W>(from_start, v as StateId) == from);
        let whole = W::times_model(from, w)->Ok_0;
        lemma_within_is_way::<W>(limit, whole);
        lemma_natural_order::<W>(limit, whole);
        lemma_factors::<W>(from, w, whole);
        W::law_times(from, w);
        let to = choose|k: nat| #[trigger] settled::<W>(fst, false, k);
        let before = lemma_from_start_attained::<W>(fst, to, v);
        assert(total_cost::<W>(before, w) == W::value(whole));
        lemma_start_is_near::<W>(fst, from_start, to_final);
        W::law_product_one(total_cost::<W>(before, w));
        lemma_path_kept::<W>(
            fst,
            from_start,
            to_final,
            limit,
            s,
            W::value(W::one_model()),
            before,
            w,
        );
        before
    };
    lemma_at_most_nothing::<W>(total_cost::<W>(path, w));
    assert(accepting_path(g, path, w));
    law_connect_keeps_paths(g, path, w);
    lemma_renumbered_end(g, path, w);
    lemma_cost_alike::<W>(path, renumbered_path(g, path));
    assert(accepting_path(out, renumbered_path(g, path), w));
}

/// Paths with the same weights weigh the same.
pub proof fn lemma_cost_alike<W: SemiringLaws>(p: Seq<TrM<W::M>>, q: Seq<TrM<W::M>>)
    requires
        alike(p, q),
    ensures
        path_cost::<W>(p) == path_cost::<W>(q),
    decreases p.len(),
{
    if p.len() > 0 {
        let (pr, qr) = (p.drop_first(), q.drop_first());
        assert forall|i: int| 0 <= i < pr.len() implies (#[trigger] pr[i]).ilabel == qr[i].ilabel
            && pr[i].olabel == qr[i].olabel && pr[i].weight == qr[i].weight by {
            assert(pr[i] == p[i + 1]);
            assert(qr[i] == q[i + 1]);
        }
        lemma_cost_alike::<W>(pr, qr);
        assert(p[0].weight == q[0].weight);
    }
}

pub proof fn lemma_pruned_closed<W: Semiring>(
    fst: FstM<W::M>,
    from_start: Seq<W::M>,
    to_final: Seq<W::M>,
    limit: W::M,
)
    requires
        closed_machine(fst),
        fst.states.len() <= u32::MAX,
        prune_states::<W>(
            fst,
            from_start,
            to_final,
            limit,
            fst.states.len() as int,
        ).1 is Ok,
    ensures
        closed_machine(
            prune_states::<W>(
                fst,
                from_start,
                to_final,
                limit,
                fst.states.len() as int,
            ).0,
        ),
{
    let n = fst.states.len() as int;
    let g = prune_states::<W>(fst, from_start, to_final, limit, n).0;
    lemma_prune_keeps::<W>(fst, from_start, to_final, limit, n);
    assert forall|v: int, j: int|
        0 <= v < g.states.len() && 0 <= j < g.states[v].trs.len() implies (
    #[trigger] g.states[v].trs[j]).nextstate < g.states.len() by {
        let tr = g.states[v].trs[j];
        assert(g.states[v].trs.contains(tr));
        assert(kept_at::<W>(
            fst,
            g,
            v,
            distance_at::<W>(from_start, v as StateId),
            to_final,
            limit,
        ));
        let k = choose|k: int| 0 <= k < fst.states[v].trs.len() && fst.states[v].trs[k] == tr;
        assert(fst.states[v].trs[k].nextstate < fst.states.len());
    }
}

} // verus!
