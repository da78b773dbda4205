//! What pruning a second time does, for weights with the path property.

use crate::connect::{
    accessible, accessible_within, coaccessible_within, connect_model, useful, useful_below,
    useful_states, useful_trs,
};
use crate::determinize::determinize_fsa_op::final_or_zero;
use crate::error::FstError;
use crate::fst::properties::{ACCESSIBLE, COACCESSIBLE, DELETE_STATES_KEEPS};
use crate::fst::tr::{StateId, TrM};
use crate::fst::vector_fst::{FstM, StateM};
use crate::lazy::laws::closed_machine;
use crate::paths::{
    accepting_path, alike, is_path, law_connect_adds_no_path, lemma_accessible_path,
    lemma_coaccessible_path, lemma_connect_path, lemma_connect_path_back,
    lemma_connect_state_back, lemma_connect_tr_back, lemma_path_coaccessible, lemma_path_concat,
    lemma_path_end, lemma_path_state, lemma_start_accessible, lemma_step_accessible,
    lemma_useful_count, lemma_useful_state, path_end, renumbered_path, renumbered_tr,
};
use crate::prune::{
    distance_at, natural_less_model, prune_final, prune_model, prune_states, put_back, through,
    without_trs,
};
use crate::prune_flag_laws::{
    agrees, flags_hold, lasting, lemma_added_agrees, lemma_connect_flags, lemma_prune_flags,
    lemma_without_trs_flags, list_agrees, settled_flags, shape_at,
};
use crate::prune_laws::{
    best_weight, kept_at, law_prune_best_is_attained, law_prune_keeps_good_paths,
    law_prune_measures_from_best, lemma_cost_alike, lemma_cost_concat, lemma_from_start_attained,
    lemma_cost_one, lemma_gather_at, lemma_gather_trs_below, lemma_path_kept, lemma_prune_keeps,
    lemma_pruned_closed, lemma_spread_below, lemma_stable, lemma_start_is_near,
    lemma_to_final_attained, lemma_to_final_below, path_cost, prune_limit, prunes, stable,
    total_cost,
};
use crate::semirings::path_weights::{
    at_most, lemma_at_most_both, lemma_at_most_chain, lemma_at_most_nothing,
    lemma_at_most_product, lemma_at_most_self, lemma_natural_order, PathWeights,
};
use crate::semirings::semiring::Semiring;
use crate::shortest_distance::{
    distances, distances_within, gather, lemma_distances_len, settled, settles, spread,
    start_distances,
};
use vstd::prelude::*;

verus! {

/// The distances of the states from the start.
spec fn from_start<W: Semiring>(fst: FstM<W::M>) -> Seq<W::M> {
    distances::<W>(fst, false)->Ok_0
}

/// The distances of the states to the final states.
spec fn to_final<W: Semiring>(fst: FstM<W::M>) -> Seq<W::M> {
    distances::<W>(fst, true)->Ok_0
}

/// The machine with what is within the limit, before useless states are removed.
spec fn trimmed<W: Semiring>(fst: FstM<W::M>, threshold: W::M) -> FstM<W::M> {
    prune_states::<W>(
        fst,
        from_start::<W>(fst),
        to_final::<W>(fst),
        prune_limit::<W>(fst, threshold),
        fst.states.len() as int,
    ).0
}

/// What is known of pruning that has work to do.
proof fn lemma_trimmed<W: PathWeights>(fst: FstM<W::M>, threshold: W::M)
    requires
        prunes::<W>(fst, threshold),
    ensures
        stable::<W>(fst, from_start::<W>(fst), to_final::<W>(fst)),
        prune_states::<W>(
            fst,
            from_start::<W>(fst),
            to_final::<W>(fst),
            prune_limit::<W>(fst, threshold),
            fst.states.len() as int,
        ).1 is Ok,
        prune_model::<W>(fst, threshold).0 == connect_model(trimmed::<W>(fst, threshold)),
        closed_machine(trimmed::<W>(fst, threshold)),
        trimmed::<W>(fst, threshold).states.len() == fst.states.len(),
        trimmed::<W>(fst, threshold).start == fst.start,
        forall|v: int|
            0 <= v < fst.states.len() ==> #[trigger] kept_at::<W>(
                fst,
                trimmed::<W>(fst, threshold),
                v,
                from_start::<W>(fst)[v],
                to_final::<W>(fst),
                prune_limit::<W>(fst, threshold),
            ),
{
    lemma_stable::<W>(fst);
    let (from, to) = (from_start::<W>(fst), to_final::<W>(fst));
    let limit = prune_limit::<W>(fst, threshold);
    let n = fst.states.len() as int;
    lemma_prune_keeps::<W>(fst, from, to, limit, n);
    lemma_pruned_closed::<W>(fst, from, to, limit);
    let g = trimmed::<W>(fst, threshold);
    assert forall|v: int| 0 <= v < n implies #[trigger] kept_at::<W>(
        fst,
        g,
        v,
        from[v],
        to,
        limit,
    ) by {
        assert(kept_at::<W>(
            fst,
            g,
            v,
            distance_at::<W>(from, v as StateId),
            to,
            limit,
        ));
    }
}

/// A path of what is within the limit is one of the machine.
proof fn lemma_path_untrimmed<W: PathWeights>(
    fst: FstM<W::M>,
    threshold: W::M,
    s: int,
    path: Seq<TrM<W::M>>,
)
    requires
        prunes::<W>(fst, threshold),
        is_path(trimmed::<W>(fst, threshold), s, path),
    ensures
        is_path(fst, s, path),
        trimmed::<W>(fst, threshold).states[path_end(s, path)].final_weight is Some
            ==> fst.states[path_end(s, path)].final_weight == trimmed::<W>(
            fst,
            threshold,
        ).states[path_end(s, path)].final_weight,
    decreases path.len(),
{
    let g = trimmed::<W>(fst, threshold);
    lemma_trimmed::<W>(fst, threshold);
    assert(kept_at::<W>(
        fst,
        g,
        s,
        from_start::<W>(fst)[s],
        to_final::<W>(fst),
        prune_limit::<W>(fst, threshold),
    ));
    if path.len() > 0 {
        lemma_path_end(g, s, path);
        assert(g.states[s].trs.contains(path[0]));
        lemma_path_untrimmed::<W>(fst, threshold, path[0].nextstate as int, path.drop_first());
    }
}

/// The best path over a state from which a path is left is within the limit.
proof fn lemma_best_through<W: PathWeights>(
    fst: FstM<W::M>,
    threshold: W::M,
    v: int,
    p: Seq<TrM<W::M>>,
    w: W::M,
)
    requires
        prunes::<W>(fst, threshold),
        0 <= v < fst.states.len(),
        is_path(trimmed::<W>(fst, threshold), v, p),
        trimmed::<W>(fst, threshold).states[path_end(v, p)].final_weight == Some(w),
    ensures
        at_most::<W>(
            W::product(W::value(from_start::<W>(fst)[v]), W::value(to_final::<W>(fst)[v])),
            W::value(prune_limit::<W>(fst, threshold)),
        ),
{
    let g = trimmed::<W>(fst, threshold);
    let (from, to) = (from_start::<W>(fst), to_final::<W>(fst));
    let limit = prune_limit::<W>(fst, threshold);
    lemma_trimmed::<W>(fst, threshold);
    lemma_path_untrimmed::<W>(fst, threshold, v, p);
    assert(kept_at::<W>(fst, g, v, from[v], to, limit));
    let f = W::value(from[v]);
    let whole = if p.len() == 0 {
        lemma_to_final_below::<W>(fst, to, v, p, w);
        W::law_product_one(W::value(w));
        W::law_times(from[v], w);
        lemma_at_most_product::<W>(W::value(to[v]), W::value(w), f);
        W::times_model(from[v], w)->Ok_0
    } else {
        let tr = p[0];
        let next = tr.nextstate as int;
        assert(g.states[v].trs.contains(tr));
        assert(fst.states[v].trs.contains(tr));
        lemma_way_below::<W>(fst, to, v, tr);
        let (t, d) = (W::value(tr.weight), W::value(to[next]));
        let part = W::times_model(from[v], tr.weight)->Ok_0;
        assert(distance_at::<W>(to, tr.nextstate) == to[next]) by {
            let i = choose|i: int| 0 <= i < fst.states[v].trs.len() && fst.states[v].trs[i] == tr;
            assert(fst.states[v].trs[i].nextstate < fst.states.len());
        }
        W::law_times(from[v], tr.weight);
        W::law_times(part, to[next]);
        lemma_at_most_product::<W>(W::value(to[v]), W::product(t, d), f);
        W::law_product_associative(f, t, d);
        through::<W>(from[v], tr, to)->Ok_0
    };
    lemma_natural_order::<W>(limit, whole);
    lemma_at_most_chain::<W>(W::product(f, W::value(to[v])), W::value(whole), W::value(limit));
}

/// The distance to the final states is at least as good as going on by a transition.
proof fn lemma_way_below<W: PathWeights>(
    fst: FstM<W::M>,
    to: Seq<W::M>,
    v: int,
    tr: TrM<W::M>,
)
    requires
        closed_machine(fst),
        0 <= v < fst.states.len(),
        gather::<W>(fst, to, fst.states.len() as int) == Ok::<Seq<W::M>, FstError>(to),
        fst.states[v].trs.contains(tr),
    ensures
        at_most::<W>(
            W::value(to[v]),
            W::product(W::value(tr.weight), W::value(to[tr.nextstate as int])),
        ),
{
    let n = fst.states.len() as int;
    let i = choose|i: int| 0 <= i < fst.states[v].trs.len() && fst.states[v].trs[i] == tr;
    lemma_gather_at::<W>(fst, to, n);
    let first = final_or_zero::<W>(fst.states[v].final_weight);
    assert(to[v] == gather::<W>(fst, to, n)->Ok_0[v]);
    lemma_gather_trs_below::<W>(first, to, fst.states[v].trs);
    assert(at_most::<W>(
        W::value(to[v]),
        W::product(
            W::value(fst.states[v].trs[i].weight),
            W::value(to[fst.states[v].trs[i].nextstate as int]),
        ),
    ));
}

/// From a state that stays useful a path within the limit leads on, a best one if
/// there is one at a finite cost.
proof fn lemma_way_on<W: PathWeights>(fst: FstM<W::M>, threshold: W::M, v: int) -> (r: (
    Seq<TrM<W::M>>,
    W::M,
))
    requires
        prunes::<W>(fst, threshold),
        0 <= v < fst.states.len(),
        useful(trimmed::<W>(fst, threshold), v),
    ensures
        is_path(fst, v, r.0),
        fst.states[path_end(v, r.0)].final_weight == Some(r.1),
        at_most::<W>(
            W::product(W::value(from_start::<W>(fst)[v]), total_cost::<W>(r.0, r.1)),
            W::value(prune_limit::<W>(fst, threshold)),
        ),
        to_final::<W>(fst)[v] != W::zero_model() ==> total_cost::<W>(r.0, r.1) == W::value(
            to_final::<W>(fst)[v],
        ),
{
    let g = trimmed::<W>(fst, threshold);
    let (from, to) = (from_start::<W>(fst), to_final::<W>(fst));
    let limit = prune_limit::<W>(fst, threshold);
    let n = fst.states.len() as int;
    lemma_trimmed::<W>(fst, threshold);
    let on = choose|n: nat| (#[trigger] coaccessible_within(g, n)).contains(v);
    let p = lemma_coaccessible_path(g, v, on);
    lemma_path_untrimmed::<W>(fst, threshold, v, p);
    lemma_path_end(g, v, p);
    let w = g.states[path_end(v, p)].final_weight->0;
    assert(kept_at::<W>(fst, g, v, from[v], to, limit));
    let f = W::value(from[v]);
    lemma_best_through::<W>(fst, threshold, v, p, w);
    if to[v] != W::zero_model() {
        let k = choose|k: nat| #[trigger] settled::<W>(fst, true, k);
        lemma_to_final_attained::<W>(fst, k, v)
    } else {
        W::law_product_zero(f);
        lemma_at_most_nothing::<W>(W::value(limit));
        lemma_at_most_nothing::<W>(W::product(f, total_cost::<W>(p, w)));
        (p, w)
    }
}

/// No path from the start is better than the distance of where it ends.
proof fn lemma_from_start_below<W: PathWeights>(
    fst: FstM<W::M>,
    from: Seq<W::M>,
    s: int,
    spent: W::V,
    path: Seq<TrM<W::M>>,
)
    requires
        closed_machine(fst),
        from.len() == fst.states.len(),
        spread::<W>(fst, from, fst.states.len() as int) == Ok::<Seq<W::M>, FstError>(from),
        is_path(fst, s, path),
        at_most::<W>(W::value(from[s]), spent),
    ensures
        at_most::<W>(
            W::value(from[path_end(s, path)]),
            W::product(spent, path_cost::<W>(path)),
        ),
    decreases path.len(),
{
    if path.len() > 0 {
        let tr = path[0];
        let rest = path.drop_first();
        let next = tr.nextstate as int;
        let t = W::value(tr.weight);
        lemma_path_end(fst, s, path);
        lemma_spread_below::<W>(fst, from, fst.states.len() as int);
        let i = choose|i: int| 0 <= i < fst.states[s].trs.len() && fst.states[s].trs[i] == tr;
        assert(at_most::<W>(
            W::value(from[next]),
            W::product(W::value(from[s]), W::value(fst.states[s].trs[i].weight)),
        ));
        lemma_at_most_product::<W>(W::value(from[s]), spent, t);
        lemma_at_most_chain::<W>(
            W::value(from[next]),
            W::product(W::value(from[s]), t),
            W::product(spent, t),
        );
        lemma_from_start_below::<W>(fst, from, next, W::product(spent, t), rest);
        W::law_product_associative(spent, t, path_cost::<W>(rest));
    } else {
        W::law_product_one(spent);
    }
}

/// Different useful states get different places.
proof fn lemma_places_differ<M>(fst: FstM<M>, u: int, v: int)
    requires
        0 <= u < fst.states.len(),
        0 <= v < fst.states.len(),
        useful(fst, u),
        useful(fst, v),
        useful_below(fst, u) == useful_below(fst, v),
    ensures
        u == v,
{
    if u < v {
        lemma_useful_state(fst, v, u);
    } else if v < u {
        lemma_useful_state(fst, u, v);
    }
}

proof fn lemma_renumbered_cost<W: PathWeights>(fst: FstM<W::M>, path: Seq<TrM<W::M>>)
    ensures
        path_cost::<W>(renumbered_path(fst, path)) == path_cost::<W>(path),
{
    assert(alike(path, renumbered_path(fst, path)));
    lemma_cost_alike::<W>(path, renumbered_path(fst, path));
}

/// What is left after pruning is a machine that can be pruned.
proof fn lemma_left_is_sound<W: PathWeights>(fst: FstM<W::M>, threshold: W::M)
    requires
        prunes::<W>(fst, threshold),
    ensures
        ({
            let out = prune_model::<W>(fst, threshold).0;
            &&& closed_machine(out)
            &&& out.states.len() <= fst.states.len()
        }),
{
    let g = trimmed::<W>(fst, threshold);
    let out = prune_model::<W>(fst, threshold).0;
    let n = fst.states.len() as int;
    lemma_trimmed::<W>(fst, threshold);
    lemma_useful_count(g, n);
    assert forall|i: int, j: int|
        0 <= i < out.states.len() && 0 <= j < out.states[i].trs.len() implies (
    #[trigger] out.states[i].trs[j]).nextstate < out.states.len() by {
        let (v, tr) = lemma_connect_tr_back(g, i, j);
        lemma_useful_state(g, n, tr.nextstate as int);
    }
    if out.start is Some {
        lemma_useful_state(g, n, g.start->0 as int);
    }
}

/// A path of what is within the limit leads from the start over the state to a final
/// state, and it is as good as there is.
proof fn lemma_way_through<W: PathWeights>(fst: FstM<W::M>, threshold: W::M, v: int) -> (r: (
    Seq<TrM<W::M>>,
    Seq<TrM<W::M>>,
))
    requires
        prunes::<W>(fst, threshold),
        0 <= v < fst.states.len(),
        useful(trimmed::<W>(fst, threshold), v),
    ensures
        ({
            let g = trimmed::<W>(fst, threshold);
            let s = fst.start->0 as int;
            &&& is_path(g, s, r.0 + r.1)
            &&& is_path(g, s, r.0)
            &&& path_end(s, r.0) == v
            &&& g.states[path_end(s, r.0 + r.1)].final_weight is Some
            &&& from_start::<W>(fst)[v] != W::zero_model() ==> path_cost::<W>(r.0) == W::value(
                from_start::<W>(fst)[v],
            )
        }),
{
    let g = trimmed::<W>(fst, threshold);
    let s = fst.start->0 as int;
    lemma_trimmed::<W>(fst, threshold);
    if from_start::<W>(fst)[v] != W::zero_model() {
        let (after, w) = lemma_way_on::<W>(fst, threshold, v);
        let k = choose|k: nat| #[trigger] settled::<W>(fst, false, k);
        let before = lemma_from_start_attained::<W>(fst, k, v);
        lemma_path_concat(fst, s, before, after);
        lemma_cost_concat::<W>(before, after);
        lemma_start_is_near::<W>(fst, from_start::<W>(fst), to_final::<W>(fst));
        let whole = total_cost::<W>(before + after, w);
        W::law_product_associative(path_cost::<W>(before), path_cost::<W>(after), W::value(w));
        W::law_product_one(whole);
        lemma_path_kept::<W>(
            fst,
            from_start::<W>(fst),
            to_final::<W>(fst),
            prune_limit::<W>(fst, threshold),
            s,
            W::value(W::one_model()),
            before + after,
            w,
        );
        lemma_path_state(g, s, before + after, before.len() as int);
        assert((before + after).take(before.len() as int) =~= before);
        (before, after)
    } else {
        let to = choose|n: nat| (#[trigger] accessible_within(g, n)).contains(v);
        let on = choose|n: nat| (#[trigger] coaccessible_within(g, n)).contains(v);
        let before = lemma_accessible_path(g, v, to);
        let after = lemma_coaccessible_path(g, v, on);
        lemma_path_concat(g, s, before, after);
        (before, after)
    }
}

/// The way over a state that stays, in the machine that is left: it leads from the
/// start to the place of the state.
proof fn lemma_way_to_place<W: PathWeights>(fst: FstM<W::M>, threshold: W::M, v: int) -> (p:
    Seq<TrM<W::M>>)
    requires
        prunes::<W>(fst, threshold),
        0 <= v < fst.states.len(),
        useful(trimmed::<W>(fst, threshold), v),
    ensures
        ({
            let g = trimmed::<W>(fst, threshold);
            let out = prune_model::<W>(fst, threshold).0;
            &&& out.start is Some
            &&& is_path(out, out.start->0 as int, p)
            &&& path_end(out.start->0 as int, p) == useful_below(g, v)
            &&& from_start::<W>(fst)[v] != W::zero_model() ==> path_cost::<W>(p) == W::value(
                from_start::<W>(fst)[v],
            )
        }),
{
    let g = trimmed::<W>(fst, threshold);
    let out = prune_model::<W>(fst, threshold).0;
    let s = fst.start->0 as int;
    let n = fst.states.len() as int;
    lemma_trimmed::<W>(fst, threshold);
    let (before, after) = lemma_way_through::<W>(fst, threshold, v);
    let path = before + after;
    lemma_start_accessible(g);
    lemma_connect_path(g, s, path);
    lemma_useful_state(g, n, s);
    lemma_useful_count(g, n);
    let q = renumbered_path(g, path);
    let p = renumbered_path(g, before);
    assert(q.take(before.len() as int) =~= p);
    lemma_path_state(out, useful_below(g, s), q, before.len() as int);
    lemma_renumbered_cost::<W>(g, before);
    if before.len() > 0 {
        assert(p.last() == renumbered_tr(g, before.last()));
        lemma_useful_state(g, n, v);
    }
    p
}

/// What stays is as far from the start and from the final states as it was.
proof fn lemma_distances_stay<W: PathWeights>(fst: FstM<W::M>, threshold: W::M, v: int)
    requires
        prunes::<W>(fst, threshold),
        0 <= v < fst.states.len(),
        useful(trimmed::<W>(fst, threshold), v),
        settles::<W>(prune_model::<W>(fst, threshold).0, true),
        settles::<W>(prune_model::<W>(fst, threshold).0, false),
        distances::<W>(prune_model::<W>(fst, threshold).0, true) is Ok,
        distances::<W>(prune_model::<W>(fst, threshold).0, false) is Ok,
    ensures
        ({
            let out = prune_model::<W>(fst, threshold).0;
            let i = useful_below(trimmed::<W>(fst, threshold), v);
            &&& 0 <= i < out.states.len()
            &&& stable::<W>(out, from_start::<W>(out), to_final::<W>(out))
            &&& to_final::<W>(out)[i] == to_final::<W>(fst)[v]
            &&& from_start::<W>(out)[i] == from_start::<W>(fst)[v]
        }),
{
    let g = trimmed::<W>(fst, threshold);
    let out = prune_model::<W>(fst, threshold).0;
    let (from, to) = (from_start::<W>(fst), to_final::<W>(fst));
    let limit = prune_limit::<W>(fst, threshold);
    let n = fst.states.len() as int;
    let s = fst.start->0 as int;
    lemma_trimmed::<W>(fst, threshold);
    lemma_left_is_sound::<W>(fst, threshold);
    lemma_stable::<W>(out);
    lemma_useful_state(g, n, v);
    lemma_useful_count(g, n);
    let i = useful_below(g, v);
    let (after, w) = lemma_way_on::<W>(fst, threshold, v);
    let (f, t) = (W::value(from[v]), W::value(to[v]));
    let (x, y) = (W::value(from_start::<W>(out)[i]), W::value(to_final::<W>(out)[i]));
    assert(at_most::<W>(y, t)) by {
        if to[v] != W::zero_model() {
            lemma_at_most_self::<W>(f);
            lemma_path_kept::<W>(fst, from, to, limit, v, f, after, w);
            lemma_connect_path(g, v, after);
            lemma_renumbered_cost::<W>(g, after);
            lemma_to_final_below::<W>(out, to_final::<W>(out), i, renumbered_path(g, after), w);
        } else {
            lemma_at_most_nothing::<W>(y);
        }
    }
    assert(at_most::<W>(t, y)) by {
        if to_final::<W>(out)[i] != W::zero_model() {
            let k = choose|k: nat| #[trigger] settled::<W>(out, true, k);
            let (q, z) = lemma_to_final_attained::<W>(out, k, i);
            let p = lemma_connect_path_back(g, v, q);
            lemma_path_end(g, v, p);
            lemma_useful_state(g, n, path_end(v, p));
            lemma_path_untrimmed::<W>(fst, threshold, v, p);
            lemma_renumbered_cost::<W>(g, p);
            lemma_to_final_below::<W>(fst, to, v, p, z);
        } else {
            lemma_at_most_nothing::<W>(t);
        }
    }
    lemma_at_most_both::<W>(y, t);
    W::law_same(to_final::<W>(out)[i], to[v]);
    let p = lemma_way_to_place::<W>(fst, threshold, v);
    let one = W::value(W::one_model());
    assert(at_most::<W>(x, f)) by {
        if from[v] != W::zero_model() {
            lemma_start_is_near::<W>(out, from_start::<W>(out), to_final::<W>(out));
            lemma_from_start_below::<W>(out, from_start::<W>(out), out.start->0 as int, one, p);
            W::law_product_one(path_cost::<W>(p));
        } else {
            lemma_at_most_nothing::<W>(x);
        }
    }
    assert(at_most::<W>(f, x)) by {
        if from_start::<W>(out)[i] != W::zero_model() {
            let k = choose|k: nat| #[trigger] settled::<W>(out, false, k);
            let q = lemma_from_start_attained::<W>(out, k, i);
            assert(useful(g, s));
            lemma_useful_state(g, n, s);
            let r = lemma_connect_path_back(g, s, q);
            lemma_path_end(g, s, r);
            lemma_places_differ(g, path_end(s, r), v);
            lemma_path_untrimmed::<W>(fst, threshold, s, r);
            lemma_renumbered_cost::<W>(g, r);
            lemma_start_is_near::<W>(fst, from, to);
            lemma_from_start_below::<W>(fst, from, s, one, r);
            W::law_product_one(path_cost::<W>(r));
        } else {
            lemma_at_most_nothing::<W>(f);
        }
    }
    lemma_at_most_both::<W>(x, f);
    W::law_same(from_start::<W>(out)[i], from[v]);
}

/// Distances to the final states over so many transitions are at least as good as every
/// path with no more.
proof fn lemma_to_final_soon<W: PathWeights>(
    fst: FstM<W::M>,
    k: nat,
    s: int,
    path: Seq<TrM<W::M>>,
    w: W::M,
)
    requires
        closed_machine(fst),
        distances_within::<W>(fst, true, k) is Ok,
        is_path(fst, s, path),
        fst.states[path_end(s, path)].final_weight == Some(w),
        path.len() <= k,
    ensures
        at_most::<W>(
            W::value(distances_within::<W>(fst, true, k)->Ok_0[s]),
            total_cost::<W>(path, w),
        ),
    decreases k,
{
    let n = fst.states.len() as int;
    let d = distances_within::<W>(fst, true, k)->Ok_0;
    W::law_product_one(W::value(w));
    if k == 0 {
        lemma_at_most_self::<W>(W::value(w));
    } else {
        let c = distances_within::<W>(fst, true, (k - 1) as nat)->Ok_0;
        let first = final_or_zero::<W>(fst.states[s].final_weight);
        lemma_gather_at::<W>(fst, c, n);
        assert(d[s] == gather::<W>(fst, c, n)->Ok_0[s]);
        lemma_gather_trs_below::<W>(first, c, fst.states[s].trs);
        if path.len() > 0 {
            let tr = path[0];
            let rest = path.drop_first();
            let next = tr.nextstate as int;
            lemma_path_end(fst, s, path);
            lemma_to_final_soon::<W>(fst, (k - 1) as nat, next, rest, w);
            let i = choose|i: int| 0 <= i < fst.states[s].trs.len() && fst.states[s].trs[i] == tr;
            let (t, x) = (W::value(tr.weight), W::value(c[next]));
            assert(at_most::<W>(
                W::value(d[s]),
                W::product(W::value(fst.states[s].trs[i].weight), x),
            ));
            let on = total_cost::<W>(rest, w);
            lemma_at_most_product::<W>(x, on, t);
            lemma_at_most_chain::<W>(W::value(d[s]), W::product(t, x), W::product(t, on));
            W::law_product_associative(t, path_cost::<W>(rest), W::value(w));
        }
    }
}

/// Distances from the start over so many transitions are at least as good as every path
/// with no more.
proof fn lemma_from_start_soon<W: PathWeights>(fst: FstM<W::M>, k: nat, path: Seq<TrM<W::M>>)
    requires
        closed_machine(fst),
        fst.states.len() <= u32::MAX,
        fst.start is Some,
        distances_within::<W>(fst, false, k) is Ok,
        is_path(fst, fst.start->0 as int, path),
        path.len() <= k,
    ensures
        at_most::<W>(
            W::value(
                distances_within::<W>(fst, false, k)->Ok_0[path_end(fst.start->0 as int, path)],
            ),
            path_cost::<W>(path),
        ),
    decreases k,
{
    let n = fst.states.len() as int;
    let s = fst.start->0 as int;
    let d = distances_within::<W>(fst, false, k)->Ok_0;
    lemma_path_end(fst, s, path);
    if k == 0 {
        lemma_at_most_self::<W>(W::value(W::one_model()));
    } else {
        let c = distances_within::<W>(fst, false, (k - 1) as nat)->Ok_0;
        lemma_distances_len::<W>(fst, false, (k - 1) as nat);
        lemma_spread_below::<W>(fst, c, n);
        if path.len() == 0 {
            assert(at_most::<W>(W::value(d[s]), W::value(start_distances::<W>(fst)[s])));
        } else {
            let m = path.len() - 1;
            let (init, tr) = (path.take(m), path[m]);
            lemma_path_state(fst, s, path, m);
            let u = path_end(s, init);
            lemma_from_start_soon::<W>(fst, (k - 1) as nat, init);
            assert(path =~= init + seq![tr]);
            lemma_cost_concat::<W>(init, seq![tr]);
            lemma_cost_one::<W>(tr);
            assert(path.skip(m) =~= seq![tr]);
            assert(fst.states[u].trs.contains(tr));
            let i = choose|i: int| 0 <= i < fst.states[u].trs.len() && fst.states[u].trs[i] == tr;
            let (t, x) = (W::value(tr.weight), W::value(c[u]));
            assert(at_most::<W>(
                W::value(d[tr.nextstate as int]),
                W::product(x, W::value(fst.states[u].trs[i].weight)),
            ));
            lemma_at_most_product::<W>(x, path_cost::<W>(init), t);
            lemma_at_most_chain::<W>(
                W::value(d[tr.nextstate as int]),
                W::product(x, t),
                W::product(path_cost::<W>(init), t),
            );
        }
    }
}

/// The distances over up to `k` transitions.
spec fn within<W: Semiring>(fst: FstM<W::M>, reverse: bool, k: nat) -> Seq<W::M> {
    distances_within::<W>(fst, reverse, k)->Ok_0
}

/// What stays is never nearer to the final states than it was, and as near once paths are
/// long enough.
proof fn lemma_to_final_settles<W: PathWeights>(fst: FstM<W::M>, threshold: W::M, v: int) -> (l:
    nat)
    requires
        prunes::<W>(fst, threshold),
        0 <= v < fst.states.len(),
        useful(trimmed::<W>(fst, threshold), v),
        forall|k: nat|
            (#[trigger] distances_within::<W>(
                prune_model::<W>(fst, threshold).0,
                true,
                k,
            )) is Ok,
    ensures
        forall|k: nat|
            k >= l ==> (#[trigger] within::<W>(prune_model::<W>(fst, threshold).0, true, k))[
                useful_below(trimmed::<W>(fst, threshold), v)
            ] == to_final::<W>(fst)[v],
{
    let g = trimmed::<W>(fst, threshold);
    let out = prune_model::<W>(fst, threshold).0;
    let (from, to, limit) = (
        from_start::<W>(fst),
        to_final::<W>(fst),
        prune_limit::<W>(fst, threshold),
    );
    let n = fst.states.len() as int;
    lemma_trimmed::<W>(fst, threshold);
    lemma_left_is_sound::<W>(fst, threshold);
    lemma_useful_state(g, n, v);
    lemma_useful_count(g, n);
    let i = useful_below(g, v);
    let (after, w) = lemma_way_on::<W>(fst, threshold, v);
    let t = W::value(to[v]);
    if to[v] != W::zero_model() {
        lemma_at_most_self::<W>(W::value(from[v]));
        lemma_path_kept::<W>(fst, from, to, limit, v, W::value(from[v]), after, w);
        lemma_connect_path(g, v, after);
        lemma_renumbered_cost::<W>(g, after);
    }
    assert forall|k: nat| k >= after.len() implies (#[trigger] within::<W>(out, true, k))[i]
        == to[v] by {
        let near = within::<W>(out, true, k)[i];
        let y = W::value(near);
        assert(distances_within::<W>(out, true, k) is Ok);
        lemma_at_most_nothing::<W>(y);
        lemma_at_most_nothing::<W>(t);
        if to[v] != W::zero_model() {
            lemma_to_final_soon::<W>(out, k, i, renumbered_path(g, after), w);
        }
        if near != W::zero_model() {
            let (q, z) = lemma_to_final_attained::<W>(out, k, i);
            let p = lemma_connect_path_back(g, v, q);
            lemma_path_end(g, v, p);
            lemma_useful_state(g, n, path_end(v, p));
            lemma_path_untrimmed::<W>(fst, threshold, v, p);
            lemma_renumbered_cost::<W>(g, p);
            lemma_to_final_below::<W>(fst, to, v, p, z);
        }
        lemma_at_most_both::<W>(y, t);
        W::law_same(near, to[v]);
    }
    after.len()
}

/// What stays is never nearer to the start than it was, and as near once paths are long
/// enough.
proof fn lemma_from_start_settles<W: PathWeights>(fst: FstM<W::M>, threshold: W::M, v: int) -> (l:
    nat)
    requires
        prunes::<W>(fst, threshold),
        0 <= v < fst.states.len(),
        useful(trimmed::<W>(fst, threshold), v),
        forall|k: nat|
            (#[trigger] distances_within::<W>(
                prune_model::<W>(fst, threshold).0,
                false,
                k,
            )) is Ok,
    ensures
        forall|k: nat|
            k >= l ==> (#[trigger] within::<W>(prune_model::<W>(fst, threshold).0, false, k))[
                useful_below(trimmed::<W>(fst, threshold), v)
            ] == from_start::<W>(fst)[v],
{
    let g = trimmed::<W>(fst, threshold);
    let out = prune_model::<W>(fst, threshold).0;
    let (from, to) = (from_start::<W>(fst), to_final::<W>(fst));
    let n = fst.states.len() as int;
    let s = fst.start->0 as int;
    lemma_trimmed::<W>(fst, threshold);
    lemma_left_is_sound::<W>(fst, threshold);
    lemma_useful_state(g, n, v);
    lemma_useful_count(g, n);
    let i = useful_below(g, v);
    let f = W::value(from[v]);
    let one = W::value(W::one_model());
    let p = lemma_way_to_place::<W>(fst, threshold, v);
    assert(useful(g, s));
    lemma_useful_state(g, n, s);
    lemma_start_is_near::<W>(fst, from, to);
    assert forall|k: nat| k >= p.len() implies (#[trigger] within::<W>(out, false, k))[i]
        == from[v] by {
        let near = within::<W>(out, false, k)[i];
        let x = W::value(near);
        assert(distances_within::<W>(out, false, k) is Ok);
        lemma_at_most_nothing::<W>(x);
        lemma_at_most_nothing::<W>(f);
        if from[v] != W::zero_model() {
            lemma_from_start_soon::<W>(out, k, p);
        }
        if near != W::zero_model() {
            let q = lemma_from_start_attained::<W>(out, k, i);
            let r = lemma_connect_path_back(g, s, q);
            lemma_path_end(g, s, r);
            lemma_places_differ(g, path_end(s, r), v);
            lemma_path_untrimmed::<W>(fst, threshold, s, r);
            lemma_renumbered_cost::<W>(g, r);
            lemma_from_start_below::<W>(fst, from, s, one, r);
            W::law_product_one(path_cost::<W>(r));
        }
        lemma_at_most_both::<W>(x, f);
        W::law_same(near, from[v]);
    }
    p.len()
}

/// From some length on, the first `n` distances of what is left change no more.
proof fn lemma_left_settles_upto<W: PathWeights>(
    fst: FstM<W::M>,
    threshold: W::M,
    reverse: bool,
    n: int,
) -> (l: nat)
    requires
        prunes::<W>(fst, threshold),
        0 <= n <= prune_model::<W>(fst, threshold).0.states.len(),
        forall|k: nat|
            (#[trigger] distances_within::<W>(
                prune_model::<W>(fst, threshold).0,
                reverse,
                k,
            )) is Ok,
    ensures
        forall|k: nat, i: int|
            k >= l && 0 <= i < n ==> #[trigger] within::<W>(
                prune_model::<W>(fst, threshold).0,
                reverse,
                k,
            )[i] == within::<W>(prune_model::<W>(fst, threshold).0, reverse, l)[i],
    decreases n,
{
    let out = prune_model::<W>(fst, threshold).0;
    if n <= 0 {
        0
    } else {
        let m = lemma_left_settles_upto::<W>(fst, threshold, reverse, n - 1);
        let g = trimmed::<W>(fst, threshold);
        lemma_trimmed::<W>(fst, threshold);
        let v = lemma_connect_state_back(g, n - 1);
        let last = if reverse {
            lemma_to_final_settles::<W>(fst, threshold, v)
        } else {
            lemma_from_start_settles::<W>(fst, threshold, v)
        };
        let l = if m >= last {
            m
        } else {
            last
        };
        assert forall|k: nat, i: int| k >= l && 0 <= i < n implies #[trigger] within::<W>(
            out,
            reverse,
            k,
        )[i] == within::<W>(out, reverse, l)[i] by {
            if i < n - 1 {
                assert(within::<W>(out, reverse, k)[i] == within::<W>(out, reverse, m)[i]);
                assert(within::<W>(out, reverse, l)[i] == within::<W>(out, reverse, m)[i]);
            }
        }
        l
    }
}

/// The distances of what is left after pruning settle, so that it can be pruned again.
pub proof fn law_pruned_distances_settle<W: PathWeights>(
    fst: FstM<W::M>,
    threshold: W::M,
    reverse: bool,
)
    requires
        prunes::<W>(fst, threshold),
    ensures
        settles::<W>(prune_model::<W>(fst, threshold).0, reverse),
{
    let out = prune_model::<W>(fst, threshold).0;
    if forall|k: nat| (#[trigger] distances_within::<W>(out, reverse, k)) is Ok {
        let n = out.states.len() as int;
        lemma_left_is_sound::<W>(fst, threshold);
        let l = lemma_left_settles_upto::<W>(fst, threshold, reverse, n);
        lemma_distances_len::<W>(out, reverse, l);
        lemma_distances_len::<W>(out, reverse, l + 1);
        let (now, next) = (within::<W>(out, reverse, l), within::<W>(out, reverse, l + 1));
        assert(distances_within::<W>(out, reverse, l) is Ok);
        assert(distances_within::<W>(out, reverse, l + 1) is Ok);
        assert(next =~= now);
        assert(settled::<W>(out, reverse, l));
    } else {
        let k = choose|k: nat| !((#[trigger] distances_within::<W>(out, reverse, k)) is Ok);
        assert(settled::<W>(out, reverse, k));
    }
}

/// Transitions that are all within the limit are all put back.
proof fn lemma_put_back_all<W: Semiring>(
    base: FstM<W::M>,
    s: StateId,
    from: W::M,
    to: Seq<W::M>,
    limit: W::M,
    trs: Seq<TrM<W::M>>,
)
    requires
        s < base.states.len(),
        forall|k: int|
            0 <= k < trs.len() ==> through::<W>(from, #[trigger] trs[k], to) is Ok
                && !natural_less_model::<W>(
                limit,
                through::<W>(from, trs[k], to)->Ok_0,
            ),
    ensures
        ({
            let (f, r) = put_back::<W>(base, s, from, to, limit, trs);
            &&& r is Ok
            &&& f == FstM {
                states: base.states.update(
                    s as int,
                    StateM {
                        trs: base.states[s as int].trs + trs,
                        ..base.states[s as int]
                    },
                ),
                properties: f.properties,
                ..base
            }
            &&& base.states[s as int].trs.len() == 0 && list_agrees::<W>(
                lasting(base.properties),
                s,
                trs,
            ) && (trs.len() > 0 ==> settled_flags(lasting(base.properties))) ==> lasting(
                f.properties,
            ) == lasting(base.properties)
        }),
    decreases trs.len(),
{
    let state = base.states[s as int];
    if trs.len() == 0 {
        assert(state.trs + trs =~= state.trs);
        assert(base.states.update(s as int, StateM { trs: state.trs + trs, ..state })
            =~= base.states);
    } else {
        let shorter = trs.drop_last();
        assert forall|k: int| 0 <= k < shorter.len() implies through::<W>(
            from,
            #[trigger] shorter[k],
            to,
        ) is Ok && !natural_less_model::<W>(
            limit,
            through::<W>(from, shorter[k], to)->Ok_0,
        ) by {
            assert(shorter[k] == trs[k]);
        }
        lemma_put_back_all::<W>(base, s, from, to, limit, shorter);
        let c = lasting(base.properties);
        if state.trs.len() == 0 && list_agrees::<W>(c, s, trs) && settled_flags(c) {
            assert forall|j: int| 0 <= j < shorter.len() implies agrees(
                c,
                #[trigger] shape_at::<W>(s, shorter, j),
            ) by {
                assert(shape_at::<W>(s, shorter, j) == shape_at::<W>(
                    s,
                    trs,
                    j,
                ));
            }
            let before = put_back::<W>(base, s, from, to, limit, shorter).0;
            assert(before.states[s as int].trs =~= trs.take(trs.len() - 1));
            lemma_added_agrees::<W>(before, s, trs, trs.len() - 1);
        }
        assert(trs[trs.len() - 1] == trs.last());
        let f = put_back::<W>(base, s, from, to, limit, trs).0;
        assert((state.trs + shorter).push(trs.last()) =~= state.trs + trs);
        assert(f.states =~= base.states.update(
            s as int,
            StateM { trs: state.trs + trs, ..state },
        ));
    }
}

/// Where nothing is beyond the limit, nothing is removed.
proof fn lemma_nothing_removed<W: Semiring>(
    fst: FstM<W::M>,
    from: Seq<W::M>,
    to: Seq<W::M>,
    limit: W::M,
    n: int,
)
    requires
        0 <= n <= fst.states.len() <= u32::MAX,
        from.len() == fst.states.len(),
        forall|v: int, k: int|
            0 <= v < fst.states.len() && 0 <= k < fst.states[v].trs.len() ==> through::<
                W,
            >(from[v], #[trigger] fst.states[v].trs[k], to) is Ok && !natural_less_model::<
                W,
            >(
                limit,
                through::<W>(from[v], fst.states[v].trs[k], to)->Ok_0,
            ),
        forall|v: int|
            0 <= v < fst.states.len() ==> ((#[trigger] fst.states[v]).final_weight matches Some(w)
                ==> W::times_model(from[v], w) is Ok && !natural_less_model::<
                W,
            >(limit, W::times_model(from[v], w)->Ok_0)),
    ensures
        ({
            let (f, r) = prune_states::<W>(fst, from, to, limit, n);
            &&& r is Ok
            &&& f == FstM { properties: f.properties, ..fst }
            &&& flags_hold::<W>(fst, fst.states.len() as int) ==> lasting(
                f.properties,
            ) == lasting(fst.properties)
        }),
    decreases n,
{
    if n > 0 {
        lemma_nothing_removed::<W>(fst, from, to, limit, n - 1);
        let before = prune_states::<W>(fst, from, to, limit, n - 1).0;
        let v = n - 1;
        let s = v as StateId;
        let state = fst.states[v];
        let base = without_trs(before, s);
        assert(distance_at::<W>(from, s) == from[v]);
        assert(prune_final::<W>(before, s, from[v], limit) == (
            before,
            Ok::<(), FstError>(()),
        ));
        assert forall|k: int| 0 <= k < state.trs.len() implies through::<W>(
            from[v],
            #[trigger] state.trs[k],
            to,
        ) is Ok && !natural_less_model::<W>(
            limit,
            through::<W>(from[v], state.trs[k], to)->Ok_0,
        ) by {
            assert(fst.states[v].trs[k] == state.trs[k]);
        }
        lemma_put_back_all::<W>(base, s, from[v], to, limit, state.trs);
        lemma_without_trs_flags(before, s);
        assert(fst.states[v] == state);
        let f = prune_states::<W>(fst, from, to, limit, n).0;
        assert(Seq::<TrM<W::M>>::empty() + state.trs =~= state.trs);
        assert(f.states =~= fst.states);
    }
}

/// A path leads to states that are reached.
proof fn lemma_path_accessible<M>(fst: FstM<M>, s: int, path: Seq<TrM<M>>)
    requires
        is_path(fst, s, path),
        accessible(fst, s),
    ensures
        accessible(fst, path_end(s, path)),
    decreases path.len(),
{
    if path.len() > 0 {
        lemma_path_end(fst, s, path);
        lemma_step_accessible(fst, s, path[0]);
        lemma_path_accessible(fst, path[0].nextstate as int, path.drop_first());
    }
}

/// Machines with the same states have the same paths.
proof fn lemma_same_paths<M>(a: FstM<M>, b: FstM<M>, s: int, path: Seq<TrM<M>>)
    requires
        a.states == b.states,
        is_path(a, s, path),
    ensures
        is_path(b, s, path),
    decreases path.len(),
{
    if path.len() > 0 {
        lemma_same_paths(a, b, path[0].nextstate as int, path.drop_first());
    }
}

/// A machine without useless states stays as it is when they are removed.
proof fn lemma_all_useful<M>(fst: FstM<M>, n: int)
    requires
        closed_machine(fst),
        0 <= n <= fst.states.len() <= u32::MAX,
        forall|v: int| 0 <= v < fst.states.len() ==> #[trigger] useful(fst, v),
    ensures
        useful_below(fst, n) == n,
        useful_states(fst, n) == fst.states.take(n),
    decreases n,
{
    if n > 0 {
        lemma_all_useful(fst, n - 1);
        assert(useful(fst, n - 1));
        let trs = fst.states[n - 1].trs;
        assert forall|k: int| 0 <= k < trs.len() implies (#[trigger] trs[k]).nextstate
            < fst.states.len() by {
            assert(fst.states[n - 1].trs[k].nextstate < fst.states.len());
        }
        lemma_all_useful_trs(fst, trs);
        assert(useful_states(fst, n) =~= fst.states.take(n));
    } else {
        assert(useful_states(fst, n) =~= fst.states.take(n));
    }
}

proof fn lemma_all_below<M>(fst: FstM<M>, n: int)
    requires
        0 <= n <= fst.states.len(),
        forall|v: int| 0 <= v < fst.states.len() ==> #[trigger] useful(fst, v),
    ensures
        useful_below(fst, n) == n,
    decreases n,
{
    if n > 0 {
        lemma_all_below(fst, n - 1);
        assert(useful(fst, n - 1));
    }
}

proof fn lemma_all_useful_trs<M>(fst: FstM<M>, trs: Seq<TrM<M>>)
    requires
        fst.states.len() <= u32::MAX,
        forall|v: int| 0 <= v < fst.states.len() ==> #[trigger] useful(fst, v),
        forall|k: int| 0 <= k < trs.len() ==> (#[trigger] trs[k]).nextstate < fst.states.len(),
    ensures
        useful_trs(fst, trs) == trs,
    decreases trs.len(),
{
    if trs.len() > 0 {
        let shorter = trs.drop_last();
        assert forall|k: int| 0 <= k < shorter.len() implies (#[trigger] shorter[k]).nextstate
            < fst.states.len() by {
            assert(shorter[k] == trs[k]);
        }
        lemma_all_useful_trs(fst, shorter);
        assert(trs[trs.len() - 1] == trs.last());
        let v = trs.last().nextstate as int;
        assert(useful(fst, v));
        lemma_all_below(fst, v);
        assert(useful_trs(fst, trs) =~= trs);
    } else {
        assert(useful_trs(fst, trs) =~= trs);
    }
}

/// Every state that is left is useful.
proof fn lemma_left_is_useful<W: PathWeights>(
    fst: FstM<W::M>,
    threshold: W::M,
    f: FstM<W::M>,
    i: int,
)
    requires
        prunes::<W>(fst, threshold),
        f.states == prune_model::<W>(fst, threshold).0.states,
        f.start == prune_model::<W>(fst, threshold).0.start,
        0 <= i < f.states.len(),
    ensures
        useful(f, i),
{
    let g = trimmed::<W>(fst, threshold);
    let out = prune_model::<W>(fst, threshold).0;
    lemma_trimmed::<W>(fst, threshold);
    let v = lemma_connect_state_back(g, i);
    let p = lemma_way_to_place::<W>(fst, threshold, v);
    let s = out.start->0 as int;
    lemma_same_paths(out, f, s, p);
    lemma_start_accessible(f);
    lemma_path_accessible(f, s, p);
    let on = choose|n: nat| (#[trigger] coaccessible_within(g, n)).contains(v);
    let after = lemma_coaccessible_path(g, v, on);
    lemma_connect_path(g, v, after);
    let q = renumbered_path(g, after);
    lemma_same_paths(out, f, i, q);
    lemma_path_coaccessible(f, i, q);
}

/// What is left is within the limit.
proof fn lemma_left_is_within<W: PathWeights>(fst: FstM<W::M>, threshold: W::M)
    requires
        prunes::<W>(fst, threshold),
        settles::<W>(prune_model::<W>(fst, threshold).0, true),
        settles::<W>(prune_model::<W>(fst, threshold).0, false),
        distances::<W>(prune_model::<W>(fst, threshold).0, true) is Ok,
        distances::<W>(prune_model::<W>(fst, threshold).0, false) is Ok,
    ensures
        ({
            let out = prune_model::<W>(fst, threshold).0;
            let limit = prune_limit::<W>(fst, threshold);
            let (f, r) = prune_states::<W>(
                out,
                from_start::<W>(out),
                to_final::<W>(out),
                limit,
                out.states.len() as int,
            );
            &&& r is Ok
            &&& f == FstM { properties: f.properties, ..out }
            &&& lasting(f.properties) == lasting(out.properties)
        }),
{
    let g = trimmed::<W>(fst, threshold);
    let out = prune_model::<W>(fst, threshold).0;
    let (from, to) = (from_start::<W>(out), to_final::<W>(out));
    let limit = prune_limit::<W>(fst, threshold);
    lemma_trimmed::<W>(fst, threshold);
    lemma_left_is_sound::<W>(fst, threshold);
    lemma_stable::<W>(out);
    assert forall|i: int, k: int|
        0 <= i < out.states.len() && 0 <= k < out.states[i].trs.len() implies through::<
        W,
    >(from[i], #[trigger] out.states[i].trs[k], to) is Ok && !natural_less_model::<
        W,
    >(limit, through::<W>(from[i], out.states[i].trs[k], to)->Ok_0) by {
        let (v, tr) = lemma_connect_tr_back(g, i, k);
        let u = tr.nextstate as int;
        lemma_distances_stay::<W>(fst, threshold, v);
        lemma_distances_stay::<W>(fst, threshold, u);
        assert(kept_at::<W>(
            fst,
            g,
            v,
            from_start::<W>(fst)[v],
            to_final::<W>(fst),
            limit,
        ));
        assert(g.states[v].trs.contains(tr));
        assert(fst.states[v].trs.contains(tr));
        assert(through::<W>(from[i], out.states[i].trs[k], to) == through::<
            W,
        >(from_start::<W>(fst)[v], tr, to_final::<W>(fst)));
    }
    assert forall|i: int| 0 <= i < out.states.len() implies ((
    #[trigger] out.states[i]).final_weight matches Some(w) ==> W::times_model(
        from[i],
        w,
    ) is Ok && !natural_less_model::<W>(
        limit,
        W::times_model(from[i], w)->Ok_0,
    )) by {
        let v = lemma_connect_state_back(g, i);
        lemma_distances_stay::<W>(fst, threshold, v);
        assert(kept_at::<W>(
            fst,
            g,
            v,
            from_start::<W>(fst)[v],
            to_final::<W>(fst),
            limit,
        ));
    }
    lemma_prune_flags::<W>(
        fst,
        from_start::<W>(fst),
        to_final::<W>(fst),
        limit,
        fst.states.len() as int,
    );
    lemma_connect_flags::<W>(g);
    lemma_nothing_removed::<W>(out, from, to, limit, out.states.len() as int);
}

/// Pruning twice is pruning once: what is left can be pruned again, and a second time
/// with the same threshold pruning succeeds and leaves the machine as it is. The
/// distances of what is left have to fit the representation.
pub proof fn law_prune_twice_is_once<W: PathWeights>(fst: FstM<W::M>, threshold: W::M)
    requires
        closed_machine(fst),
        fst.states.len() <= u32::MAX,
        fst.start is Some ==> settles::<W>(fst, true) && settles::<W>(fst, false),
        prune_model::<W>(fst, threshold).1 is Ok,
        distances::<W>(prune_model::<W>(fst, threshold).0, true) is Ok,
        distances::<W>(prune_model::<W>(fst, threshold).0, false) is Ok,
    ensures
        ({
            let once = prune_model::<W>(fst, threshold).0;
            &&& closed_machine(once)
            &&& once.states.len() <= u32::MAX
            &&& once.start is Some ==> settles::<W>(once, true) && settles::<W>(once, false)
            &&& prune_model::<W>(once, threshold) == (once, Ok::<(), FstError>(()))
        }),
{
    let once = prune_model::<W>(fst, threshold).0;
    if prunes::<W>(fst, threshold) {
        lemma_left_is_sound::<W>(fst, threshold);
        law_pruned_distances_settle::<W>(fst, threshold, true);
        law_pruned_distances_settle::<W>(fst, threshold, false);
    }
    if prunes::<W>(fst, threshold) && once.states.len() > 0 {
        let g = trimmed::<W>(fst, threshold);
        let n = fst.states.len() as int;
        let s = fst.start->0 as int;
        lemma_trimmed::<W>(fst, threshold);
        lemma_left_is_sound::<W>(fst, threshold);
        let v = lemma_connect_state_back(g, 0);
        let p = lemma_way_to_place::<W>(fst, threshold, v);
        assert(useful(g, s));
        lemma_useful_state(g, n, s);
        lemma_useful_count(g, n);
        lemma_distances_stay::<W>(fst, threshold, s);
        assert(once.start == Some(useful_below(g, s) as StateId));
        assert(prune_limit::<W>(once, threshold) == prune_limit::<W>(fst, threshold));
        lemma_left_is_within::<W>(fst, threshold);
        let f = prune_states::<W>(
            once,
            from_start::<W>(once),
            to_final::<W>(once),
            prune_limit::<W>(fst, threshold),
            once.states.len() as int,
        ).0;
        assert forall|i: int| 0 <= i < f.states.len() implies #[trigger] useful(f, i) by {
            lemma_left_is_useful::<W>(fst, threshold, f, i);
        }
        lemma_all_useful(f, f.states.len() as int);
        assert(f.states.take(f.states.len() as int) =~= f.states);
        lemma_all_below(f, f.start->0 as int);
        lemma_lasting_again(g.properties.bits);
        assert(connect_model(f) == once);
    }
}

proof fn lemma_lasting_again(bits: u64)
    by (bit_vector)
    ensures
        ((bits & DELETE_STATES_KEEPS) | (ACCESSIBLE | COACCESSIBLE)) & DELETE_STATES_KEEPS == bits
            & DELETE_STATES_KEEPS,
{
}

/// The best weight stays: unless the threshold is better than nothing, some path from the
/// start to a final state of what is left has the weight of the best path of the machine,
/// and none is better.
pub proof fn law_prune_keeps_best_weight<W: PathWeights>(fst: FstM<W::M>, threshold: W::M)
    requires
        prunes::<W>(fst, threshold),
        !natural_less_model::<W>(threshold, W::one_model()),
    ensures
        ({
            let out = prune_model::<W>(fst, threshold).0;
            let best = W::value(best_weight::<W>(fst));
            &&& exists|p: Seq<TrM<W::M>>, w: W::M|
                #[trigger] accepting_path(out, p, w) && total_cost::<W>(p, w) == best
            &&& forall|p: Seq<TrM<W::M>>, w: W::M| #[trigger]
                accepting_path(out, p, w) ==> at_most::<W>(best, total_cost::<W>(p, w))
        }),
{
    let out = prune_model::<W>(fst, threshold).0;
    let g = trimmed::<W>(fst, threshold);
    let best = W::value(best_weight::<W>(fst));
    lemma_trimmed::<W>(fst, threshold);
    law_prune_best_is_attained::<W>(fst, threshold);
    let (path, w) = choose|path: Seq<TrM<W::M>>, w: W::M|
        #[trigger] accepting_path(fst, path, w) && total_cost::<W>(path, w) == best;
    // The limit is no better than the best weight.
    lemma_natural_order::<W>(threshold, W::one_model());
    lemma_at_most_product::<W>(W::value(W::one_model()), W::value(threshold), best);
    W::law_product_one(best);
    W::law_times(best_weight::<W>(fst), threshold);
    law_prune_keeps_good_paths::<W>(fst, threshold, path, w);
    let p = choose|p: Seq<TrM<W::M>>| #[trigger] accepting_path(out, p, w) && alike(path, p);
    lemma_cost_alike::<W>(path, p);
    assert(accepting_path(out, p, w) && total_cost::<W>(p, w) == best);
    assert forall|q: Seq<TrM<W::M>>, x: W::M| #[trigger]
        accepting_path(out, q, x) implies at_most::<W>(best, total_cost::<W>(q, x)) by {
        law_connect_adds_no_path(g, q, x);
        let r = choose|r: Seq<TrM<W::M>>|
            #[trigger] accepting_path(g, r, x) && q == renumbered_path(g, r);
        lemma_path_untrimmed::<W>(fst, threshold, fst.start->0 as int, r);
        lemma_renumbered_cost::<W>(g, r);
        law_prune_measures_from_best::<W>(fst, threshold, r, x);
    }
}

} // verus!
