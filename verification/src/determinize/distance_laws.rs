//! What the distances of a determinized automaton are.

use crate::determinize::determinize_fsa::det_compute;
use crate::determinize::determinize_fsa_op::{expand_pairs, final_or_zero, ExpandM};
use crate::determinize::determinize_static::with_distance_model;
use crate::determinize::divisors::{CommonDivisor, DefaultCommonDivisor};
use crate::determinize::element::ElementM;
use crate::determinize::laws::{
    accept_by, accept_from, law_determinize_fsa_has_distances, lemma_det_accepts, lemma_det_output,
    stands_for, subset_accept, written_for,
};
use crate::determinize::state_table::{distance_of, subset_distance, TableM};
use crate::error::FstError;
use crate::fst::tr::{Label, StateId, TrM};
use crate::fst::vector_fst::FstM;
use crate::lazy::laws::closed_machine;
use crate::semirings::laws::{exact_step, ExactDivision, SelectiveSum, SemiringLaws};
use crate::semirings::semiring::Semiring;
use crate::semirings::series::no_value;
use crate::shortest_distance::{
    distances, distances_within, gather, gather_trs, lemma_distances_len, lemma_settled, settled,
    settles,
};
use vstd::prelude::*;

verus! {

/// `d` is the distance from a state to the final states: no string is accepted with a
/// better weight, and one is accepted with this weight, unless none is accepted at all.
pub open spec fn is_distance<W: SemiringLaws>(fst: FstM<W::M>, q: StateId, d: W::V) -> bool {
    &&& forall|x: Seq<Label>| W::sum(d, #[trigger] accept_from::<W>(fst, q, x)) == d
    &&& d == no_value::<W>() || exists|x: Seq<Label>| #[trigger] accept_from::<W>(fst, q, x) == d
}

/// The states of a subset that was expanded exist.
proof fn lemma_members_exist<W: Semiring, CD: CommonDivisor<W>>(
    fst: FstM<W::M>,
    t: TableM<W::M>,
    pairs: Seq<ElementM<W::M>>,
)
    requires
        expand_pairs::<W, CD>(fst, t, pairs) is Ok,
    ensures
        forall|i: int| 0 <= i < pairs.len() ==> fst.has_state((#[trigger] pairs[i]).state),
    decreases pairs.len(),
{
    if pairs.len() > 0 {
        lemma_members_exist::<W, CD>(fst, t, pairs.drop_last());
        assert forall|i: int| 0 <= i < pairs.len() implies fst.has_state(
            (#[trigger] pairs[i]).state,
        ) by {
            if i < pairs.len() - 1 {
                assert(fst.has_state(pairs.drop_last()[i].state));
            }
        }
    }
}

/// The distance of every member of the subset is known.
spec fn members_at_distance<W: SemiringLaws>(
    fst: FstM<W::M>,
    pairs: Seq<ElementM<W::M>>,
    in_dist: Seq<W::M>,
) -> bool {
    forall|i: int|
        0 <= i < pairs.len() ==> is_distance::<W>(
            fst,
            (#[trigger] pairs[i]).state,
            W::value(distance_of::<W>(in_dist, pairs[i].state)),
        )
}

/// (a + b) + (c + d) = (a + c) + (b + d)
proof fn lemma_sum_pairs<W: SemiringLaws>(a: W::V, b: W::V, c: W::V, d: W::V)
    ensures
        W::sum(W::sum(a, b), W::sum(c, d)) == W::sum(W::sum(a, c), W::sum(b, d)),
{
    W::law_sum_associative(a, b, W::sum(c, d));
    W::law_sum_associative(b, c, d);
    W::law_sum_commutative(b, c);
    W::law_sum_associative(c, b, d);
    W::law_sum_associative(a, c, W::sum(b, d));
}

/// A subset accepts nothing with a better weight than its distance.
proof fn lemma_distance_bounds<W: SelectiveSum>(
    fst: FstM<W::M>,
    pairs: Seq<ElementM<W::M>>,
    in_dist: Seq<W::M>,
    x: Seq<Label>,
)
    requires
        members_at_distance::<W>(fst, pairs, in_dist),
    ensures
        subset_distance::<W>(pairs, in_dist) matches Ok(d) ==> W::sum(
            W::value(d),
            subset_accept::<W>(fst, pairs, x),
        ) == W::value(d),
    decreases pairs.len(),
{
    W::law_sum_zero(no_value::<W>());
    if pairs.len() > 0 {
        let shorter = pairs.drop_last();
        assert forall|i: int| 0 <= i < shorter.len() implies is_distance::<W>(
            fst,
            (#[trigger] shorter[i]).state,
            W::value(distance_of::<W>(in_dist, shorter[i].state)),
        ) by {
            assert(shorter[i] == pairs[i]);
        }
        lemma_distance_bounds::<W>(fst, shorter, in_dist, x);
        let last = pairs[pairs.len() - 1];
        let far = distance_of::<W>(in_dist, last.state);
        if let Ok(sum) = subset_distance::<W>(shorter, in_dist) {
            if let Ok(through) = W::times_model(last.weight, far) {
                W::law_plus(sum, through);
                W::law_times(last.weight, far);
                let w = W::value(last.weight);
                let accepted = accept_from::<W>(fst, last.state, x);
                W::law_distributive(w, W::value(far), accepted);
                lemma_sum_pairs::<W>(
                    W::value(sum),
                    W::value(through),
                    subset_accept::<W>(fst, shorter, x),
                    W::product(w, accepted),
                );
            }
        }
    }
}

/// What a member accepts is part of what the subset accepts.
proof fn lemma_subset_absorbs_member<W: SelectiveSum>(
    fst: FstM<W::M>,
    pairs: Seq<ElementM<W::M>>,
    k: int,
    x: Seq<Label>,
)
    requires
        0 <= k < pairs.len(),
    ensures
        W::sum(
            subset_accept::<W>(fst, pairs, x),
            W::product(W::value(pairs[k].weight), accept_from::<W>(fst, pairs[k].state, x)),
        ) == subset_accept::<W>(fst, pairs, x),
    decreases pairs.len(),
{
    let last = pairs.last();
    let before = subset_accept::<W>(fst, pairs.drop_last(), x);
    let term = W::product(W::value(last.weight), accept_from::<W>(fst, last.state, x));
    if k == pairs.len() - 1 {
        W::law_sum_associative(before, term, term);
        W::law_sum_selects(term, term);
    } else {
        lemma_subset_absorbs_member::<W>(fst, pairs.drop_last(), k, x);
        let part = W::product(W::value(pairs[k].weight), accept_from::<W>(fst, pairs[k].state, x));
        W::law_sum_associative(before, term, part);
        W::law_sum_commutative(term, part);
        W::law_sum_associative(before, part, term);
    }
}

/// The distance of a subset is that of one of its members, its weight included.
proof fn lemma_distance_member<W: SelectiveSum>(
    pairs: Seq<ElementM<W::M>>,
    in_dist: Seq<W::M>,
) -> (k: int)
    requires
        subset_distance::<W>(pairs, in_dist) is Ok,
        W::value(subset_distance::<W>(pairs, in_dist)->Ok_0) != no_value::<W>(),
    ensures
        0 <= k < pairs.len(),
        W::value(subset_distance::<W>(pairs, in_dist)->Ok_0) == W::product(
            W::value(pairs[k].weight),
            W::value(distance_of::<W>(in_dist, pairs[k].state)),
        ),
    decreases pairs.len(),
{
    let n = pairs.len() - 1;
    let last = pairs[n];
    let far = distance_of::<W>(in_dist, last.state);
    let sum = subset_distance::<W>(pairs.drop_last(), in_dist)->Ok_0;
    let through = W::times_model(last.weight, far)->Ok_0;
    W::law_plus(sum, through);
    W::law_times(last.weight, far);
    W::law_sum_selects(W::value(sum), W::value(through));
    if W::value(subset_distance::<W>(pairs, in_dist)->Ok_0) == W::value(through) {
        n
    } else {
        lemma_distance_member::<W>(pairs.drop_last(), in_dist)
    }
}

/// When the given distances are those of the states of an automaton, what comes back
/// are the distances of the states of its determinization. Rounding must not change
/// weights.
pub proof fn law_determinize_with_distance_gives_distances<W: ExactDivision + SelectiveSum>(
    fst: FstM<W::M>,
    in_dist: Seq<W::M>,
    delta: W::Delta,
)
    requires
        exact_step::<W>(delta),
        forall|q: StateId|
            fst.has_state(q) ==> #[trigger] is_distance::<W>(
                fst,
                q,
                W::value(distance_of::<W>(in_dist, q)),
            ),
    ensures
        with_distance_model::<W>(fst, in_dist, delta) matches Ok((out, dist)) ==> {
            &&& dist.len() == out.states.len()
            &&& forall|s: StateId|
                s < out.states.len() ==> #[trigger] is_distance::<W>(
                    out,
                    s,
                    W::value(dist[s as int]),
                )
        },
{
    if let Ok((out, dist)) = with_distance_model::<W>(fst, in_dist, delta) {
        lemma_det_output::<W, DefaultCommonDivisor>(fst, Some(in_dist), delta, None);
        law_determinize_fsa_has_distances::<W, DefaultCommonDivisor>(fst, in_dist, delta, None);
        let (l, r) = det_compute::<W, DefaultCommonDivisor>(fst, Some(in_dist), delta, None);
        assert forall|s: StateId| s < out.states.len() implies #[trigger] is_distance::<W>(
            out,
            s,
            W::value(dist[s as int]),
        ) by {
            let pairs = l.op.table.tuples[s as int].pairs;
            let d = W::value(dist[s as int]);
            assert(l.op.table.out_dist[s as int] is Some);
            assert(subset_distance::<W>(pairs, in_dist) is Ok);
            let state = out.states[s as int];
            assert(written_for::<W, DefaultCommonDivisor>(l.op, s, state));
            let (t, e) = choose|t: TableM<W::M>, e: ExpandM<W::M>| #[trigger]
                stands_for::<W, DefaultCommonDivisor>(l.op, t, e, s, state);
            lemma_members_exist::<W, DefaultCommonDivisor>(fst, t, pairs);
            assert(members_at_distance::<W>(fst, pairs, in_dist));
            assert forall|x: Seq<Label>|
                W::sum(d, #[trigger] accept_from::<W>(out, s, x)) == d by {
                lemma_det_accepts::<W, DefaultCommonDivisor>(
                    fst,
                    Some(in_dist),
                    delta,
                    None,
                    s,
                    x,
                );
                lemma_distance_bounds::<W>(fst, pairs, in_dist, x);
            }
            if d != no_value::<W>() {
                let k = lemma_distance_member::<W>(pairs, in_dist);
                let far = W::value(distance_of::<W>(in_dist, pairs[k].state));
                assert(is_distance::<W>(fst, pairs[k].state, far));
                W::law_product_zero(W::value(pairs[k].weight));
                let x = choose|x: Seq<Label>| #[trigger]
                    accept_from::<W>(fst, pairs[k].state, x) == far;
                lemma_det_accepts::<W, DefaultCommonDivisor>(
                    fst,
                    Some(in_dist),
                    delta,
                    None,
                    s,
                    x,
                );
                lemma_subset_absorbs_member::<W>(fst, pairs, k, x);
                let accepted = accept_from::<W>(out, s, x);
                assert(W::sum(d, accepted) == d);
                W::law_sum_commutative(d, accepted);
                assert(accept_from::<W>(out, s, x) == d);
            }
        }
    }
}

/// The same for strings of at most `k` labels.
spec fn is_distance_within<W: SemiringLaws>(
    fst: FstM<W::M>,
    q: StateId,
    d: W::V,
    k: nat,
) -> bool {
    &&& forall|x: Seq<Label>|
        x.len() <= k ==> W::sum(d, #[trigger] accept_from::<W>(fst, q, x)) == d
    &&& d == no_value::<W>() || exists|x: Seq<Label>|
        x.len() <= k && #[trigger] accept_from::<W>(fst, q, x) == d
}

/// The distances of all states within `k` labels.
spec fn all_distances_within<W: SemiringLaws>(fst: FstM<W::M>, dist: Seq<W::M>, k: nat) -> bool {
    &&& dist.len() == fst.states.len()
    &&& forall|q: StateId|
        fst.has_state(q) ==> #[trigger] is_distance_within::<W>(
            fst,
            q,
            W::value(dist[q as int]),
            k,
        )
}

/// No string is accepted over the transitions with a better weight than is gathered.
proof fn lemma_gather_bounds<W: SelectiveSum>(
    fst: FstM<W::M>,
    sum: W::M,
    dist: Seq<W::M>,
    trs: Seq<TrM<W::M>>,
    k: nat,
    x: Seq<Label>,
)
    requires
        all_distances_within::<W>(fst, dist, k),
        forall|i: int| 0 <= i < trs.len() ==> fst.has_state((#[trigger] trs[i]).nextstate),
        0 < x.len() <= k + 1,
    ensures
        gather_trs::<W>(sum, dist, trs) matches Ok(g) ==> W::sum(
            W::value(g),
            accept_by::<W>(fst, trs, x),
        ) == W::value(g),
    decreases trs.len(),
{
    let nothing = no_value::<W>();
    if trs.len() == 0 {
        W::law_sum_zero(W::value(sum));
        W::law_sum_commutative(W::value(sum), nothing);
    } else {
        let shorter = trs.drop_last();
        assert forall|i: int| 0 <= i < shorter.len() implies fst.has_state(
            (#[trigger] shorter[i]).nextstate,
        ) by {
            assert(shorter[i] == trs[i]);
        }
        lemma_gather_bounds::<W>(fst, sum, dist, shorter, k, x);
        let tr = trs[trs.len() - 1];
        assert(fst.has_state(tr.nextstate));
        let far = dist[tr.nextstate as int];
        if let Ok(before) = gather_trs::<W>(sum, dist, shorter) {
            if let Ok(through) = W::times_model(tr.weight, far) {
                W::law_times(tr.weight, far);
                W::law_plus(before, through);
                let others = accept_by::<W>(fst, shorter, x);
                let (b, t) = (W::value(before), W::value(through));
                if tr.ilabel == x[0] {
                    let rest = x.drop_first();
                    let accepted = accept_from::<W>(fst, tr.nextstate, rest);
                    assert(is_distance_within::<W>(fst, tr.nextstate, W::value(far), k));
                    W::law_distributive(W::value(tr.weight), W::value(far), accepted);
                    lemma_sum_pairs::<W>(
                        b,
                        t,
                        others,
                        W::product(W::value(tr.weight), accepted),
                    );
                } else {
                    W::law_sum_associative(b, t, others);
                    W::law_sum_commutative(t, others);
                    W::law_sum_associative(b, others, t);
                }
            }
        }
    }
}

/// What is gathered comes from the beginning or from one of the transitions.
proof fn lemma_gather_member<W: SelectiveSum>(
    sum: W::M,
    dist: Seq<W::M>,
    trs: Seq<TrM<W::M>>,
) -> (k: int)
    requires
        gather_trs::<W>(sum, dist, trs) is Ok,
    ensures
        -1 <= k < trs.len(),
        ({
            let g = W::value(gather_trs::<W>(sum, dist, trs)->Ok_0);
            &&& W::sum(g, W::value(sum)) == g
            &&& g == (if k < 0 {
                W::value(sum)
            } else {
                W::product(W::value(trs[k].weight), W::value(dist[trs[k].nextstate as int]))
            })
        }),
    decreases trs.len(),
{
    let s = W::value(sum);
    if trs.len() == 0 {
        W::law_sum_selects(s, s);
        -1
    } else {
        let n = trs.len() - 1;
        let tr = trs[n];
        let j = lemma_gather_member::<W>(sum, dist, trs.drop_last());
        let before = gather_trs::<W>(sum, dist, trs.drop_last())->Ok_0;
        let far = dist[tr.nextstate as int];
        let through = W::times_model(tr.weight, far)->Ok_0;
        let (b, t) = (W::value(before), W::value(through));
        W::law_times(tr.weight, far);
        W::law_plus(before, through);
        W::law_sum_selects(b, t);
        W::law_sum_associative(b, t, s);
        W::law_sum_commutative(t, s);
        W::law_sum_associative(b, s, t);
        if W::value(gather_trs::<W>(sum, dist, trs)->Ok_0) == t {
            n
        } else {
            j
        }
    }
}

/// What one transition accepts is part of what all accept.
proof fn lemma_accept_absorbs_tr<W: SelectiveSum>(
    fst: FstM<W::M>,
    trs: Seq<TrM<W::M>>,
    k: int,
    x: Seq<Label>,
)
    requires
        0 <= k < trs.len(),
        x.len() > 0,
        trs[k].ilabel == x[0],
    ensures
        W::sum(
            accept_by::<W>(fst, trs, x),
            W::product(
                W::value(trs[k].weight),
                accept_from::<W>(fst, trs[k].nextstate, x.drop_first()),
            ),
        ) == accept_by::<W>(fst, trs, x),
    decreases trs.len(),
{
    let last = trs.last();
    let before = accept_by::<W>(fst, trs.drop_last(), x);
    let term = W::product(
        W::value(last.weight),
        accept_from::<W>(fst, last.nextstate, x.drop_first()),
    );
    if k == trs.len() - 1 {
        W::law_sum_associative(before, term, term);
        W::law_sum_selects(term, term);
    } else {
        lemma_accept_absorbs_tr::<W>(fst, trs.drop_last(), k, x);
        let part = W::product(
            W::value(trs[k].weight),
            accept_from::<W>(fst, trs[k].nextstate, x.drop_first()),
        );
        W::law_sum_associative(before, term, part);
        W::law_sum_commutative(term, part);
        W::law_sum_associative(before, part, term);
    }
}

proof fn lemma_gather_at<W: Semiring>(fst: FstM<W::M>, dist: Seq<W::M>, n: int, v: int)
    requires
        0 <= v < n,
        gather::<W>(fst, dist, n) is Ok,
    ensures
        gather::<W>(fst, dist, n)->Ok_0.len() == n,
        gather_trs::<W>(
            final_or_zero::<W>(fst.states[v].final_weight),
            dist,
            fst.states[v].trs,
        ) == Ok::<W::M, FstError>(gather::<W>(fst, dist, n)->Ok_0[v]),
    decreases n,
{
    if n > 1 {
        if v < n - 1 {
            lemma_gather_at::<W>(fst, dist, n - 1, v);
        } else {
            lemma_gather_at::<W>(fst, dist, n - 1, 0);
        }
    } else {
        assert(gather::<W>(fst, dist, 0) == Ok::<Seq<W::M>, FstError>(Seq::empty()));
    }
}

/// The distances over at most `k` transitions are the distances within `k` labels.
proof fn lemma_distances_within<W: SelectiveSum>(fst: FstM<W::M>, k: nat)
    requires
        closed_machine(fst),
    ensures
        distances_within::<W>(fst, true, k) matches Ok(dist) ==> all_distances_within::<W>(
            fst,
            dist,
            k,
        ),
    decreases k,
{
    if let Ok(dist) = distances_within::<W>(fst, true, k) {
        if k > 0 {
            lemma_distances_within::<W>(fst, (k - 1) as nat);
        }
        lemma_distances_len::<W>(fst, true, k);
        assert forall|q: StateId| fst.has_state(q) implies #[trigger] is_distance_within::<W>(
            fst,
            q,
            W::value(dist[q as int]),
            k,
        ) by {
            let d = W::value(dist[q as int]);
            let state = fst.states[q as int];
            let empty = Seq::<Label>::empty();
            if k == 0 {
                assert forall|x: Seq<Label>| x.len() <= k implies W::sum(
                    d,
                    #[trigger] accept_from::<W>(fst, q, x),
                ) == d by {
                    W::law_sum_selects(d, d);
                }
                assert(accept_from::<W>(fst, q, empty) == d);
            } else {
                let m = (k - 1) as nat;
                let prev = distances_within::<W>(fst, true, m)->Ok_0;
                let own = final_or_zero::<W>(state.final_weight);
                lemma_gather_at::<W>(fst, prev, fst.states.len() as int, q as int);
                assert forall|i: int| 0 <= i < state.trs.len() implies fst.has_state(
                    (#[trigger] state.trs[i]).nextstate,
                ) by {
                    assert(fst.states[q as int].trs[i].nextstate < fst.states.len());
                }
                let j = lemma_gather_member::<W>(own, prev, state.trs);
                assert forall|x: Seq<Label>| x.len() <= k implies W::sum(
                    d,
                    #[trigger] accept_from::<W>(fst, q, x),
                ) == d by {
                    if x.len() > 0 {
                        lemma_gather_bounds::<W>(fst, own, prev, state.trs, m, x);
                    }
                }
                if j < 0 {
                    assert(accept_from::<W>(fst, q, empty) == d);
                } else if d != no_value::<W>() {
                    let tr = state.trs[j];
                    let far = W::value(prev[tr.nextstate as int]);
                    assert(is_distance_within::<W>(fst, tr.nextstate, far, m));
                    W::law_product_zero(W::value(tr.weight));
                    let rest = choose|x: Seq<Label>|
                        x.len() <= m && #[trigger] accept_from::<W>(fst, tr.nextstate, x) == far;
                    let x = seq![tr.ilabel] + rest;
                    assert(x.drop_first() =~= rest);
                    lemma_accept_absorbs_tr::<W>(fst, state.trs, j, x);
                    let accepted = accept_from::<W>(fst, q, x);
                    assert(W::sum(d, accepted) == d);
                    W::law_sum_commutative(d, accepted);
                    assert(accept_from::<W>(fst, q, x) == d);
                }
            }
        }
    }
}

/// The settled distances to the final states are the distances of the states.
pub proof fn law_reverse_distances_are_distances<W: SelectiveSum>(fst: FstM<W::M>)
    requires
        closed_machine(fst),
        settles::<W>(fst, true),
    ensures
        distances::<W>(fst, true) matches Ok(dist) ==> {
            &&& dist.len() == fst.states.len()
            &&& forall|q: StateId|
                fst.has_state(q) ==> #[trigger] is_distance::<W>(
                    fst,
                    q,
                    W::value(dist[q as int]),
                )
        },
{
    let k = choose|k: nat| #[trigger] settled::<W>(fst, true, k);
    if let Ok(dist) = distances::<W>(fst, true) {
        lemma_distances_within::<W>(fst, k);
        assert forall|q: StateId| fst.has_state(q) implies #[trigger] is_distance::<W>(
            fst,
            q,
            W::value(dist[q as int]),
        ) by {
            let d = W::value(dist[q as int]);
            assert(is_distance_within::<W>(fst, q, d, k));
            assert forall|x: Seq<Label>|
                W::sum(d, #[trigger] accept_from::<W>(fst, q, x)) == d by {
                let m = k + x.len();
                lemma_settled::<W>(fst, true, k, m);
                lemma_distances_within::<W>(fst, m);
                assert(is_distance_within::<W>(fst, q, d, m));
            }
        }
    }
}

} // verus!
