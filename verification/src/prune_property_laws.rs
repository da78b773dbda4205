//! What is known of a machine after useless parts were removed is true of it.

use crate::connect::{
    accessible_within, coaccessible_within, connect_model, useful, useful_below, useful_trs,
};
use crate::fst::properties::{
    ACCEPTOR, ACCESSIBLE, ACYCLIC, COACCESSIBLE, CYCLIC, DELETE_STATES_KEEPS, EPSILONS,
    INITIAL_ACYCLIC, INITIAL_CYCLIC, I_DETERMINISTIC, I_EPSILONS, I_LABEL_SORTED, NOT_ACCEPTOR,
    NOT_ACCESSIBLE, NOT_COACCESSIBLE, NOT_I_DETERMINISTIC, NOT_I_LABEL_SORTED, NOT_O_DETERMINISTIC,
    NOT_O_LABEL_SORTED, NOT_TOP_SORTED, NO_EPSILONS, NO_I_EPSILONS, NO_O_EPSILONS, O_DETERMINISTIC,
    O_EPSILONS, O_LABEL_SORTED, TOP_SORTED, UNWEIGHTED, WEIGHTED,
};
use crate::fst::property_laws::{
    cyclic, distinct, from_start, initial_cyclic, label_on, law_properties_hold_of_empty,
    law_properties_hold_with_final_weight, law_properties_hold_with_transition,
    law_properties_hold_without_transitions, leads_to, none, plain_ends, properties_hold, shows,
    sorted, to_final, Trait,
};
use crate::fst::tr::{StateId, TrM};
use crate::fst::vector_fst::{weighted_model, FstM};
use crate::lazy::laws::closed_machine;
use crate::paths::{
    is_path, lemma_accessible_path, lemma_coaccessible_path, lemma_connect_path,
    lemma_connect_path_back, lemma_connect_state_back, lemma_path_concat, lemma_path_end,
    lemma_path_state, lemma_start_accessible, lemma_useful_count, lemma_useful_state, path_end,
    renumbered_path, renumbered_tr,
};
use crate::prune::{
    distance_at, emptied, prune_final, prune_model, prune_states, put_back, without_trs,
};
use crate::prune_laws::lemma_pruned_closed;
use crate::semirings::semiring::Semiring;
use crate::shortest_distance::distances;
use vstd::prelude::*;

verus! {

proof fn lemma_connect_bits(bits: u64, r: u64)
    by (bit_vector)
    requires
        r == (bits & DELETE_STATES_KEEPS) | (ACCESSIBLE | COACCESSIBLE),
    ensures
        r & NOT_ACCEPTOR != NOT_ACCEPTOR,
        r & NOT_I_DETERMINISTIC != NOT_I_DETERMINISTIC,
        r & NOT_O_DETERMINISTIC != NOT_O_DETERMINISTIC,
        r & EPSILONS != EPSILONS,
        r & I_EPSILONS != I_EPSILONS,
        r & O_EPSILONS != O_EPSILONS,
        r & NOT_I_LABEL_SORTED != NOT_I_LABEL_SORTED,
        r & NOT_O_LABEL_SORTED != NOT_O_LABEL_SORTED,
        r & WEIGHTED != WEIGHTED,
        r & CYCLIC != CYCLIC,
        r & INITIAL_CYCLIC != INITIAL_CYCLIC,
        r & NOT_TOP_SORTED != NOT_TOP_SORTED,
        r & NOT_ACCESSIBLE != NOT_ACCESSIBLE,
        r & NOT_COACCESSIBLE != NOT_COACCESSIBLE,
        r & ACCEPTOR == ACCEPTOR <==> bits & ACCEPTOR == ACCEPTOR,
        r & I_DETERMINISTIC == I_DETERMINISTIC <==> bits & I_DETERMINISTIC == I_DETERMINISTIC,
        r & O_DETERMINISTIC == O_DETERMINISTIC <==> bits & O_DETERMINISTIC == O_DETERMINISTIC,
        r & NO_EPSILONS == NO_EPSILONS <==> bits & NO_EPSILONS == NO_EPSILONS,
        r & NO_I_EPSILONS == NO_I_EPSILONS <==> bits & NO_I_EPSILONS == NO_I_EPSILONS,
        r & NO_O_EPSILONS == NO_O_EPSILONS <==> bits & NO_O_EPSILONS == NO_O_EPSILONS,
        r & I_LABEL_SORTED == I_LABEL_SORTED <==> bits & I_LABEL_SORTED == I_LABEL_SORTED,
        r & O_LABEL_SORTED == O_LABEL_SORTED <==> bits & O_LABEL_SORTED == O_LABEL_SORTED,
        r & UNWEIGHTED == UNWEIGHTED <==> bits & UNWEIGHTED == UNWEIGHTED,
        r & ACYCLIC == ACYCLIC <==> bits & ACYCLIC == ACYCLIC,
        r & INITIAL_ACYCLIC == INITIAL_ACYCLIC <==> bits & INITIAL_ACYCLIC == INITIAL_ACYCLIC,
        r & TOP_SORTED == TOP_SORTED <==> bits & TOP_SORTED == TOP_SORTED,
        r & ACCESSIBLE == ACCESSIBLE,
        r & COACCESSIBLE == COACCESSIBLE,
{
}

/// Where the transitions that lead to useful states come from: they are renumbered ones,
/// in the same order.
proof fn lemma_useful_sources<M>(fst: FstM<M>, trs: Seq<TrM<M>>) -> (from: Seq<int>)
    ensures
        from.len() == useful_trs(fst, trs).len(),
        forall|j: int|
            #![trigger from[j]]
            0 <= j < from.len() ==> 0 <= from[j] < trs.len() && useful(
                fst,
                trs[from[j]].nextstate as int,
            ) && useful_trs(fst, trs)[j] == renumbered_tr(fst, trs[from[j]]),
        forall|i: int, j: int|
            #![trigger from[i], from[j]]
            0 <= i < j < from.len() ==> from[i] < from[j],
    decreases trs.len(),
{
    if trs.len() == 0 {
        Seq::empty()
    } else {
        let init = trs.drop_last();
        let before = lemma_useful_sources(fst, init);
        assert(forall|i: int| 0 <= i < init.len() ==> #[trigger] init[i] == trs[i]);
        if useful(fst, trs.last().nextstate as int) {
            before.push(trs.len() - 1)
        } else {
            before
        }
    }
}

/// What each state of the connected machine comes from.
proof fn lemma_connected_at<M>(fst: FstM<M>, i: int) -> (r: (int, Seq<int>))
    requires
        closed_machine(fst),
        fst.states.len() <= u32::MAX,
        0 <= i < connect_model(fst).states.len(),
    ensures
        ({
            let (v, from) = r;
            let trs = fst.states[v].trs;
            let left = connect_model(fst).states[i];
            &&& 0 <= v < fst.states.len()
            &&& useful(fst, v)
            &&& useful_below(fst, v) == i
            &&& left.final_weight == fst.states[v].final_weight
            &&& from.len() == left.trs.len()
            &&& forall|j: int|
                #![trigger left.trs[j]]
                0 <= j < from.len() ==> 0 <= from[j] < trs.len() && useful(
                    fst,
                    trs[from[j]].nextstate as int,
                ) && left.trs[j] == renumbered_tr(fst, trs[from[j]])
            &&& forall|i: int, j: int|
                #![trigger left.trs[i], left.trs[j]]
                0 <= i < j < from.len() ==> from[i] < from[j]
        }),
{
    let v = lemma_connect_state_back(fst, i);
    lemma_useful_state(fst, fst.states.len() as int, v);
    let from = lemma_useful_sources(fst, fst.states[v].trs);
    (v, from)
}

proof fn lemma_connected_traits<W: Semiring>(fst: FstM<W::M>, t: Trait)
    requires
        closed_machine(fst),
        fst.states.len() <= u32::MAX,
        none::<W>(fst, t),
    ensures
        none::<W>(connect_model(fst), t),
{
    let c = connect_model(fst);
    assert forall|i: int, j: int|
        0 <= i < c.states.len() && 0 <= j < c.states[i].trs.len() implies !shows::<W>(
        t,
        i,
        #[trigger] c.states[i].trs[j],
    ) by {
        let (v, from) = lemma_connected_at(fst, i);
        assert(c.states[i].trs[j] == renumbered_tr(fst, fst.states[v].trs[from[j]]));
        let tr = fst.states[v].trs[from[j]];
        assert(!shows::<W>(t, v, tr));
        lemma_useful_count(fst, tr.nextstate as int);
        if tr.nextstate > v {
            lemma_useful_state(fst, tr.nextstate as int, v);
        }
    }
}

proof fn lemma_connected_order<M>(fst: FstM<M>, input: bool)
    requires
        closed_machine(fst),
        fst.states.len() <= u32::MAX,
    ensures
        sorted(fst, input) ==> sorted(connect_model(fst), input),
        distinct(fst, input) ==> distinct(connect_model(fst), input),
{
    let c = connect_model(fst);
    if sorted(fst, input) {
        assert forall|v: int, i: int, j: int|
            0 <= v < c.states.len() && 0 <= i < j < c.states[v].trs.len() implies label_on(
            #[trigger] c.states[v].trs[i],
            input,
        ) <= label_on(#[trigger] c.states[v].trs[j], input) by {
            let (u, from) = lemma_connected_at(fst, v);
            let trs = fst.states[u].trs;
            assert(c.states[v].trs[i] == renumbered_tr(fst, trs[from[i]]));
            assert(c.states[v].trs[j] == renumbered_tr(fst, trs[from[j]]));
            assert(label_on(fst.states[u].trs[from[i]], input) <= label_on(
                fst.states[u].trs[from[j]],
                input,
            ));
        }
    }
    if distinct(fst, input) {
        assert forall|v: int, i: int, j: int|
            0 <= v < c.states.len() && 0 <= i < j < c.states[v].trs.len() implies label_on(
            #[trigger] c.states[v].trs[i],
            input,
        ) != label_on(#[trigger] c.states[v].trs[j], input) by {
            let (u, from) = lemma_connected_at(fst, v);
            let trs = fst.states[u].trs;
            assert(c.states[v].trs[i] == renumbered_tr(fst, trs[from[i]]));
            assert(c.states[v].trs[j] == renumbered_tr(fst, trs[from[j]]));
            assert(label_on(fst.states[u].trs[from[i]], input) != label_on(
                fst.states[u].trs[from[j]],
                input,
            ));
        }
    }
}

/// Different useful states have different places.
proof fn lemma_places_apart<M>(fst: FstM<M>, u: int, v: int)
    requires
        0 <= u,
        0 <= v,
        useful(fst, u),
        useful(fst, v),
        useful_below(fst, u) == useful_below(fst, v),
    ensures
        u == v,
{
    if u < v {
        lemma_useful_state(fst, v, u);
    }
    if v < u {
        lemma_useful_state(fst, u, v);
    }
}

proof fn lemma_connected_cycle<M>(fst: FstM<M>, i: int) -> (v: int)
    requires
        closed_machine(fst),
        fst.states.len() <= u32::MAX,
        leads_to(connect_model(fst), i, i),
    ensures
        0 <= v < fst.states.len(),
        useful(fst, v),
        useful_below(fst, v) == i,
        leads_to(fst, v, v),
{
    let c = connect_model(fst);
    let path = choose|path: Seq<TrM<M>>|
        path.len() > 0 && #[trigger] is_path(c, i, path) && path_end(i, path) == i;
    let v = lemma_connect_state_back(fst, i);
    let p = lemma_connect_path_back(fst, v, path);
    lemma_path_end(fst, v, p);
    lemma_places_apart(fst, path_end(v, p), v);
    assert(p.len() == path.len());
    assert(leads_to(fst, v, v));
    v
}

/// Every state of the connected machine lies between the start and a final state.
proof fn lemma_connected_useful<M>(fst: FstM<M>, i: int)
    requires
        closed_machine(fst),
        fst.states.len() <= u32::MAX,
        0 <= i < connect_model(fst).states.len(),
    ensures
        from_start(connect_model(fst), i),
        to_final(connect_model(fst), i),
{
    let c = connect_model(fst);
    let v = lemma_connect_state_back(fst, i);
    let to = choose|n: nat| (#[trigger] accessible_within(fst, n)).contains(v);
    let before = lemma_accessible_path(fst, v, to);
    let on = choose|n: nat| (#[trigger] coaccessible_within(fst, n)).contains(v);
    let after = lemma_coaccessible_path(fst, v, on);
    let s = fst.start->0 as int;
    lemma_start_accessible(fst);
    lemma_path_concat(fst, s, before, after);
    lemma_connect_path(fst, v, after);
    lemma_connect_path(fst, s, before + after);
    lemma_useful_count(fst, fst.states.len() as int);
    lemma_useful_state(fst, fst.states.len() as int, s);
    let whole = renumbered_path(fst, before + after);
    lemma_path_state(c, useful_below(fst, s), whole, before.len() as int);
    let start = whole.take(before.len() as int);
    if before.len() > 0 {
        assert(start.last() == renumbered_tr(fst, before.last()));
        lemma_useful_state(fst, fst.states.len() as int, v);
    }
    assert(path_end(c.start->0 as int, start) == i);
}

/// What is known after useless states were removed is true, if what was known before was.
/// Every state is then known to lie between the start and a final state.
pub proof fn law_properties_hold_of_connected<W: Semiring>(fst: FstM<W::M>)
    requires
        closed_machine(fst),
        fst.states.len() <= u32::MAX,
        properties_hold::<W>(fst),
    ensures
        properties_hold::<W>(connect_model(fst)),
        connect_model(fst).properties.has(ACCESSIBLE),
        connect_model(fst).properties.has(COACCESSIBLE),
        connect_model(fst).properties.has(ACCEPTOR) <==> fst.properties.has(ACCEPTOR),
{
    let c = connect_model(fst);
    lemma_connect_bits(fst.properties.bits, c.properties.bits);
    assert forall|t: Trait| none::<W>(fst, t) implies #[trigger] none::<W>(c, t) by {
        lemma_connected_traits::<W>(fst, t);
    }
    lemma_connected_order(fst, true);
    lemma_connected_order(fst, false);
    if plain_ends::<W>(fst) {
        assert forall|i: int| 0 <= i < c.states.len() implies !weighted_model::<W>(
            (#[trigger] c.states[i]).final_weight,
        ) by {
            let v = lemma_connect_state_back(fst, i);
            assert(!weighted_model::<W>(fst.states[v].final_weight));
        }
    }
    if cyclic(c) {
        let i = choose|i: int| #[trigger] leads_to(c, i, i);
        let v = lemma_connected_cycle(fst, i);
        assert(leads_to(fst, v, v));
    }
    if initial_cyclic(c) {
        let s = fst.start->0 as int;
        lemma_useful_count(fst, fst.states.len() as int);
        lemma_useful_state(fst, fst.states.len() as int, s);
        let v = lemma_connected_cycle(fst, c.start->0 as int);
        lemma_places_apart(fst, v, s);
    }
    assert forall|i: int| 0 <= i < c.states.len() implies #[trigger] from_start(c, i) && to_final(
        c,
        i,
    ) by {
        lemma_connected_useful(fst, i);
    }
    assert forall|i: int| 0 <= i < c.states.len() implies #[trigger] to_final(c, i) by {
        lemma_connected_useful(fst, i);
    }
}

proof fn lemma_put_back_holds<W: Semiring>(
    fst: FstM<W::M>,
    s: StateId,
    from: W::M,
    to: Seq<W::M>,
    limit: W::M,
    trs: Seq<TrM<W::M>>,
)
    requires
        fst.has_state(s),
        properties_hold::<W>(fst),
    ensures
        put_back::<W>(fst, s, from, to, limit, trs).0.states.len() == fst.states.len(),
        properties_hold::<W>(put_back::<W>(fst, s, from, to, limit, trs).0),
    decreases trs.len(),
{
    if trs.len() > 0 {
        lemma_put_back_holds::<W>(fst, s, from, to, limit, trs.drop_last());
        let f = put_back::<W>(fst, s, from, to, limit, trs.drop_last()).0;
        law_properties_hold_with_transition::<W>(f, s, trs.last());
    }
}

proof fn lemma_prune_states_hold<W: Semiring>(
    fst: FstM<W::M>,
    from: Seq<W::M>,
    to: Seq<W::M>,
    limit: W::M,
    n: int,
)
    requires
        0 <= n <= fst.states.len() <= u32::MAX,
        properties_hold::<W>(fst),
    ensures
        prune_states::<W>(fst, from, to, limit, n).0.states.len() == fst.states.len(),
        properties_hold::<W>(prune_states::<W>(fst, from, to, limit, n).0),
    decreases n,
{
    if n > 0 {
        lemma_prune_states_hold::<W>(fst, from, to, limit, n - 1);
        let f = prune_states::<W>(fst, from, to, limit, n - 1).0;
        let s = (n - 1) as StateId;
        let d = distance_at::<W>(from, s);
        law_properties_hold_with_final_weight::<W>(f, s, None);
        let g = prune_final::<W>(f, s, d, limit).0;
        law_properties_hold_without_transitions::<W>(g, s);
        lemma_put_back_holds::<W>(without_trs(g, s), s, d, to, limit, f.states[s as int].trs);
    }
}

/// What is known after pruning is true, if what was known before was, whether or not
/// pruning fails.
pub proof fn law_properties_hold_of_pruned<W: Semiring>(fst: FstM<W::M>, threshold: W::M)
    requires
        closed_machine(fst),
        fst.states.len() <= u32::MAX,
        properties_hold::<W>(fst),
    ensures
        properties_hold::<W>(prune_model::<W>(fst, threshold).0),
{
    law_properties_hold_of_empty::<W>();
    let n = fst.states.len() as int;
    assert(properties_hold::<W>(emptied(fst))) by {
        let e = emptied(fst);
        let z = FstM::<W::M>::empty();
        assert(e.properties == z.properties && e.states == z.states && e.start == z.start);
        assert forall|v: int| !leads_to(e, v, v) by {}
    }
    if n > 0 && fst.start is Some {
        if let (Ok(to), Ok(from)) = (distances::<W>(fst, true), distances::<W>(fst, false)) {
            let best = distance_at::<W>(to, fst.start->0);
            if let Ok(limit) = W::times_model(best, threshold) {
                lemma_prune_states_hold::<W>(fst, from, to, limit, n);
                if prune_states::<W>(fst, from, to, limit, n).1 is Ok {
                    lemma_pruned_closed::<W>(fst, from, to, limit);
                    law_properties_hold_of_connected::<W>(
                        prune_states::<W>(fst, from, to, limit, n).0,
                    );
                }
            }
        }
    }
}

} // verus!
