//! Paths through a machine, and what removing useless states does to them.

use crate::connect::{
    accessible, accessible_within, coaccessible, coaccessible_within, connect_model, edge, useful,
    useful_below, useful_states, useful_trs,
};
use crate::fst::tr::{StateId, TrM};
use crate::fst::vector_fst::{FstM, StateM};
use crate::lazy::laws::closed_machine;
use vstd::prelude::*;

verus! {

/// The transitions lead on from `s`, one after the other.
pub open spec fn is_path<M>(fst: FstM<M>, s: int, path: Seq<TrM<M>>) -> bool
    decreases path.len(),
{
    &&& 0 <= s < fst.states.len()
    &&& path.len() == 0 || (fst.states[s].trs.contains(path[0]) && is_path(
        fst,
        path[0].nextstate as int,
        path.drop_first(),
    ))
}

/// Where a path from `s` ends.
pub open spec fn path_end<M>(s: int, path: Seq<TrM<M>>) -> int {
    if path.len() == 0 {
        s
    } else {
        path.last().nextstate as int
    }
}

/// The path leads from the start to a state with the given final weight.
pub open spec fn accepting_path<M>(fst: FstM<M>, path: Seq<TrM<M>>, w: M) -> bool {
    &&& fst.start is Some
    &&& is_path(fst, fst.start->0 as int, path)
    &&& fst.states[path_end(fst.start->0 as int, path)].final_weight == Some(w)
}

/// The two paths read and write the same with the same weights.
pub open spec fn alike<M>(p: Seq<TrM<M>>, q: Seq<TrM<M>>) -> bool {
    &&& p.len() == q.len()
    &&& forall|i: int|
        #![trigger p[i]]
        #![trigger q[i]]
        0 <= i < p.len() ==> p[i].ilabel == q[i].ilabel && p[i].olabel == q[i].olabel
            && p[i].weight == q[i].weight
}

/// The path from the start takes transition `tr` at state `s` as its step `i`.
pub open spec fn passes<M>(fst: FstM<M>, path: Seq<TrM<M>>, i: int, s: int, tr: TrM<M>) -> bool {
    &&& 0 <= i < path.len()
    &&& path[i] == tr
    &&& fst.start is Some
    &&& path_end(fst.start->0 as int, path.take(i)) == s
}

pub proof fn lemma_path_end<M>(fst: FstM<M>, s: int, path: Seq<TrM<M>>)
    requires
        is_path(fst, s, path),
    ensures
        0 <= path_end(s, path) < fst.states.len(),
        path.len() > 0 ==> path_end(s, path) == path_end(
            path[0].nextstate as int,
            path.drop_first(),
        ),
    decreases path.len(),
{
    if path.len() > 0 {
        lemma_path_end(fst, path[0].nextstate as int, path.drop_first());
    }
}

/// Two paths, one of which begins where the other ends, make a path.
pub proof fn lemma_path_concat<M>(fst: FstM<M>, s: int, p: Seq<TrM<M>>, q: Seq<TrM<M>>)
    requires
        is_path(fst, s, p),
        is_path(fst, path_end(s, p), q),
    ensures
        is_path(fst, s, p + q),
        path_end(s, p + q) == path_end(path_end(s, p), q),
    decreases p.len(),
{
    if p.len() == 0 {
        assert(p + q =~= q);
    } else {
        lemma_path_end(fst, s, p);
        lemma_path_concat(fst, p[0].nextstate as int, p.drop_first(), q);
        assert((p + q).drop_first() =~= p.drop_first() + q);
    }
}

/// The path over one transition.
pub proof fn lemma_path_one<M>(fst: FstM<M>, s: int, tr: TrM<M>)
    requires
        0 <= s < fst.states.len(),
        fst.states[s].trs.contains(tr),
        tr.nextstate < fst.states.len(),
    ensures
        is_path(fst, s, seq![tr]),
        path_end(s, seq![tr]) == tr.nextstate,
{
    assert(seq![tr].drop_first() =~= Seq::<TrM<M>>::empty());
    assert(is_path(fst, tr.nextstate as int, Seq::<TrM<M>>::empty()));
}

/// A path leads to every state that is reached.
pub proof fn lemma_accessible_path<M>(fst: FstM<M>, v: int, n: nat) -> (path: Seq<TrM<M>>)
    requires
        closed_machine(fst),
        accessible_within(fst, n).contains(v),
    ensures
        fst.start is Some,
        is_path(fst, fst.start->0 as int, path),
        path_end(fst.start->0 as int, path) == v,
    decreases n,
{
    if n == 0 {
        Seq::empty()
    } else {
        let set = accessible_within(fst, (n - 1) as nat);
        if set.contains(v) {
            lemma_accessible_path(fst, v, (n - 1) as nat)
        } else {
            let u = choose|u: int|
                0 <= u < fst.states.len() && #[trigger] set.contains(u) && edge(fst, u, v);
            let before = lemma_accessible_path(fst, u, (n - 1) as nat);
            let j = choose|j: int|
                0 <= j < fst.states[u].trs.len() && (#[trigger] fst.states[u].trs[j]).nextstate
                    == v;
            let tr = fst.states[u].trs[j];
            assert(fst.states[u].trs.contains(tr));
            lemma_path_one(fst, u, tr);
            lemma_path_concat(fst, fst.start->0 as int, before, seq![tr]);
            before + seq![tr]
        }
    }
}

/// A path leads from every state that reaches a final state to one.
pub proof fn lemma_coaccessible_path<M>(fst: FstM<M>, v: int, n: nat) -> (path: Seq<TrM<M>>)
    requires
        closed_machine(fst),
        coaccessible_within(fst, n).contains(v),
    ensures
        is_path(fst, v, path),
        fst.states[path_end(v, path)].final_weight is Some,
    decreases n,
{
    if n == 0 {
        Seq::empty()
    } else {
        let set = coaccessible_within(fst, (n - 1) as nat);
        if set.contains(v) {
            lemma_coaccessible_path(fst, v, (n - 1) as nat)
        } else {
            let u = choose|u: int|
                0 <= u < fst.states.len() && #[trigger] set.contains(u) && edge(fst, v, u);
            let after = lemma_coaccessible_path(fst, u, (n - 1) as nat);
            let j = choose|j: int|
                0 <= j < fst.states[v].trs.len() && (#[trigger] fst.states[v].trs[j]).nextstate
                    == u;
            let tr = fst.states[v].trs[j];
            assert(fst.states[v].trs.contains(tr));
            lemma_path_one(fst, v, tr);
            lemma_path_concat(fst, v, seq![tr], after);
            seq![tr] + after
        }
    }
}

/// The start is reached.
pub proof fn lemma_start_accessible<M>(fst: FstM<M>)
    requires
        fst.start is Some,
    ensures
        accessible(fst, fst.start->0 as int),
{
    assert(accessible_within(fst, 0).contains(fst.start->0 as int));
}

pub proof fn lemma_step_accessible<M>(fst: FstM<M>, u: int, tr: TrM<M>)
    requires
        0 <= u < fst.states.len(),
        accessible(fst, u),
        fst.states[u].trs.contains(tr),
    ensures
        accessible(fst, tr.nextstate as int),
{
    let n = choose|n: nat| (#[trigger] accessible_within(fst, n)).contains(u);
    let j = choose|j: int| 0 <= j < fst.states[u].trs.len() && fst.states[u].trs[j] == tr;
    assert(fst.states[u].trs[j].nextstate == tr.nextstate);
    assert(edge(fst, u, tr.nextstate as int));
    assert(accessible_within(fst, n + 1).contains(tr.nextstate as int));
}

/// Whoever has a path to a final state reaches one.
pub proof fn lemma_path_coaccessible<M>(fst: FstM<M>, s: int, path: Seq<TrM<M>>)
    requires
        is_path(fst, s, path),
        fst.states[path_end(s, path)].final_weight is Some,
    ensures
        coaccessible(fst, s),
    decreases path.len(),
{
    if path.len() == 0 {
        assert(coaccessible_within(fst, 0).contains(s));
    } else {
        let tr = path[0];
        lemma_path_end(fst, s, path);
        assert(is_path(fst, tr.nextstate as int, path.drop_first()));
        lemma_path_coaccessible(fst, tr.nextstate as int, path.drop_first());
        let n = choose|n: nat|
            (#[trigger] coaccessible_within(fst, n)).contains(tr.nextstate as int);
        let j = choose|j: int| 0 <= j < fst.states[s].trs.len() && fst.states[s].trs[j] == tr;
        assert(fst.states[s].trs[j].nextstate == tr.nextstate);
        assert(edge(fst, s, tr.nextstate as int));
        assert(coaccessible_within(fst, n + 1).contains(s));
    }
}

/// A transition with the id that its destination gets.
pub open spec fn renumbered_tr<M>(fst: FstM<M>, tr: TrM<M>) -> TrM<M> {
    TrM { nextstate: useful_below(fst, tr.nextstate as int) as StateId, ..tr }
}

/// A path with the ids that its states get.
pub open spec fn renumbered_path<M>(fst: FstM<M>, path: Seq<TrM<M>>) -> Seq<TrM<M>> {
    Seq::new(path.len(), |i: int| renumbered_tr(fst, path[i]))
}

/// Every useful state keeps its place.
pub proof fn lemma_useful_state<M>(fst: FstM<M>, n: int, v: int)
    requires
        0 <= v < n,
        useful(fst, v),
    ensures
        0 <= useful_below(fst, v) < useful_below(fst, n),
        useful_below(fst, n) == useful_states(fst, n).len(),
        useful_states(fst, n)[useful_below(fst, v)] == (StateM {
            final_weight: fst.states[v].final_weight,
            trs: useful_trs(fst, fst.states[v].trs),
        }),
    decreases n,
{
    lemma_useful_count(fst, n);
    lemma_useful_count(fst, n - 1);
    lemma_useful_count(fst, v);
    if v < n - 1 {
        lemma_useful_state(fst, n - 1, v);
    }
}

pub proof fn lemma_useful_count<M>(fst: FstM<M>, n: int)
    ensures
        useful_below(fst, n) == useful_states(fst, n).len(),
        n >= 0 ==> useful_below(fst, n) <= n,
    decreases n,
{
    if n > 0 {
        lemma_useful_count(fst, n - 1);
    }
}

/// Every place is that of a useful state.
proof fn lemma_useful_place<M>(fst: FstM<M>, n: int, i: int) -> (v: int)
    requires
        0 <= i < useful_states(fst, n).len(),
    ensures
        0 <= v < n,
        useful(fst, v),
        useful_below(fst, v) == i,
    decreases n,
{
    lemma_useful_count(fst, n - 1);
    if i < useful_states(fst, n - 1).len() {
        lemma_useful_place(fst, n - 1, i)
    } else {
        n - 1
    }
}

proof fn lemma_useful_tr<M>(fst: FstM<M>, trs: Seq<TrM<M>>, tr: TrM<M>)
    requires
        trs.contains(tr),
        useful(fst, tr.nextstate as int),
    ensures
        useful_trs(fst, trs).contains(renumbered_tr(fst, tr)),
    decreases trs.len(),
{
    let i = choose|i: int| 0 <= i < trs.len() && trs[i] == tr;
    let list = useful_trs(fst, trs);
    if i == trs.len() - 1 {
        assert(list[list.len() - 1] == renumbered_tr(fst, tr));
    } else {
        assert(trs.drop_last()[i] == tr);
        lemma_useful_tr(fst, trs.drop_last(), tr);
        let before = useful_trs(fst, trs.drop_last());
        let k = choose|k: int| 0 <= k < before.len() && before[k] == renumbered_tr(fst, tr);
        assert(list[k] == renumbered_tr(fst, tr));
    }
}

proof fn lemma_useful_tr_back<M>(fst: FstM<M>, trs: Seq<TrM<M>>, k: int) -> (tr: TrM<M>)
    requires
        0 <= k < useful_trs(fst, trs).len(),
    ensures
        trs.contains(tr),
        useful(fst, tr.nextstate as int),
        renumbered_tr(fst, tr) == useful_trs(fst, trs)[k],
    decreases trs.len(),
{
    let before = useful_trs(fst, trs.drop_last());
    if k < before.len() {
        let tr = lemma_useful_tr_back(fst, trs.drop_last(), k);
        let i = choose|i: int| 0 <= i < trs.drop_last().len() && trs.drop_last()[i] == tr;
        assert(trs[i] == tr);
        tr
    } else {
        assert(trs[trs.len() - 1] == trs.last());
        trs.last()
    }
}

/// A path to a final state is still there when the useless states are gone.
pub proof fn lemma_connect_path<M>(fst: FstM<M>, s: int, path: Seq<TrM<M>>)
    requires
        fst.states.len() <= u32::MAX,
        accessible(fst, s),
        is_path(fst, s, path),
        fst.states[path_end(s, path)].final_weight is Some,
    ensures
        useful(fst, s),
        is_path(connect_model(fst), useful_below(fst, s), renumbered_path(fst, path)),
        connect_model(fst).states[path_end(
            useful_below(fst, s),
            renumbered_path(fst, path),
        )].final_weight == fst.states[path_end(s, path)].final_weight,
        path_end(useful_below(fst, s), renumbered_path(fst, path)) == useful_below(
            fst,
            path_end(s, path),
        ),
    decreases path.len(),
{
    let n = fst.states.len() as int;
    lemma_path_coaccessible(fst, s, path);
    lemma_useful_state(fst, n, s);
    lemma_useful_count(fst, n);
    if path.len() > 0 {
        let tr = path[0];
        let rest = path.drop_first();
        lemma_path_end(fst, s, path);
        assert(is_path(fst, tr.nextstate as int, rest));
        lemma_step_accessible(fst, s, tr);
        lemma_connect_path(fst, tr.nextstate as int, rest);
        lemma_useful_tr(fst, fst.states[s].trs, tr);
        lemma_useful_state(fst, n, tr.nextstate as int);
        assert(renumbered_path(fst, path)[0] == renumbered_tr(fst, tr));
        assert(renumbered_path(fst, path).drop_first() =~= renumbered_path(fst, rest));
        lemma_path_end(connect_model(fst), useful_below(fst, s), renumbered_path(fst, path));
    }
}

/// A path of what is left comes from a path of the machine.
pub proof fn lemma_connect_path_back<M>(fst: FstM<M>, s: int, path: Seq<TrM<M>>) -> (p: Seq<TrM<M>>)
    requires
        closed_machine(fst),
        fst.states.len() <= u32::MAX,
        0 <= s < fst.states.len(),
        useful(fst, s),
        is_path(connect_model(fst), useful_below(fst, s), path),
    ensures
        is_path(fst, s, p),
        path == renumbered_path(fst, p),
        useful(fst, path_end(s, p)),
        path_end(useful_below(fst, s), path) == useful_below(fst, path_end(s, p)),
    decreases path.len(),
{
    let n = fst.states.len() as int;
    if path.len() == 0 {
        assert(path =~= renumbered_path(fst, Seq::<TrM<M>>::empty()));
        Seq::empty()
    } else {
        let c = connect_model(fst);
        lemma_useful_state(fst, n, s);
        let list = useful_trs(fst, fst.states[s].trs);
        let k = choose|k: int| 0 <= k < list.len() && list[k] == path[0];
        let tr = lemma_useful_tr_back(fst, fst.states[s].trs, k);
        let j = choose|j: int| 0 <= j < fst.states[s].trs.len() && fst.states[s].trs[j] == tr;
        assert(fst.states[s].trs[j].nextstate < fst.states.len());
        lemma_useful_state(fst, n, tr.nextstate as int);
        lemma_useful_count(fst, n);
        let rest = lemma_connect_path_back(fst, tr.nextstate as int, path.drop_first());
        let p = seq![tr] + rest;
        assert(p.drop_first() =~= rest);
        assert(is_path(fst, s, p));
        lemma_path_end(fst, s, p);
        lemma_path_end(c, useful_below(fst, s), path);
        assert forall|i: int| 0 <= i < path.len() implies path[i] == #[trigger] renumbered_path(
            fst,
            p,
        )[i] by {
            if i > 0 {
                assert(path.drop_first()[i - 1] == renumbered_path(fst, rest)[i - 1]);
            }
        }
        assert(path =~= renumbered_path(fst, p));
        p
    }
}

/// Removing the useless states keeps every path from the start to a final state.
pub proof fn law_connect_keeps_paths<M>(fst: FstM<M>, path: Seq<TrM<M>>, w: M)
    requires
        fst.states.len() <= u32::MAX,
        accepting_path(fst, path, w),
    ensures
        accepting_path(connect_model(fst), renumbered_path(fst, path), w),
        alike(path, renumbered_path(fst, path)),
{
    lemma_start_accessible(fst);
    lemma_connect_path(fst, fst.start->0 as int, path);
    lemma_useful_state(fst, fst.states.len() as int, fst.start->0 as int);
    lemma_useful_count(fst, fst.states.len() as int);
}

/// Removing the useless states adds no path from the start to a final state.
pub proof fn law_connect_adds_no_path<M>(fst: FstM<M>, path: Seq<TrM<M>>, w: M)
    requires
        closed_machine(fst),
        fst.states.len() <= u32::MAX,
        accepting_path(connect_model(fst), path, w),
    ensures
        exists|p: Seq<TrM<M>>|
            #[trigger] accepting_path(fst, p, w) && path == renumbered_path(fst, p),
{
    let s = fst.start->0 as int;
    let n = fst.states.len() as int;
    lemma_useful_state(fst, n, s);
    lemma_useful_count(fst, n);
    let p = lemma_connect_path_back(fst, s, path);
    lemma_path_end(fst, s, p);
    lemma_useful_state(fst, n, path_end(s, p));
    assert(accepting_path(fst, p, w));
}

/// The source and the transition that a transition of what is left comes from.
pub proof fn lemma_connect_tr_back<M>(fst: FstM<M>, i: int, j: int) -> (r: (int, TrM<M>))
    requires
        closed_machine(fst),
        fst.states.len() <= u32::MAX,
        0 <= i < connect_model(fst).states.len(),
        0 <= j < connect_model(fst).states[i].trs.len(),
    ensures
        0 <= r.0 < fst.states.len(),
        useful(fst, r.0),
        useful_below(fst, r.0) == i,
        fst.states[r.0].trs.contains(r.1),
        useful(fst, r.1.nextstate as int),
        r.1.nextstate < fst.states.len(),
        renumbered_tr(fst, r.1) == connect_model(fst).states[i].trs[j],
{
    let n = fst.states.len() as int;
    let v = lemma_useful_place(fst, n, i);
    lemma_useful_state(fst, n, v);
    let tr = lemma_useful_tr_back(fst, fst.states[v].trs, j);
    let k = choose|k: int| 0 <= k < fst.states[v].trs.len() && fst.states[v].trs[k] == tr;
    assert(fst.states[v].trs[k].nextstate < fst.states.len());
    (v, tr)
}

/// The state that a state of what is left comes from.
pub proof fn lemma_connect_state_back<M>(fst: FstM<M>, i: int) -> (v: int)
    requires
        0 <= i < connect_model(fst).states.len(),
    ensures
        0 <= v < fst.states.len(),
        useful(fst, v),
        useful_below(fst, v) == i,
        connect_model(fst).states[i].final_weight == fst.states[v].final_weight,
{
    let n = fst.states.len() as int;
    let v = lemma_useful_place(fst, n, i);
    lemma_useful_state(fst, n, v);
    v
}

/// A renumbered path ends at the renumbered state.
pub proof fn lemma_renumbered_end<M>(fst: FstM<M>, path: Seq<TrM<M>>, w: M)
    requires
        fst.states.len() <= u32::MAX,
        accepting_path(fst, path, w),
    ensures
        path_end(connect_model(fst).start->0 as int, renumbered_path(fst, path)) == useful_below(
            fst,
            path_end(fst.start->0 as int, path),
        ),
{
    lemma_start_accessible(fst);
    lemma_connect_path(fst, fst.start->0 as int, path);
    lemma_useful_state(fst, fst.states.len() as int, fst.start->0 as int);
    lemma_useful_count(fst, fst.states.len() as int);
}

/// A path over a transition of the machine passes, renumbered, over the renumbered
/// transition.
pub proof fn lemma_renumbered_passes<M>(
    fst: FstM<M>,
    before: Seq<TrM<M>>,
    tr: TrM<M>,
    after: Seq<TrM<M>>,
    w: M,
)
    requires
        fst.states.len() <= u32::MAX,
        accepting_path(fst, before + seq![tr] + after, w),
    ensures
        passes(
            connect_model(fst),
            renumbered_path(fst, before + seq![tr] + after),
            before.len() as int,
            useful_below(fst, path_end(fst.start->0 as int, before)),
            renumbered_tr(fst, tr),
        ),
{
    let path = before + seq![tr] + after;
    let s = fst.start->0 as int;
    let n = fst.states.len() as int;
    lemma_start_accessible(fst);
    lemma_connect_path(fst, s, path);
    lemma_useful_state(fst, n, s);
    lemma_useful_count(fst, n);
    let q = renumbered_path(fst, path);
    assert(q[before.len() as int] == renumbered_tr(fst, tr));
    let head = q.take(before.len() as int);
    if before.len() > 0 {
        assert(head.last() == renumbered_tr(fst, path[before.len() - 1]));
        assert(path[before.len() - 1] == before.last());
        lemma_path_state(fst, s, path, before.len() as int);
        assert(path.take(before.len() as int) =~= before);
        lemma_useful_count(fst, before.last().nextstate as int);
    }
}

/// Every state on a path exists, and has the transition that the path takes.
pub proof fn lemma_path_state<M>(fst: FstM<M>, s: int, path: Seq<TrM<M>>, i: int)
    requires
        is_path(fst, s, path),
        0 <= i <= path.len(),
    ensures
        is_path(fst, s, path.take(i)),
        0 <= path_end(s, path.take(i)) < fst.states.len(),
        i < path.len() ==> fst.states[path_end(s, path.take(i))].trs.contains(path[i]),
    decreases i,
{
    if i > 0 {
        lemma_path_state(fst, path[0].nextstate as int, path.drop_first(), i - 1);
        if i < path.len() {
            assert(path.drop_first()[i - 1] == path[i]);
        }
        assert(path.take(i).drop_first() =~= path.drop_first().take(i - 1));
        assert(is_path(fst, s, path.take(i)));
    }
    lemma_path_end(fst, s, path.take(i));
}

/// What is left when the useless states are gone is useful: some path from the
/// start to a final state takes every transition.
pub proof fn law_connect_leaves_useful<M>(fst: FstM<M>, i: int, j: int)
    requires
        closed_machine(fst),
        fst.states.len() <= u32::MAX,
        0 <= i < connect_model(fst).states.len(),
        0 <= j < connect_model(fst).states[i].trs.len(),
    ensures
        exists|path: Seq<TrM<M>>, w: M, k: int|
            #[trigger] accepting_path(connect_model(fst), path, w) && #[trigger] passes(
                connect_model(fst),
                path,
                k,
                i,
                connect_model(fst).states[i].trs[j],
            ),
{
    let (v, tr) = lemma_connect_tr_back(fst, i, j);
    let to = choose|n: nat| (#[trigger] accessible_within(fst, n)).contains(v);
    let before = lemma_accessible_path(fst, v, to);
    let u = tr.nextstate as int;
    let on = choose|n: nat| (#[trigger] coaccessible_within(fst, n)).contains(u);
    let after = lemma_coaccessible_path(fst, u, on);
    let s = fst.start->0 as int;
    lemma_path_one(fst, v, tr);
    lemma_path_concat(fst, s, before, seq![tr]);
    lemma_path_concat(fst, s, before + seq![tr], after);
    let path = before + seq![tr] + after;
    let w = fst.states[path_end(s, path)].final_weight->0;
    law_connect_keeps_paths(fst, path, w);
    lemma_renumbered_passes(fst, before, tr, after, w);
}

} // verus!
