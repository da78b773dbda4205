//! What pruning leaves known of a machine.

use crate::connect::{connect_model, useful, useful_below, useful_trs};
use crate::error::FstError;
use crate::fst::properties::{
    flip_model, with_model, FstProperties, TrShape, ACCEPTOR, ACCESSIBLE, ACYCLIC, ADD_TR_CHECKED,
    ADD_TR_KEEPS, COACCESSIBLE, DELETE_STATES_KEEPS, DELETE_TRS_KEEPS, EPSILONS, INITIAL_ACYCLIC,
    I_EPSILONS, I_LABEL_SORTED, NOT_ACCEPTOR, NOT_I_LABEL_SORTED, NOT_O_LABEL_SORTED,
    NOT_TOP_SORTED, NO_EPSILONS, NO_I_EPSILONS, NO_O_EPSILONS, O_EPSILONS, O_LABEL_SORTED,
    SET_FINAL_KEEPS, TOP_SORTED, UNWEIGHTED, WEIGHTED,
};
use crate::fst::tr::{StateId, TrM};
use crate::fst::vector_fst::{tr_shape, FstM};
use crate::lazy::laws::closed_machine;
use crate::paths::{lemma_connect_state_back, lemma_useful_count, lemma_useful_state};
use crate::prune::{distance_at, prune_final, prune_state, prune_states, put_back, without_trs};
use crate::semirings::semiring::Semiring;
use vstd::prelude::*;

verus! {

/// What is known that stays known when states are removed.
pub open spec fn lasting(p: FstProperties) -> u64 {
    p.bits & DELETE_STATES_KEEPS
}

/// Whether the flags do not contradict a transition.
pub open spec fn agrees(c: u64, tr: TrShape) -> bool {
    &&& c & ACCEPTOR == ACCEPTOR ==> tr.ilabel == tr.olabel
    &&& c & NO_I_EPSILONS == NO_I_EPSILONS ==> tr.ilabel != 0
    &&& c & NO_EPSILONS == NO_EPSILONS ==> !(tr.ilabel == 0 && tr.olabel == 0)
    &&& c & NO_O_EPSILONS == NO_O_EPSILONS ==> tr.olabel != 0
    &&& c & I_LABEL_SORTED == I_LABEL_SORTED ==> !(tr.previous matches Some(p) && p.0 > tr.ilabel)
    &&& c & O_LABEL_SORTED == O_LABEL_SORTED ==> !(tr.previous matches Some(p) && p.1 > tr.olabel)
    &&& c & UNWEIGHTED == UNWEIGHTED ==> !tr.weighted
    &&& c & TOP_SORTED == TOP_SORTED ==> !tr.backward
}

/// Whether the flags are such that adding a transition that they agree with leaves
/// them as they are.
pub open spec fn settled_flags(c: u64) -> bool {
    c == (c & ADD_TR_CHECKED) | (if c & TOP_SORTED == TOP_SORTED {
        ACYCLIC | INITIAL_ACYCLIC
    } else {
        0
    })
}

/// Whether no flag that transitions are held against is new in `after`.
pub open spec fn no_new_flags(before: u64, after: u64) -> bool {
    after & ADD_TR_CHECKED & before == after & ADD_TR_CHECKED
}

proof fn lemma_add_bits(
    bits: u64,
    a: u64,
    b: u64,
    c: u64,
    d: u64,
    e: u64,
    f: u64,
    g: u64,
    h: u64,
    r: u64,
    x: u64,
    y: u64,
    b1: bool,
    b2: bool,
    b3: bool,
    b4: bool,
    b5: bool,
    b6: bool,
    b7: bool,
    b8: bool,
)
    by (bit_vector)
    requires
        a == flip_model(bits, b1, NOT_ACCEPTOR, ACCEPTOR),
        b == flip_model(a, b2, I_EPSILONS, NO_I_EPSILONS),
        c == flip_model(b, b3, EPSILONS, NO_EPSILONS),
        d == flip_model(c, b4, O_EPSILONS, NO_O_EPSILONS),
        e == flip_model(d, b5, NOT_I_LABEL_SORTED, I_LABEL_SORTED),
        f == flip_model(e, b6, NOT_O_LABEL_SORTED, O_LABEL_SORTED),
        g == flip_model(f, b7, WEIGHTED, UNWEIGHTED),
        h == flip_model(g, b8, NOT_TOP_SORTED, TOP_SORTED) & (ADD_TR_KEEPS | ADD_TR_CHECKED),
        r == with_model(h, h & TOP_SORTED == TOP_SORTED, ACYCLIC | INITIAL_ACYCLIC),
        x == r & DELETE_STATES_KEEPS,
        y == bits & DELETE_STATES_KEEPS,
    ensures
        x & ACCEPTOR == ACCEPTOR ==> !b1,
        x & NO_I_EPSILONS == NO_I_EPSILONS ==> !b2,
        x & NO_EPSILONS == NO_EPSILONS ==> !b3,
        x & NO_O_EPSILONS == NO_O_EPSILONS ==> !b4,
        x & I_LABEL_SORTED == I_LABEL_SORTED ==> !b5,
        x & O_LABEL_SORTED == O_LABEL_SORTED ==> !b6,
        x & UNWEIGHTED == UNWEIGHTED ==> !b7,
        x & TOP_SORTED == TOP_SORTED ==> !b8,
        no_new_flags(y, x),
        settled_flags(x),
        settled_flags(y) && (y & ACCEPTOR == ACCEPTOR ==> !b1) && (y & NO_I_EPSILONS
            == NO_I_EPSILONS ==> !b2) && (y & NO_EPSILONS == NO_EPSILONS ==> !b3) && (y
            & NO_O_EPSILONS == NO_O_EPSILONS ==> !b4) && (y & I_LABEL_SORTED == I_LABEL_SORTED
            ==> !b5) && (y & O_LABEL_SORTED == O_LABEL_SORTED ==> !b6) && (y & UNWEIGHTED
            == UNWEIGHTED ==> !b7) && (y & TOP_SORTED == TOP_SORTED ==> !b8) ==> x == y,
{
}

/// What adding a transition leaves known.
proof fn lemma_add_flags(p: FstProperties, tr: TrShape)
    ensures
        agrees(lasting(p.add_tr_model(tr)), tr),
        no_new_flags(lasting(p), lasting(p.add_tr_model(tr))),
        settled_flags(lasting(p.add_tr_model(tr))),
        settled_flags(lasting(p)) && agrees(lasting(p), tr) ==> lasting(p.add_tr_model(tr))
            == lasting(p),
{
    let unsorted_in = tr.previous matches Some(q) && q.0 > tr.ilabel;
    let unsorted_out = tr.previous matches Some(q) && q.1 > tr.olabel;
    let a = flip_model(p.bits, tr.ilabel != tr.olabel, NOT_ACCEPTOR, ACCEPTOR);
    let b = flip_model(a, tr.ilabel == 0, I_EPSILONS, NO_I_EPSILONS);
    let c = flip_model(b, tr.ilabel == 0 && tr.olabel == 0, EPSILONS, NO_EPSILONS);
    let d = flip_model(c, tr.olabel == 0, O_EPSILONS, NO_O_EPSILONS);
    let e = flip_model(d, unsorted_in, NOT_I_LABEL_SORTED, I_LABEL_SORTED);
    let f = flip_model(e, unsorted_out, NOT_O_LABEL_SORTED, O_LABEL_SORTED);
    let g = flip_model(f, tr.weighted, WEIGHTED, UNWEIGHTED);
    let h = flip_model(g, tr.backward, NOT_TOP_SORTED, TOP_SORTED) & (ADD_TR_KEEPS
        | ADD_TR_CHECKED);
    let r = with_model(h, h & TOP_SORTED == TOP_SORTED, ACYCLIC | INITIAL_ACYCLIC);
    lemma_add_bits(
        p.bits,
        a,
        b,
        c,
        d,
        e,
        f,
        g,
        h,
        r,
        r & DELETE_STATES_KEEPS,
        p.bits & DELETE_STATES_KEEPS,
        tr.ilabel != tr.olabel,
        tr.ilabel == 0,
        tr.ilabel == 0 && tr.olabel == 0,
        tr.olabel == 0,
        unsorted_in,
        unsorted_out,
        tr.weighted,
        tr.backward,
    );
}

/// Fewer flags agree with what more flags agree with.
proof fn lemma_fewer_flags(before: u64, after: u64, tr: TrShape)
    requires
        no_new_flags(before, after),
        agrees(before, tr),
    ensures
        agrees(after, tr),
{
    lemma_fewer_bits(before, after);
}

proof fn lemma_fewer_bits(before: u64, after: u64)
    by (bit_vector)
    requires
        no_new_flags(before, after),
    ensures
        after & ACCEPTOR == ACCEPTOR ==> before & ACCEPTOR == ACCEPTOR,
        after & NO_I_EPSILONS == NO_I_EPSILONS ==> before & NO_I_EPSILONS == NO_I_EPSILONS,
        after & NO_EPSILONS == NO_EPSILONS ==> before & NO_EPSILONS == NO_EPSILONS,
        after & NO_O_EPSILONS == NO_O_EPSILONS ==> before & NO_O_EPSILONS == NO_O_EPSILONS,
        after & I_LABEL_SORTED == I_LABEL_SORTED ==> before & I_LABEL_SORTED == I_LABEL_SORTED,
        after & O_LABEL_SORTED == O_LABEL_SORTED ==> before & O_LABEL_SORTED == O_LABEL_SORTED,
        after & UNWEIGHTED == UNWEIGHTED ==> before & UNWEIGHTED == UNWEIGHTED,
        after & TOP_SORTED == TOP_SORTED ==> before & TOP_SORTED == TOP_SORTED,
{
}

proof fn lemma_flags_chain(a: u64, b: u64, c: u64)
    by (bit_vector)
    requires
        no_new_flags(a, b),
        no_new_flags(b, c),
    ensures
        no_new_flags(a, c),
{
}

proof fn lemma_flags_same(a: u64)
    by (bit_vector)
    ensures
        no_new_flags(a, a),
{
}

/// Removing transitions or a final weight leaves lasting flags as they are.
proof fn lemma_masks_last(bits: u64)
    by (bit_vector)
    ensures
        bits & DELETE_TRS_KEEPS & DELETE_STATES_KEEPS == bits & DELETE_STATES_KEEPS,
        bits & (SET_FINAL_KEEPS | WEIGHTED | UNWEIGHTED) & DELETE_STATES_KEEPS == bits
            & DELETE_STATES_KEEPS,
        bits & !WEIGHTED & (SET_FINAL_KEEPS | WEIGHTED | UNWEIGHTED) & DELETE_STATES_KEEPS == bits
            & DELETE_STATES_KEEPS,
        (bits & DELETE_STATES_KEEPS | (ACCESSIBLE | COACCESSIBLE)) & DELETE_STATES_KEEPS == bits
            & DELETE_STATES_KEEPS,
{
}

/// What of transition `j` of a list at `s` the known properties depend on.
pub open spec fn shape_at<W: Semiring>(s: StateId, trs: Seq<TrM<W::M>>, j: int) -> TrShape {
    TrShape {
        ilabel: trs[j].ilabel,
        olabel: trs[j].olabel,
        weighted: trs[j].weight != W::zero_model() && trs[j].weight != W::one_model(),
        backward: trs[j].nextstate <= s,
        previous: if j == 0 {
            None
        } else {
            Some((trs[j - 1].ilabel, trs[j - 1].olabel))
        },
    }
}

/// Whether the flags contradict no transition of a list at `s`.
pub open spec fn list_agrees<W: Semiring>(c: u64, s: StateId, trs: Seq<TrM<W::M>>) -> bool {
    forall|j: int| 0 <= j < trs.len() ==> agrees(c, #[trigger] shape_at::<W>(s, trs, j))
}

/// Whether the flags contradict no transition of the first `n` states, and are settled
/// if there is one.
pub open spec fn flags_hold<W: Semiring>(fst: FstM<W::M>, n: int) -> bool {
    forall|v: int|
        0 <= v < n ==> {
            &&& list_agrees::<W>(
                lasting(fst.properties),
                v as StateId,
                (#[trigger] fst.states[v]).trs,
            )
            &&& fst.states[v].trs.len() > 0 ==> settled_flags(lasting(fst.properties))
        }
}

proof fn lemma_list_fewer<W: Semiring>(before: u64, after: u64, s: StateId, trs: Seq<TrM<W::M>>)
    requires
        no_new_flags(before, after),
        list_agrees::<W>(before, s, trs),
    ensures
        list_agrees::<W>(after, s, trs),
{
    assert forall|j: int| 0 <= j < trs.len() implies agrees(
        after,
        #[trigger] shape_at::<W>(s, trs, j),
    ) by {
        lemma_fewer_flags(before, after, shape_at::<W>(s, trs, j));
    }
}

proof fn lemma_list_push<W: Semiring>(c: u64, s: StateId, trs: Seq<TrM<W::M>>, tr: TrM<W::M>)
    requires
        list_agrees::<W>(c, s, trs),
        agrees(c, shape_at::<W>(s, trs.push(tr), trs.len() as int)),
    ensures
        list_agrees::<W>(c, s, trs.push(tr)),
{
    let more = trs.push(tr);
    assert forall|j: int| 0 <= j < more.len() implies agrees(
        c,
        #[trigger] shape_at::<W>(s, more, j),
    ) by {
        if j < trs.len() {
            assert(shape_at::<W>(s, more, j) == shape_at::<W>(s, trs, j));
        }
    }
}

/// Putting transitions back leaves flags that agree with those that are there.
proof fn lemma_put_back_flags<W: Semiring>(
    base: FstM<W::M>,
    s: StateId,
    from: W::M,
    to_final: Seq<W::M>,
    limit: W::M,
    trs: Seq<TrM<W::M>>,
)
    requires
        s < base.states.len(),
        base.states[s as int].trs.len() == 0,
        put_back::<W>(base, s, from, to_final, limit, trs).1 is Ok,
    ensures
        ({
            let f = put_back::<W>(base, s, from, to_final, limit, trs).0;
            &&& f.states.len() == base.states.len()
            &&& forall|v: int|
                0 <= v < base.states.len() && v != s ==> #[trigger] f.states[v] == base.states[v]
            &&& no_new_flags(lasting(base.properties), lasting(f.properties))
            &&& list_agrees::<W>(lasting(f.properties), s, f.states[s as int].trs)
            &&& if f.states[s as int].trs.len() > 0 {
                settled_flags(lasting(f.properties))
            } else {
                f.properties == base.properties
            }
        }),
    decreases trs.len(),
{
    lemma_flags_same(lasting(base.properties));
    if trs.len() > 0 {
        lemma_put_back_flags::<W>(base, s, from, to_final, limit, trs.drop_last());
        let before = put_back::<W>(base, s, from, to_final, limit, trs.drop_last()).0;
        let f = put_back::<W>(base, s, from, to_final, limit, trs).0;
        if f != before {
            let list = before.states[s as int].trs;
            let tr = trs.last();
            let shape = tr_shape::<W>(before, s, tr);
            lemma_add_flags(before.properties, shape);
            let (b, a) = (lasting(before.properties), lasting(f.properties));
            lemma_flags_chain(lasting(base.properties), b, a);
            lemma_list_fewer::<W>(b, a, s, list);
            assert(f.states[s as int].trs == list.push(tr));
            assert(shape_at::<W>(s, list.push(tr), list.len() as int) == shape);
            lemma_list_push::<W>(a, s, list, tr);
        }
    }
}

/// Pruning leaves flags that agree with the transitions that are left.
pub proof fn lemma_prune_flags<W: Semiring>(
    fst: FstM<W::M>,
    from_start: Seq<W::M>,
    to_final: Seq<W::M>,
    limit: W::M,
    n: int,
)
    requires
        0 <= n <= fst.states.len() <= u32::MAX,
        prune_states::<W>(fst, from_start, to_final, limit, n).1 is Ok,
    ensures
        ({
            let g = prune_states::<W>(fst, from_start, to_final, limit, n).0;
            g.states.len() == fst.states.len() && flags_hold::<W>(g, n)
        }),
    decreases n,
{
    if n > 0 {
        lemma_prune_flags::<W>(fst, from_start, to_final, limit, n - 1);
        let f = prune_states::<W>(fst, from_start, to_final, limit, n - 1).0;
        let g = prune_states::<W>(fst, from_start, to_final, limit, n).0;
        let s = (n - 1) as StateId;
        let from = distance_at::<W>(from_start, s);
        assert((g, Ok::<(), FstError>(())) == prune_state::<W>(f, s, from, to_final, limit));
        let h = prune_final::<W>(f, s, from, limit).0;
        let base = without_trs(h, s);
        lemma_masks_last(f.properties.bits);
        lemma_masks_last(h.properties.bits);
        assert(lasting(base.properties) == lasting(f.properties));
        lemma_put_back_flags::<W>(base, s, from, to_final, limit, f.states[s as int].trs);
        let (b, a) = (lasting(f.properties), lasting(g.properties));
        assert forall|v: int| 0 <= v < n implies list_agrees::<W>(
            a,
            v as StateId,
            (#[trigger] g.states[v]).trs,
        ) && (g.states[v].trs.len() > 0 ==> settled_flags(a)) by {
            if v < n - 1 {
                assert(g.states[v] == base.states[v]);
                assert(base.states[v] == f.states[v]);
                lemma_list_fewer::<W>(b, a, v as StateId, f.states[v].trs);
            }
        }
    }
}

/// A list whose flags say so is sorted.
proof fn lemma_list_sorted<W: Semiring>(c: u64, s: StateId, trs: Seq<TrM<W::M>>, j: int, k: int)
    requires
        list_agrees::<W>(c, s, trs),
        0 <= j <= k < trs.len(),
    ensures
        c & I_LABEL_SORTED == I_LABEL_SORTED ==> trs[j].ilabel <= trs[k].ilabel,
        c & O_LABEL_SORTED == O_LABEL_SORTED ==> trs[j].olabel <= trs[k].olabel,
    decreases k - j,
{
    if j < k {
        lemma_list_sorted::<W>(c, s, trs, j, k - 1);
        assert(agrees(c, shape_at::<W>(s, trs, k)));
    }
}

/// What is left of a list when the transitions to useless states are gone agrees with
/// the flags that the list agrees with.
proof fn lemma_useful_agrees<W: Semiring>(
    fst: FstM<W::M>,
    c: u64,
    v: int,
    trs: Seq<TrM<W::M>>,
)
    requires
        fst.states.len() <= u32::MAX,
        0 <= v < fst.states.len(),
        useful(fst, v),
        list_agrees::<W>(c, v as StateId, trs),
        forall|j: int| 0 <= j < trs.len() ==> (#[trigger] trs[j]).nextstate < fst.states.len(),
    ensures
        ({
            let list = useful_trs(fst, trs);
            &&& list_agrees::<W>(c, useful_below(fst, v) as StateId, list)
            &&& list.len() > 0 ==> trs.len() > 0
            &&& list.len() > 0 && c & I_LABEL_SORTED == I_LABEL_SORTED ==> list.last().ilabel
                <= trs.last().ilabel
            &&& list.len() > 0 && c & O_LABEL_SORTED == O_LABEL_SORTED ==> list.last().olabel
                <= trs.last().olabel
        }),
    decreases trs.len(),
{
    if trs.len() > 0 {
        let shorter = trs.drop_last();
        let n = fst.states.len() as int;
        let s = v as StateId;
        let t = useful_below(fst, v) as StateId;
        assert forall|j: int| 0 <= j < shorter.len() implies agrees(
            c,
            #[trigger] shape_at::<W>(s, shorter, j),
        ) by {
            assert(shape_at::<W>(s, shorter, j) == shape_at::<W>(s, trs, j));
        }
        assert forall|j: int| 0 <= j < shorter.len() implies (#[trigger] shorter[j]).nextstate
            < fst.states.len() by {
            assert(shorter[j] == trs[j]);
        }
        lemma_useful_agrees::<W>(fst, c, v, shorter);
        let before = useful_trs(fst, shorter);
        let list = useful_trs(fst, trs);
        let tr = trs.last();
        let u = tr.nextstate as int;
        if shorter.len() > 0 {
            assert(shorter.last() == trs[trs.len() - 2]);
            lemma_list_sorted::<W>(c, s, trs, trs.len() - 2, trs.len() - 1);
        }
        if useful(fst, u) {
            assert(trs[trs.len() - 1] == tr);
            assert(agrees(c, shape_at::<W>(s, trs, trs.len() - 1)));
            lemma_useful_state(fst, n, v);
            lemma_useful_state(fst, n, u);
            lemma_useful_count(fst, n);
            if v < u {
                lemma_useful_state(fst, u, v);
            }
            assert(list == before.push(list.last()));
            assert(agrees(c, shape_at::<W>(t, list, before.len() as int)));
            lemma_list_push::<W>(c, t, before, list.last());
        }
    }
}

/// Removing useless states leaves flags that agree with the transitions that are left.
pub proof fn lemma_connect_flags<W: Semiring>(fst: FstM<W::M>)
    requires
        closed_machine(fst),
        fst.states.len() <= u32::MAX,
        flags_hold::<W>(fst, fst.states.len() as int),
    ensures
        lasting(connect_model(fst).properties) == lasting(fst.properties),
        flags_hold::<W>(connect_model(fst), connect_model(fst).states.len() as int),
{
    let out = connect_model(fst);
    let c = lasting(fst.properties);
    lemma_masks_last(fst.properties.bits);
    assert(lasting(out.properties) == c);
    assert forall|i: int| 0 <= i < out.states.len() implies list_agrees::<W>(
        c,
        i as StateId,
        (#[trigger] out.states[i]).trs,
    ) && (out.states[i].trs.len() > 0 ==> settled_flags(c)) by {
        let v = lemma_connect_state_back(fst, i);
        lemma_useful_state(fst, fst.states.len() as int, v);
        let trs = fst.states[v].trs;
        assert forall|j: int| 0 <= j < trs.len() implies (#[trigger] trs[j]).nextstate
            < fst.states.len() by {
            assert(fst.states[v].trs[j].nextstate < fst.states.len());
        }
        lemma_useful_agrees::<W>(fst, c, v, trs);
    }
}

/// Adding a transition that agrees with settled flags leaves them as they are.
pub proof fn lemma_added_agrees<W: Semiring>(
    fst: FstM<W::M>,
    s: StateId,
    trs: Seq<TrM<W::M>>,
    j: int,
)
    requires
        s < fst.states.len(),
        0 <= j < trs.len(),
        fst.states[s as int].trs == trs.take(j),
        list_agrees::<W>(lasting(fst.properties), s, trs),
        settled_flags(lasting(fst.properties)),
    ensures
        lasting(fst.properties.add_tr_model(tr_shape::<W>(fst, s, trs[j]))) == lasting(
            fst.properties,
        ),
{
    if j > 0 {
        assert(trs.take(j).last() == trs[j - 1]);
    }
    assert(tr_shape::<W>(fst, s, trs[j]) == shape_at::<W>(s, trs, j));
    lemma_add_flags(fst.properties, tr_shape::<W>(fst, s, trs[j]));
}

/// Taking the transitions of a state away leaves lasting flags as they are.
pub proof fn lemma_without_trs_flags<M>(fst: FstM<M>, s: StateId)
    ensures
        lasting(without_trs(fst, s).properties) == lasting(fst.properties),
{
    lemma_masks_last(fst.properties.bits);
}

} // verus!
