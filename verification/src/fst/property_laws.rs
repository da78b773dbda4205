//! What is known of a machine is true of it.

use crate::fst::properties::{
    flip_model, with_model, FstProperties, TrShape, ACCEPTOR, ACCESSIBLE, ACYCLIC, ADD_STATE_KEEPS,
    ADD_TR_CHECKED, ADD_TR_KEEPS, COACCESSIBLE, CYCLIC, DELETE_TRS_KEEPS, EPSILONS,
    INITIAL_ACYCLIC, INITIAL_CYCLIC, I_DETERMINISTIC, I_EPSILONS, I_LABEL_SORTED, NOT_ACCEPTOR,
    NOT_ACCESSIBLE, NOT_COACCESSIBLE, NOT_I_DETERMINISTIC, NOT_I_LABEL_SORTED, NOT_O_DETERMINISTIC,
    NOT_O_LABEL_SORTED, NOT_TOP_SORTED, NO_EPSILONS, NO_I_EPSILONS, NO_O_EPSILONS, NULL_PROPERTIES,
    O_DETERMINISTIC, O_EPSILONS, O_LABEL_SORTED, SET_FINAL_KEEPS, SET_START_KEEPS, TOP_SORTED,
    UNWEIGHTED, WEIGHTED,
};
use crate::fst::tr::{Label, StateId, TrM, EPS_LABEL};
use crate::fst::vector_fst::{tr_shape, weighted_model, with_final, with_tr, FstM};
use crate::paths::{is_path, lemma_path_end, path_end};
use crate::prune::without_trs;
use crate::semirings::semiring::Semiring;
use vstd::prelude::*;

verus! {

/// What can be said of a transition by itself.
pub enum Trait {
    /// It writes something else than it reads.
    Translates,
    /// It reads nothing and writes nothing.
    Empty,
    /// It reads nothing.
    ReadsNothing,
    /// It writes nothing.
    WritesNothing,
    /// Its weight is neither zero nor one.
    Weighted,
    /// It does not lead to a state with a larger id.
    Backward,
}

/// Whether the transition from `v` has the trait.
pub open spec fn shows<W: Semiring>(t: Trait, v: int, tr: TrM<W::M>) -> bool {
    match t {
        Trait::Translates => tr.ilabel != tr.olabel,
        Trait::Empty => tr.ilabel == EPS_LABEL && tr.olabel == EPS_LABEL,
        Trait::ReadsNothing => tr.ilabel == EPS_LABEL,
        Trait::WritesNothing => tr.olabel == EPS_LABEL,
        Trait::Weighted => tr.weight != W::zero_model() && tr.weight != W::one_model(),
        Trait::Backward => tr.nextstate <= v,
    }
}

/// No transition has the trait.
pub open spec fn none<W: Semiring>(fst: FstM<W::M>, t: Trait) -> bool {
    forall|v: int, j: int|
        0 <= v < fst.states.len() && 0 <= j < fst.states[v].trs.len() ==> !shows::<W>(
            t,
            v,
            #[trigger] fst.states[v].trs[j],
        )
}

/// Some transition has the trait.
pub open spec fn some<W: Semiring>(fst: FstM<W::M>, t: Trait) -> bool {
    exists|v: int, j: int|
        0 <= v < fst.states.len() && 0 <= j < fst.states[v].trs.len() && shows::<W>(
            t,
            v,
            #[trigger] fst.states[v].trs[j],
        )
}

/// The label of a transition on one of its sides.
pub open spec fn label_on<M>(tr: TrM<M>, input: bool) -> Label {
    if input {
        tr.ilabel
    } else {
        tr.olabel
    }
}

/// The transitions of every state are sorted by label.
pub open spec fn sorted<M>(fst: FstM<M>, input: bool) -> bool {
    forall|v: int, i: int, j: int|
        0 <= v < fst.states.len() && 0 <= i < j < fst.states[v].trs.len() ==> label_on(
            #[trigger] fst.states[v].trs[i],
            input,
        ) <= label_on(#[trigger] fst.states[v].trs[j], input)
}

/// The transitions of some state are not sorted by label.
pub open spec fn unsorted<M>(fst: FstM<M>, input: bool) -> bool {
    exists|v: int, i: int, j: int|
        0 <= v < fst.states.len() && 0 <= i < j < fst.states[v].trs.len() && label_on(
            #[trigger] fst.states[v].trs[i],
            input,
        ) > label_on(#[trigger] fst.states[v].trs[j], input)
}

/// No state has two transitions with the same label.
pub open spec fn distinct<M>(fst: FstM<M>, input: bool) -> bool {
    forall|v: int, i: int, j: int|
        0 <= v < fst.states.len() && 0 <= i < j < fst.states[v].trs.len() ==> label_on(
            #[trigger] fst.states[v].trs[i],
            input,
        ) != label_on(#[trigger] fst.states[v].trs[j], input)
}

/// Some state has two transitions with the same label.
pub open spec fn repeated<M>(fst: FstM<M>, input: bool) -> bool {
    exists|v: int, i: int, j: int|
        0 <= v < fst.states.len() && 0 <= i < j < fst.states[v].trs.len() && label_on(
            #[trigger] fst.states[v].trs[i],
            input,
        ) == label_on(#[trigger] fst.states[v].trs[j], input)
}

/// No final weight is other than zero or one.
pub open spec fn plain_ends<W: Semiring>(fst: FstM<W::M>) -> bool {
    forall|v: int|
        0 <= v < fst.states.len() ==> !weighted_model::<W>((#[trigger] fst.states[v]).final_weight)
}

/// A path of at least one transition leads from `u` to `v`.
pub open spec fn leads_to<M>(fst: FstM<M>, u: int, v: int) -> bool {
    exists|path: Seq<TrM<M>>| path.len() > 0 && #[trigger] is_path(fst, u, path) && path_end(u, path)
        == v
}

/// Some state can reach itself.
pub open spec fn cyclic<M>(fst: FstM<M>) -> bool {
    exists|v: int| #[trigger] leads_to(fst, v, v)
}

/// The start state can reach itself.
pub open spec fn initial_cyclic<M>(fst: FstM<M>) -> bool {
    fst.start matches Some(s) && leads_to(fst, s as int, s as int)
}

/// The state can be reached from the start state.
pub open spec fn from_start<M>(fst: FstM<M>, v: int) -> bool {
    fst.start matches Some(s) && exists|path: Seq<TrM<M>>| #[trigger] is_path(fst, s as int, path)
        && path_end(s as int, path) == v
}

/// The state can reach a final state.
pub open spec fn to_final<M>(fst: FstM<M>, v: int) -> bool {
    exists|path: Seq<TrM<M>>| #[trigger] is_path(fst, v, path) && fst.states[path_end(
        v,
        path,
    )].final_weight is Some
}

/// What is known of the machine is true of it.
pub open spec fn properties_hold<W: Semiring>(fst: FstM<W::M>) -> bool {
    let p = fst.properties;
    &&& p.has(ACCEPTOR) ==> none::<W>(fst, Trait::Translates)
    &&& p.has(NOT_ACCEPTOR) ==> some::<W>(fst, Trait::Translates)
    &&& p.has(I_DETERMINISTIC) ==> distinct(fst, true)
    &&& p.has(NOT_I_DETERMINISTIC) ==> repeated(fst, true)
    &&& p.has(O_DETERMINISTIC) ==> distinct(fst, false)
    &&& p.has(NOT_O_DETERMINISTIC) ==> repeated(fst, false)
    &&& p.has(NO_EPSILONS) ==> none::<W>(fst, Trait::Empty)
    &&& p.has(EPSILONS) ==> some::<W>(fst, Trait::Empty)
    &&& p.has(NO_I_EPSILONS) ==> none::<W>(fst, Trait::ReadsNothing)
    &&& p.has(I_EPSILONS) ==> some::<W>(fst, Trait::ReadsNothing)
    &&& p.has(NO_O_EPSILONS) ==> none::<W>(fst, Trait::WritesNothing)
    &&& p.has(O_EPSILONS) ==> some::<W>(fst, Trait::WritesNothing)
    &&& p.has(I_LABEL_SORTED) ==> sorted(fst, true)
    &&& p.has(NOT_I_LABEL_SORTED) ==> unsorted(fst, true)
    &&& p.has(O_LABEL_SORTED) ==> sorted(fst, false)
    &&& p.has(NOT_O_LABEL_SORTED) ==> unsorted(fst, false)
    &&& p.has(UNWEIGHTED) ==> none::<W>(fst, Trait::Weighted) && plain_ends::<W>(fst)
    &&& p.has(WEIGHTED) ==> some::<W>(fst, Trait::Weighted) || !plain_ends::<W>(fst)
    &&& p.has(TOP_SORTED) ==> none::<W>(fst, Trait::Backward)
    &&& p.has(NOT_TOP_SORTED) ==> some::<W>(fst, Trait::Backward)
    &&& p.has(CYCLIC) ==> cyclic(fst)
    &&& p.has(ACYCLIC) ==> !cyclic(fst)
    &&& p.has(INITIAL_CYCLIC) ==> initial_cyclic(fst)
    &&& p.has(INITIAL_ACYCLIC) ==> !initial_cyclic(fst)
    &&& p.has(ACCESSIBLE) ==> forall|v: int|
        0 <= v < fst.states.len() ==> #[trigger] from_start(fst, v)
    &&& p.has(NOT_ACCESSIBLE) ==> exists|v: int|
        0 <= v < fst.states.len() && !(#[trigger] from_start(fst, v))
    &&& p.has(COACCESSIBLE) ==> forall|v: int|
        0 <= v < fst.states.len() ==> #[trigger] to_final(fst, v)
    &&& p.has(NOT_COACCESSIBLE) ==> exists|v: int|
        0 <= v < fst.states.len() && !(#[trigger] to_final(fst, v))
}

/// A flag is set exactly when it was set before.
spec fn kept(bits: u64, r: u64, flag: u64) -> bool {
    r & flag == flag <==> bits & flag == flag
}

/// A flag is not set.
spec fn absent(r: u64, flag: u64) -> bool {
    r & flag != flag
}

proof fn lemma_add_state_bits(bits: u64, r: u64)
    by (bit_vector)
    requires
        r == bits & ADD_STATE_KEEPS,
    ensures
        kept(bits, r, ACCEPTOR),
        kept(bits, r, NOT_ACCEPTOR),
        kept(bits, r, I_DETERMINISTIC),
        kept(bits, r, NOT_I_DETERMINISTIC),
        kept(bits, r, O_DETERMINISTIC),
        kept(bits, r, NOT_O_DETERMINISTIC),
        kept(bits, r, EPSILONS),
        kept(bits, r, NO_EPSILONS),
        kept(bits, r, I_EPSILONS),
        kept(bits, r, NO_I_EPSILONS),
        kept(bits, r, O_EPSILONS),
        kept(bits, r, NO_O_EPSILONS),
        kept(bits, r, I_LABEL_SORTED),
        kept(bits, r, NOT_I_LABEL_SORTED),
        kept(bits, r, O_LABEL_SORTED),
        kept(bits, r, NOT_O_LABEL_SORTED),
        kept(bits, r, WEIGHTED),
        kept(bits, r, UNWEIGHTED),
        kept(bits, r, CYCLIC),
        kept(bits, r, ACYCLIC),
        kept(bits, r, INITIAL_CYCLIC),
        kept(bits, r, INITIAL_ACYCLIC),
        kept(bits, r, TOP_SORTED),
        kept(bits, r, NOT_TOP_SORTED),
        absent(r, ACCESSIBLE),
        kept(bits, r, NOT_ACCESSIBLE),
        absent(r, COACCESSIBLE),
        kept(bits, r, NOT_COACCESSIBLE),
{
}

proof fn lemma_delete_trs_bits(bits: u64, r: u64)
    by (bit_vector)
    requires
        r == bits & DELETE_TRS_KEEPS,
    ensures
        kept(bits, r, ACCEPTOR),
        absent(r, NOT_ACCEPTOR),
        kept(bits, r, I_DETERMINISTIC),
        absent(r, NOT_I_DETERMINISTIC),
        kept(bits, r, O_DETERMINISTIC),
        absent(r, NOT_O_DETERMINISTIC),
        absent(r, EPSILONS),
        kept(bits, r, NO_EPSILONS),
        absent(r, I_EPSILONS),
        kept(bits, r, NO_I_EPSILONS),
        absent(r, O_EPSILONS),
        kept(bits, r, NO_O_EPSILONS),
        kept(bits, r, I_LABEL_SORTED),
        absent(r, NOT_I_LABEL_SORTED),
        kept(bits, r, O_LABEL_SORTED),
        absent(r, NOT_O_LABEL_SORTED),
        absent(r, WEIGHTED),
        kept(bits, r, UNWEIGHTED),
        absent(r, CYCLIC),
        kept(bits, r, ACYCLIC),
        absent(r, INITIAL_CYCLIC),
        kept(bits, r, INITIAL_ACYCLIC),
        kept(bits, r, TOP_SORTED),
        absent(r, NOT_TOP_SORTED),
        absent(r, ACCESSIBLE),
        kept(bits, r, NOT_ACCESSIBLE),
        absent(r, COACCESSIBLE),
        kept(bits, r, NOT_COACCESSIBLE),
{
}

proof fn lemma_start_bits(bits: u64, r: u64)
    by (bit_vector)
    requires
        r == bits & SET_START_KEEPS,
    ensures
        kept(bits, r, ACCEPTOR),
        kept(bits, r, NOT_ACCEPTOR),
        kept(bits, r, I_DETERMINISTIC),
        kept(bits, r, NOT_I_DETERMINISTIC),
        kept(bits, r, O_DETERMINISTIC),
        kept(bits, r, NOT_O_DETERMINISTIC),
        kept(bits, r, EPSILONS),
        kept(bits, r, NO_EPSILONS),
        kept(bits, r, I_EPSILONS),
        kept(bits, r, NO_I_EPSILONS),
        kept(bits, r, O_EPSILONS),
        kept(bits, r, NO_O_EPSILONS),
        kept(bits, r, I_LABEL_SORTED),
        kept(bits, r, NOT_I_LABEL_SORTED),
        kept(bits, r, O_LABEL_SORTED),
        kept(bits, r, NOT_O_LABEL_SORTED),
        kept(bits, r, WEIGHTED),
        kept(bits, r, UNWEIGHTED),
        kept(bits, r, CYCLIC),
        kept(bits, r, ACYCLIC),
        absent(r, INITIAL_CYCLIC),
        absent(r, INITIAL_ACYCLIC),
        kept(bits, r, TOP_SORTED),
        kept(bits, r, NOT_TOP_SORTED),
        absent(r, ACCESSIBLE),
        absent(r, NOT_ACCESSIBLE),
        kept(bits, r, COACCESSIBLE),
        kept(bits, r, NOT_COACCESSIBLE),
{
}

proof fn lemma_final_bits(bits: u64, a: u64, b: u64, r: u64, was: bool, now: bool)
    by (bit_vector)
    requires
        a == if was {
            bits & !WEIGHTED
        } else {
            bits
        },
        b == flip_model(a, now, WEIGHTED, UNWEIGHTED),
        r == b & (SET_FINAL_KEEPS | WEIGHTED | UNWEIGHTED),
    ensures
        kept(bits, r, ACCEPTOR),
        kept(bits, r, NOT_ACCEPTOR),
        kept(bits, r, I_DETERMINISTIC),
        kept(bits, r, NOT_I_DETERMINISTIC),
        kept(bits, r, O_DETERMINISTIC),
        kept(bits, r, NOT_O_DETERMINISTIC),
        kept(bits, r, EPSILONS),
        kept(bits, r, NO_EPSILONS),
        kept(bits, r, I_EPSILONS),
        kept(bits, r, NO_I_EPSILONS),
        kept(bits, r, O_EPSILONS),
        kept(bits, r, NO_O_EPSILONS),
        kept(bits, r, I_LABEL_SORTED),
        kept(bits, r, NOT_I_LABEL_SORTED),
        kept(bits, r, O_LABEL_SORTED),
        kept(bits, r, NOT_O_LABEL_SORTED),
        kept(bits, r, CYCLIC),
        kept(bits, r, ACYCLIC),
        kept(bits, r, INITIAL_CYCLIC),
        kept(bits, r, INITIAL_ACYCLIC),
        kept(bits, r, TOP_SORTED),
        kept(bits, r, NOT_TOP_SORTED),
        kept(bits, r, ACCESSIBLE),
        kept(bits, r, NOT_ACCESSIBLE),
        absent(r, COACCESSIBLE),
        absent(r, NOT_COACCESSIBLE),
        r & UNWEIGHTED == UNWEIGHTED <==> bits & UNWEIGHTED == UNWEIGHTED && !now,
        r & WEIGHTED == WEIGHTED <==> now || (bits & WEIGHTED == WEIGHTED && !was),
{
}

proof fn lemma_add_tr_bits(
    bits: u64,
    a: u64,
    b: u64,
    c: u64,
    d: u64,
    e: u64,
    f: u64,
    g: u64,
    h: u64,
    r: u64,
    b1: bool,
    b2: bool,
    b3: bool,
    b4: bool,
    b5: bool,
    b6: bool,
    b7: bool,
    b8: bool,
)
    by (bit_vector)
    requires
        a == flip_model(bits, b1, NOT_ACCEPTOR, ACCEPTOR),
        b == flip_model(a, b2, I_EPSILONS, NO_I_EPSILONS),
        c == flip_model(b, b3, EPSILONS, NO_EPSILONS),
        d == flip_model(c, b4, O_EPSILONS, NO_O_EPSILONS),
        e == flip_model(d, b5, NOT_I_LABEL_SORTED, I_LABEL_SORTED),
        f == flip_model(e, b6, NOT_O_LABEL_SORTED, O_LABEL_SORTED),
        g == flip_model(f, b7, WEIGHTED, UNWEIGHTED),
        h == flip_model(g, b8, NOT_TOP_SORTED, TOP_SORTED) & (ADD_TR_KEEPS | ADD_TR_CHECKED),
        r == with_model(h, h & TOP_SORTED == TOP_SORTED, ACYCLIC | INITIAL_ACYCLIC),
    ensures
        r & ACCEPTOR == ACCEPTOR <==> bits & ACCEPTOR == ACCEPTOR && !b1,
        r & NOT_ACCEPTOR == NOT_ACCEPTOR <==> bits & NOT_ACCEPTOR == NOT_ACCEPTOR || b1,
        r & NO_I_EPSILONS == NO_I_EPSILONS <==> bits & NO_I_EPSILONS == NO_I_EPSILONS && !b2,
        r & I_EPSILONS == I_EPSILONS <==> bits & I_EPSILONS == I_EPSILONS || b2,
        r & NO_EPSILONS == NO_EPSILONS <==> bits & NO_EPSILONS == NO_EPSILONS && !b3,
        r & EPSILONS == EPSILONS <==> bits & EPSILONS == EPSILONS || b3,
        r & NO_O_EPSILONS == NO_O_EPSILONS <==> bits & NO_O_EPSILONS == NO_O_EPSILONS && !b4,
        r & O_EPSILONS == O_EPSILONS <==> bits & O_EPSILONS == O_EPSILONS || b4,
        r & I_LABEL_SORTED == I_LABEL_SORTED <==> bits & I_LABEL_SORTED == I_LABEL_SORTED && !b5,
        r & NOT_I_LABEL_SORTED == NOT_I_LABEL_SORTED <==> bits & NOT_I_LABEL_SORTED == NOT_I_LABEL_SORTED || b5,
        r & O_LABEL_SORTED == O_LABEL_SORTED <==> bits & O_LABEL_SORTED == O_LABEL_SORTED && !b6,
        r & NOT_O_LABEL_SORTED == NOT_O_LABEL_SORTED <==> bits & NOT_O_LABEL_SORTED == NOT_O_LABEL_SORTED || b6,
        r & UNWEIGHTED == UNWEIGHTED <==> bits & UNWEIGHTED == UNWEIGHTED && !b7,
        r & WEIGHTED == WEIGHTED <==> bits & WEIGHTED == WEIGHTED || b7,
        r & TOP_SORTED == TOP_SORTED <==> bits & TOP_SORTED == TOP_SORTED && !b8,
        r & NOT_TOP_SORTED == NOT_TOP_SORTED <==> bits & NOT_TOP_SORTED == NOT_TOP_SORTED || b8,
        absent(r, I_DETERMINISTIC),
        kept(bits, r, NOT_I_DETERMINISTIC),
        absent(r, O_DETERMINISTIC),
        kept(bits, r, NOT_O_DETERMINISTIC),
        kept(bits, r, CYCLIC),
        r & ACYCLIC == ACYCLIC <==> r & TOP_SORTED == TOP_SORTED,
        kept(bits, r, INITIAL_CYCLIC),
        r & INITIAL_ACYCLIC == INITIAL_ACYCLIC <==> r & TOP_SORTED == TOP_SORTED,
        kept(bits, r, ACCESSIBLE),
        absent(r, NOT_ACCESSIBLE),
        kept(bits, r, COACCESSIBLE),
        absent(r, NOT_COACCESSIBLE),
{
}

/// What is known after a transition was added: of what can be said of a single transition,
/// that it was known before and the new one is no exception, or that the new one is a case
/// of it.
pub proof fn law_added_transition_is_noted(p: FstProperties, tr: TrShape)
    ensures
        ({
            let after = p.add_tr_model(tr);
            let unsorted_in = tr.previous matches Some(q) && q.0 > tr.ilabel;
            let unsorted_out = tr.previous matches Some(q) && q.1 > tr.olabel;
            &&& after.has(ACCEPTOR) <==> p.has(ACCEPTOR) && tr.ilabel == tr.olabel
            &&& after.has(NOT_ACCEPTOR) <==> p.has(NOT_ACCEPTOR) || tr.ilabel != tr.olabel
            &&& after.has(NO_I_EPSILONS) <==> p.has(NO_I_EPSILONS) && tr.ilabel != 0
            &&& after.has(I_EPSILONS) <==> p.has(I_EPSILONS) || tr.ilabel == 0
            &&& after.has(NO_O_EPSILONS) <==> p.has(NO_O_EPSILONS) && tr.olabel != 0
            &&& after.has(O_EPSILONS) <==> p.has(O_EPSILONS) || tr.olabel == 0
            &&& after.has(NO_EPSILONS) <==> p.has(NO_EPSILONS) && !(tr.ilabel == 0 && tr.olabel
                == 0)
            &&& after.has(EPSILONS) <==> p.has(EPSILONS) || (tr.ilabel == 0 && tr.olabel == 0)
            &&& after.has(I_LABEL_SORTED) <==> p.has(I_LABEL_SORTED) && !unsorted_in
            &&& after.has(NOT_I_LABEL_SORTED) <==> p.has(NOT_I_LABEL_SORTED) || unsorted_in
            &&& after.has(O_LABEL_SORTED) <==> p.has(O_LABEL_SORTED) && !unsorted_out
            &&& after.has(NOT_O_LABEL_SORTED) <==> p.has(NOT_O_LABEL_SORTED) || unsorted_out
            &&& after.has(UNWEIGHTED) <==> p.has(UNWEIGHTED) && !tr.weighted
            &&& after.has(WEIGHTED) <==> p.has(WEIGHTED) || tr.weighted
            &&& after.has(TOP_SORTED) <==> p.has(TOP_SORTED) && !tr.backward
            &&& after.has(NOT_TOP_SORTED) <==> p.has(NOT_TOP_SORTED) || tr.backward
            &&& after.has(ACYCLIC) <==> after.has(TOP_SORTED)
            &&& after.has(INITIAL_ACYCLIC) <==> after.has(TOP_SORTED)
            &&& after.has(CYCLIC) <==> p.has(CYCLIC)
            &&& after.has(INITIAL_CYCLIC) <==> p.has(INITIAL_CYCLIC)
            &&& after.has(ACCESSIBLE) <==> p.has(ACCESSIBLE)
            &&& after.has(COACCESSIBLE) <==> p.has(COACCESSIBLE)
            &&& after.has(NOT_I_DETERMINISTIC) <==> p.has(NOT_I_DETERMINISTIC)
            &&& after.has(NOT_O_DETERMINISTIC) <==> p.has(NOT_O_DETERMINISTIC)
            &&& !after.has(I_DETERMINISTIC)
            &&& !after.has(O_DETERMINISTIC)
            &&& !after.has(NOT_ACCESSIBLE)
            &&& !after.has(NOT_COACCESSIBLE)
        }),
{
    let unsorted_in = tr.previous matches Some(q) && q.0 > tr.ilabel;
    let unsorted_out = tr.previous matches Some(q) && q.1 > tr.olabel;
    let a = flip_model(p.bits, tr.ilabel != tr.olabel, NOT_ACCEPTOR, ACCEPTOR);
    let b = flip_model(a, tr.ilabel == 0, I_EPSILONS, NO_I_EPSILONS);
    let c = flip_model(b, tr.ilabel == 0 && tr.olabel == 0, EPSILONS, NO_EPSILONS);
    let d = flip_model(c, tr.olabel == 0, O_EPSILONS, NO_O_EPSILONS);
    let e = flip_model(d, unsorted_in, NOT_I_LABEL_SORTED, I_LABEL_SORTED);
    let f = flip_model(e, unsorted_out, NOT_O_LABEL_SORTED, O_LABEL_SORTED);
    let g = flip_model(f, tr.weighted, WEIGHTED, UNWEIGHTED);
    let h = flip_model(g, tr.backward, NOT_TOP_SORTED, TOP_SORTED) & (ADD_TR_KEEPS
        | ADD_TR_CHECKED);
    let r = with_model(h, h & TOP_SORTED == TOP_SORTED, ACYCLIC | INITIAL_ACYCLIC);
    lemma_add_tr_bits(
        p.bits,
        a,
        b,
        c,
        d,
        e,
        f,
        g,
        h,
        r,
        tr.ilabel != tr.olabel,
        tr.ilabel == 0,
        tr.ilabel == 0 && tr.olabel == 0,
        tr.olabel == 0,
        unsorted_in,
        unsorted_out,
        tr.weighted,
        tr.backward,
    );
    assert(p.add_tr_model(tr).bits == r);
}

proof fn lemma_null_bits(r: u64)
    by (bit_vector)
    requires
        r == NULL_PROPERTIES,
    ensures
        absent(r, NOT_ACCEPTOR),
        absent(r, NOT_I_DETERMINISTIC),
        absent(r, NOT_O_DETERMINISTIC),
        absent(r, EPSILONS),
        absent(r, I_EPSILONS),
        absent(r, O_EPSILONS),
        absent(r, NOT_I_LABEL_SORTED),
        absent(r, NOT_O_LABEL_SORTED),
        absent(r, WEIGHTED),
        absent(r, NOT_TOP_SORTED),
        absent(r, CYCLIC),
        absent(r, INITIAL_CYCLIC),
        absent(r, NOT_ACCESSIBLE),
        absent(r, NOT_COACCESSIBLE),
        r & ACCEPTOR == ACCEPTOR,
        r & ACYCLIC == ACYCLIC,
        r & TOP_SORTED == TOP_SORTED,
{
}

/// Every transition of `a` is one of `b`, at the same state.
pub open spec fn extends<M>(a: FstM<M>, b: FstM<M>) -> bool {
    &&& a.states.len() <= b.states.len()
    &&& forall|v: int, j: int|
        0 <= v < a.states.len() && 0 <= j < a.states[v].trs.len() ==> b.states[v].trs.contains(
            #[trigger] a.states[v].trs[j],
        )
}

/// A path goes on to be one when transitions are added.
pub proof fn lemma_path_extends<M>(a: FstM<M>, b: FstM<M>, s: int, path: Seq<TrM<M>>)
    requires
        extends(a, b),
        is_path(a, s, path),
    ensures
        is_path(b, s, path),
    decreases path.len(),
{
    if path.len() > 0 {
        let j = choose|j: int| 0 <= j < a.states[s].trs.len() && a.states[s].trs[j] == path[0];
        assert(b.states[s].trs.contains(a.states[s].trs[j]));
        lemma_path_extends(a, b, path[0].nextstate as int, path.drop_first());
    }
}

proof fn lemma_leads_extends<M>(a: FstM<M>, b: FstM<M>)
    requires
        extends(a, b),
    ensures
        forall|u: int, v: int| leads_to(a, u, v) ==> #[trigger] leads_to(b, u, v),
        cyclic(a) ==> cyclic(b),
        a.start == b.start && initial_cyclic(a) ==> initial_cyclic(b),
        a.start == b.start ==> forall|v: int| from_start(a, v) ==> #[trigger] from_start(b, v),
{
    assert forall|u: int, v: int| leads_to(a, u, v) implies #[trigger] leads_to(b, u, v) by {
        let path = choose|path: Seq<TrM<M>>|
            path.len() > 0 && #[trigger] is_path(a, u, path) && path_end(u, path) == v;
        lemma_path_extends(a, b, u, path);
    }
    if cyclic(a) {
        let v = choose|v: int| #[trigger] leads_to(a, v, v);
        assert(leads_to(b, v, v));
    }
    if a.start == b.start {
        assert forall|v: int| from_start(a, v) implies #[trigger] from_start(b, v) by {
            let s = a.start->0 as int;
            let path = choose|path: Seq<TrM<M>>| #[trigger] is_path(a, s, path) && path_end(s, path)
                == v;
            lemma_path_extends(a, b, s, path);
        }
    }
}

proof fn lemma_to_final_extends<M>(a: FstM<M>, b: FstM<M>, v: int)
    requires
        extends(a, b),
        to_final(a, v),
        forall|q: int|
            0 <= q < a.states.len() && a.states[q].final_weight is Some ==> (
            #[trigger] b.states[q]).final_weight is Some,
    ensures
        to_final(b, v),
{
    let path = choose|path: Seq<TrM<M>>| #[trigger] is_path(a, v, path) && a.states[path_end(
        v,
        path,
    )].final_weight is Some;
    lemma_path_extends(a, b, v, path);
    lemma_path_end(a, v, path);
    assert(b.states[path_end(v, path)].final_weight is Some);
}

/// In a machine whose transitions all lead to larger ids, no state reaches itself.
proof fn lemma_forward_path<W: Semiring>(fst: FstM<W::M>, s: int, path: Seq<TrM<W::M>>)
    requires
        none::<W>(fst, Trait::Backward),
        is_path(fst, s, path),
    ensures
        path.len() > 0 ==> path_end(s, path) > s,
    decreases path.len(),
{
    if path.len() > 0 {
        let j = choose|j: int| 0 <= j < fst.states[s].trs.len() && fst.states[s].trs[j] == path[0];
        assert(!shows::<W>(Trait::Backward, s, fst.states[s].trs[j]));
        let rest = path.drop_first();
        lemma_forward_path::<W>(fst, path[0].nextstate as int, rest);
        lemma_path_end(fst, s, path);
    }
}

/// A machine whose transitions all lead to larger ids has no cycles.
pub proof fn law_top_sorted_is_acyclic<W: Semiring>(fst: FstM<W::M>)
    requires
        none::<W>(fst, Trait::Backward),
    ensures
        !cyclic(fst),
        !initial_cyclic(fst),
{
    assert forall|v: int| !leads_to(fst, v, v) by {
        if leads_to(fst, v, v) {
            let path = choose|path: Seq<TrM<W::M>>|
                path.len() > 0 && #[trigger] is_path(fst, v, path) && path_end(v, path) == v;
            lemma_forward_path::<W>(fst, v, path);
        }
    }
}

/// What is known of a machine without states is true.
pub proof fn law_properties_hold_of_empty<W: Semiring>()
    ensures
        properties_hold::<W>(FstM::<W::M>::empty()),
        FstM::<W::M>::empty().properties.has(ACCEPTOR),
{
    let fst = FstM::<W::M>::empty();
    lemma_null_bits(fst.properties.bits);
    assert(!cyclic(fst)) by {
        assert forall|v: int| !leads_to(fst, v, v) by {}
    }
}

/// The machine with one more transition at `s`, as far as its states go.
proof fn lemma_added<W: Semiring>(fst: FstM<W::M>, s: StateId, tr: TrM<W::M>)
    requires
        fst.has_state(s),
    ensures
        ({
            let b = with_tr::<W>(fst, s, tr);
            let last = fst.states[s as int].trs.len() as int;
            &&& b.states.len() == fst.states.len()
            &&& forall|v: int|
                0 <= v < fst.states.len() && v != s ==> #[trigger] b.states[v] == fst.states[v]
            &&& b.states[s as int].trs == fst.states[s as int].trs.push(tr)
            &&& b.states[s as int].final_weight == fst.states[s as int].final_weight
            &&& b.states[s as int].trs[last] == tr
            &&& forall|j: int|
                0 <= j < last ==> #[trigger] b.states[s as int].trs[j]
                    == fst.states[s as int].trs[j]
            &&& extends(fst, b)
        }),
{
    let b = with_tr::<W>(fst, s, tr);
    assert forall|v: int, j: int|
        0 <= v < fst.states.len() && 0 <= j < fst.states[v].trs.len() implies b.states[v].trs.contains(
        #[trigger] fst.states[v].trs[j],
    ) by {
        assert(b.states[v].trs[j] == fst.states[v].trs[j]);
    }
}

proof fn lemma_added_traits<W: Semiring>(fst: FstM<W::M>, s: StateId, tr: TrM<W::M>, t: Trait)
    requires
        fst.has_state(s),
    ensures
        none::<W>(with_tr::<W>(fst, s, tr), t) <==> none::<W>(fst, t) && !shows::<W>(
            t,
            s as int,
            tr,
        ),
        some::<W>(with_tr::<W>(fst, s, tr), t) <==> some::<W>(fst, t) || shows::<W>(
            t,
            s as int,
            tr,
        ),
{
    let b = with_tr::<W>(fst, s, tr);
    lemma_added::<W>(fst, s, tr);
    let last = fst.states[s as int].trs.len() as int;
    if shows::<W>(t, s as int, tr) {
        assert(shows::<W>(t, s as int, b.states[s as int].trs[last]));
    }
    if some::<W>(fst, t) {
        let (v, j) = choose|v: int, j: int|
            0 <= v < fst.states.len() && 0 <= j < fst.states[v].trs.len() && shows::<W>(
                t,
                v,
                #[trigger] fst.states[v].trs[j],
            );
        assert(shows::<W>(t, v, b.states[v].trs[j]));
    }
    if some::<W>(b, t) && !shows::<W>(t, s as int, tr) {
        let (v, j) = choose|v: int, j: int|
            0 <= v < b.states.len() && 0 <= j < b.states[v].trs.len() && shows::<W>(
                t,
                v,
                #[trigger] b.states[v].trs[j],
            );
        assert(shows::<W>(t, v, fst.states[v].trs[j]));
    }
    if none::<W>(b, t) {
        assert forall|v: int, j: int|
            0 <= v < fst.states.len() && 0 <= j < fst.states[v].trs.len() implies !shows::<W>(
            t,
            v,
            #[trigger] fst.states[v].trs[j],
        ) by {
            assert(!shows::<W>(t, v, b.states[v].trs[j]));
        }
    }
    if none::<W>(fst, t) && !shows::<W>(t, s as int, tr) {
        assert forall|v: int, j: int|
            0 <= v < b.states.len() && 0 <= j < b.states[v].trs.len() implies !shows::<W>(
            t,
            v,
            #[trigger] b.states[v].trs[j],
        ) by {
            if v != s || j < last {
                assert(b.states[v].trs[j] == fst.states[v].trs[j]);
            }
        }
    }
}

proof fn lemma_added_order<W: Semiring>(fst: FstM<W::M>, s: StateId, tr: TrM<W::M>, input: bool)
    requires
        fst.has_state(s),
    ensures
        ({
            let b = with_tr::<W>(fst, s, tr);
            let trs = fst.states[s as int].trs;
            let down = trs.len() > 0 && label_on(trs.last(), input) > label_on(tr, input);
            &&& sorted(fst, input) && !down ==> sorted(b, input)
            &&& unsorted(fst, input) || down ==> unsorted(b, input)
            &&& repeated(fst, input) ==> repeated(b, input)
        }),
{
    let b = with_tr::<W>(fst, s, tr);
    lemma_added::<W>(fst, s, tr);
    let trs = fst.states[s as int].trs;
    let last = trs.len() as int;
    let down = trs.len() > 0 && label_on(trs.last(), input) > label_on(tr, input);
    if sorted(fst, input) && !down {
        assert forall|v: int, i: int, j: int|
            0 <= v < b.states.len() && 0 <= i < j < b.states[v].trs.len() implies label_on(
            #[trigger] b.states[v].trs[i],
            input,
        ) <= label_on(#[trigger] b.states[v].trs[j], input) by {
            assert(b.states[v].trs[i] == fst.states[v].trs[i]);
            if v != s || j < last {
                assert(b.states[v].trs[j] == fst.states[v].trs[j]);
            } else if i < last - 1 {
                assert(label_on(fst.states[v].trs[i], input) <= label_on(
                    fst.states[v].trs[last - 1],
                    input,
                ));
            }
        }
    }
    if down {
        assert(b.states[s as int].trs[last - 1] == trs.last());
        assert(label_on(b.states[s as int].trs[last - 1], input) > label_on(
            b.states[s as int].trs[last],
            input,
        ));
    }
    if unsorted(fst, input) {
        let (v, i, j) = choose|v: int, i: int, j: int|
            0 <= v < fst.states.len() && 0 <= i < j < fst.states[v].trs.len() && label_on(
                #[trigger] fst.states[v].trs[i],
                input,
            ) > label_on(#[trigger] fst.states[v].trs[j], input);
        assert(label_on(b.states[v].trs[i], input) > label_on(b.states[v].trs[j], input));
    }
    if repeated(fst, input) {
        let (v, i, j) = choose|v: int, i: int, j: int|
            0 <= v < fst.states.len() && 0 <= i < j < fst.states[v].trs.len() && label_on(
                #[trigger] fst.states[v].trs[i],
                input,
            ) == label_on(#[trigger] fst.states[v].trs[j], input);
        assert(label_on(b.states[v].trs[i], input) == label_on(b.states[v].trs[j], input));
    }
}

/// What is known after a transition was added is true, if what was known before was.
pub proof fn law_properties_hold_with_transition<W: Semiring>(
    fst: FstM<W::M>,
    s: StateId,
    tr: TrM<W::M>,
)
    requires
        fst.has_state(s),
        properties_hold::<W>(fst),
    ensures
        properties_hold::<W>(with_tr::<W>(fst, s, tr)),
{
    let b = with_tr::<W>(fst, s, tr);
    law_added_transition_is_noted(fst.properties, tr_shape::<W>(fst, s, tr));
    lemma_added::<W>(fst, s, tr);
    lemma_added_traits::<W>(fst, s, tr, Trait::Translates);
    lemma_added_traits::<W>(fst, s, tr, Trait::Empty);
    lemma_added_traits::<W>(fst, s, tr, Trait::ReadsNothing);
    lemma_added_traits::<W>(fst, s, tr, Trait::WritesNothing);
    lemma_added_traits::<W>(fst, s, tr, Trait::Weighted);
    lemma_added_traits::<W>(fst, s, tr, Trait::Backward);
    lemma_added_order::<W>(fst, s, tr, true);
    lemma_added_order::<W>(fst, s, tr, false);
    lemma_leads_extends(fst, b);
    assert forall|v: int| 0 <= v < fst.states.len() implies (
    #[trigger] b.states[v]).final_weight == fst.states[v].final_weight by {}
    assert(plain_ends::<W>(b) <==> plain_ends::<W>(fst)) by {
        if plain_ends::<W>(b) {
            assert forall|v: int| 0 <= v < fst.states.len() implies !weighted_model::<W>(
                (#[trigger] fst.states[v]).final_weight,
            ) by {
                assert(b.states[v].final_weight == fst.states[v].final_weight);
            }
        }
    }
    if b.properties.has(TOP_SORTED) {
        law_top_sorted_is_acyclic::<W>(b);
    }
    if b.properties.has(COACCESSIBLE) {
        assert forall|v: int| 0 <= v < b.states.len() implies #[trigger] to_final(b, v) by {
            assert(to_final(fst, v));
            lemma_to_final_extends(fst, b, v);
        }
    }
}

/// Both machines have the same transitions, but for states without any at the end.
spec fn same_trs<M>(a: FstM<M>, b: FstM<M>) -> bool {
    &&& a.states.len() <= b.states.len()
    &&& forall|v: int|
        0 <= v < a.states.len() ==> (#[trigger] b.states[v]).trs == a.states[v].trs
    &&& forall|v: int|
        a.states.len() <= v < b.states.len() ==> (#[trigger] b.states[v]).trs.len() == 0
}

proof fn lemma_same_traits<W: Semiring>(a: FstM<W::M>, b: FstM<W::M>, t: Trait)
    requires
        same_trs(a, b),
    ensures
        none::<W>(a, t) <==> none::<W>(b, t),
        some::<W>(a, t) <==> some::<W>(b, t),
{
    if some::<W>(a, t) {
        let (v, j) = choose|v: int, j: int|
            0 <= v < a.states.len() && 0 <= j < a.states[v].trs.len() && shows::<W>(
                t,
                v,
                #[trigger] a.states[v].trs[j],
            );
        assert(shows::<W>(t, v, b.states[v].trs[j]));
    }
    if some::<W>(b, t) {
        let (v, j) = choose|v: int, j: int|
            0 <= v < b.states.len() && 0 <= j < b.states[v].trs.len() && shows::<W>(
                t,
                v,
                #[trigger] b.states[v].trs[j],
            );
        assert(shows::<W>(t, v, a.states[v].trs[j]));
    }
    if none::<W>(a, t) {
        assert forall|v: int, j: int|
            0 <= v < b.states.len() && 0 <= j < b.states[v].trs.len() implies !shows::<W>(
            t,
            v,
            #[trigger] b.states[v].trs[j],
        ) by {
            assert(!shows::<W>(t, v, a.states[v].trs[j]));
        }
    }
    if none::<W>(b, t) {
        assert forall|v: int, j: int|
            0 <= v < a.states.len() && 0 <= j < a.states[v].trs.len() implies !shows::<W>(
            t,
            v,
            #[trigger] a.states[v].trs[j],
        ) by {
            assert(!shows::<W>(t, v, b.states[v].trs[j]));
        }
    }
}

proof fn lemma_same_order<M>(a: FstM<M>, b: FstM<M>, input: bool)
    requires
        same_trs(a, b),
    ensures
        sorted(a, input) ==> sorted(b, input),
        unsorted(a, input) ==> unsorted(b, input),
        distinct(a, input) ==> distinct(b, input),
        repeated(a, input) ==> repeated(b, input),
{
    if sorted(a, input) {
        assert forall|v: int, i: int, j: int|
            0 <= v < b.states.len() && 0 <= i < j < b.states[v].trs.len() implies label_on(
            #[trigger] b.states[v].trs[i],
            input,
        ) <= label_on(#[trigger] b.states[v].trs[j], input) by {
            assert(a.states[v].trs[i] == b.states[v].trs[i]);
            assert(a.states[v].trs[j] == b.states[v].trs[j]);
        }
    }
    if distinct(a, input) {
        assert forall|v: int, i: int, j: int|
            0 <= v < b.states.len() && 0 <= i < j < b.states[v].trs.len() implies label_on(
            #[trigger] b.states[v].trs[i],
            input,
        ) != label_on(#[trigger] b.states[v].trs[j], input) by {
            assert(a.states[v].trs[i] == b.states[v].trs[i]);
            assert(a.states[v].trs[j] == b.states[v].trs[j]);
        }
    }
    if unsorted(a, input) {
        let (v, i, j) = choose|v: int, i: int, j: int|
            0 <= v < a.states.len() && 0 <= i < j < a.states[v].trs.len() && label_on(
                #[trigger] a.states[v].trs[i],
                input,
            ) > label_on(#[trigger] a.states[v].trs[j], input);
        assert(label_on(b.states[v].trs[i], input) > label_on(b.states[v].trs[j], input));
    }
    if repeated(a, input) {
        let (v, i, j) = choose|v: int, i: int, j: int|
            0 <= v < a.states.len() && 0 <= i < j < a.states[v].trs.len() && label_on(
                #[trigger] a.states[v].trs[i],
                input,
            ) == label_on(#[trigger] a.states[v].trs[j], input);
        assert(label_on(b.states[v].trs[i], input) == label_on(b.states[v].trs[j], input));
    }
}

proof fn lemma_same_extends<M>(a: FstM<M>, b: FstM<M>)
    requires
        same_trs(a, b),
    ensures
        extends(a, b),
{
    assert forall|v: int, j: int|
        0 <= v < a.states.len() && 0 <= j < a.states[v].trs.len() implies b.states[v].trs.contains(
        #[trigger] a.states[v].trs[j],
    ) by {
        assert(b.states[v].trs[j] == a.states[v].trs[j]);
    }
}

/// A path that ends at a state that was there before is a path from before.
proof fn lemma_same_path_back<M>(a: FstM<M>, b: FstM<M>, s: int, path: Seq<TrM<M>>)
    requires
        same_trs(a, b),
        is_path(b, s, path),
        path_end(s, path) < a.states.len(),
    ensures
        is_path(a, s, path),
    decreases path.len(),
{
    if path.len() > 0 {
        lemma_path_end(b, s, path);
        assert(b.states[s].trs.len() > 0);
        lemma_same_path_back(a, b, path[0].nextstate as int, path.drop_first());
    }
}

proof fn lemma_same_leads_back<M>(a: FstM<M>, b: FstM<M>)
    requires
        same_trs(a, b),
    ensures
        forall|u: int, v: int| v < a.states.len() && leads_to(b, u, v) ==> #[trigger] leads_to(a, u, v),
        cyclic(b) ==> cyclic(a),
        a.start == b.start && initial_cyclic(b) ==> initial_cyclic(a),
        a.start == b.start ==> forall|v: int|
            v < a.states.len() && from_start(b, v) ==> #[trigger] from_start(a, v),
{
    assert forall|u: int, v: int|
        v < a.states.len() && leads_to(b, u, v) implies #[trigger] leads_to(a, u, v) by {
        let path = choose|path: Seq<TrM<M>>|
            path.len() > 0 && #[trigger] is_path(b, u, path) && path_end(u, path) == v;
        lemma_same_path_back(a, b, u, path);
    }
    assert forall|v: int| leads_to(b, v, v) implies #[trigger] leads_to(a, v, v) by {
        let path = choose|path: Seq<TrM<M>>|
            path.len() > 0 && #[trigger] is_path(b, v, path) && path_end(v, path) == v;
        assert(b.states[v].trs.len() > 0);
    }
    if cyclic(b) {
        let v = choose|v: int| #[trigger] leads_to(b, v, v);
        assert(leads_to(a, v, v));
    }
    if a.start == b.start {
        assert forall|v: int|
            v < a.states.len() && from_start(b, v) implies #[trigger] from_start(a, v) by {
            let s = b.start->0 as int;
            let path = choose|path: Seq<TrM<M>>| #[trigger] is_path(b, s, path) && path_end(s, path)
                == v;
            lemma_same_path_back(a, b, s, path);
        }
    }
}

/// The final weights of states that were there before are as they were, and states that
/// are new are not final.
proof fn lemma_same_to_final_back<M>(a: FstM<M>, b: FstM<M>, v: int)
    requires
        same_trs(a, b),
        to_final(b, v),
        forall|q: int|
            0 <= q < b.states.len() && (#[trigger] b.states[q]).final_weight is Some ==> q
                < a.states.len() && a.states[q].final_weight is Some,
    ensures
        to_final(a, v),
{
    let path = choose|path: Seq<TrM<M>>| #[trigger] is_path(b, v, path) && b.states[path_end(
        v,
        path,
    )].final_weight is Some;
    lemma_path_end(b, v, path);
    assert(b.states[path_end(v, path)].final_weight is Some);
    lemma_same_path_back(a, b, v, path);
}

/// What is known after states were added is true, if what was known before was. It is
/// still known whether every transition writes what it reads.
pub proof fn law_properties_hold_with_states<W: Semiring>(fst: FstM<W::M>, n: nat)
    requires
        properties_hold::<W>(fst),
    ensures
        properties_hold::<W>(fst.with_states(n)),
        fst.with_states(n).properties.has(ACCEPTOR) <==> fst.properties.has(ACCEPTOR),
{
    let b = fst.with_states(n);
    if n == 0 {
        assert(b.states =~= fst.states);
    } else {
        lemma_add_state_bits(fst.properties.bits, b.properties.bits);
        lemma_same_traits::<W>(fst, b, Trait::Translates);
        lemma_same_traits::<W>(fst, b, Trait::Empty);
        lemma_same_traits::<W>(fst, b, Trait::ReadsNothing);
        lemma_same_traits::<W>(fst, b, Trait::WritesNothing);
        lemma_same_traits::<W>(fst, b, Trait::Weighted);
        lemma_same_traits::<W>(fst, b, Trait::Backward);
        lemma_same_order(fst, b, true);
        lemma_same_order(fst, b, false);
        lemma_same_extends(fst, b);
        lemma_leads_extends(fst, b);
        lemma_same_leads_back(fst, b);
        assert(plain_ends::<W>(b) <==> plain_ends::<W>(fst)) by {
            if plain_ends::<W>(b) {
                assert forall|v: int| 0 <= v < fst.states.len() implies !weighted_model::<W>(
                    (#[trigger] fst.states[v]).final_weight,
                ) by {
                    assert(b.states[v] == fst.states[v]);
                }
            }
        }
        if b.properties.has(NOT_ACCESSIBLE) {
            let v = choose|v: int|
                0 <= v < fst.states.len() && !(#[trigger] from_start(fst, v));
            assert(!from_start(b, v));
        }
        if b.properties.has(NOT_COACCESSIBLE) {
            let v = choose|v: int| 0 <= v < fst.states.len() && !(#[trigger] to_final(fst, v));
            if to_final(b, v) {
                lemma_same_to_final_back(fst, b, v);
            }
            assert(!to_final(b, v));
        }
    }
}

proof fn lemma_start_flag_bits(bits: u64, m: u64, r: u64)
    by (bit_vector)
    requires
        m == bits & SET_START_KEEPS,
        r == with_model(m, bits & ACYCLIC == ACYCLIC, INITIAL_ACYCLIC),
    ensures
        m & INITIAL_ACYCLIC != INITIAL_ACYCLIC,
        r & INITIAL_ACYCLIC == INITIAL_ACYCLIC ==> bits & ACYCLIC == ACYCLIC,
        kept(m, r, ACCEPTOR),
        kept(m, r, NOT_ACCEPTOR),
        kept(m, r, I_DETERMINISTIC),
        kept(m, r, NOT_I_DETERMINISTIC),
        kept(m, r, O_DETERMINISTIC),
        kept(m, r, NOT_O_DETERMINISTIC),
        kept(m, r, EPSILONS),
        kept(m, r, NO_EPSILONS),
        kept(m, r, I_EPSILONS),
        kept(m, r, NO_I_EPSILONS),
        kept(m, r, O_EPSILONS),
        kept(m, r, NO_O_EPSILONS),
        kept(m, r, I_LABEL_SORTED),
        kept(m, r, NOT_I_LABEL_SORTED),
        kept(m, r, O_LABEL_SORTED),
        kept(m, r, NOT_O_LABEL_SORTED),
        kept(m, r, WEIGHTED),
        kept(m, r, UNWEIGHTED),
        kept(m, r, CYCLIC),
        kept(m, r, ACYCLIC),
        kept(m, r, INITIAL_CYCLIC),
        kept(m, r, TOP_SORTED),
        kept(m, r, NOT_TOP_SORTED),
        kept(m, r, ACCESSIBLE),
        kept(m, r, NOT_ACCESSIBLE),
        kept(m, r, COACCESSIBLE),
        kept(m, r, NOT_COACCESSIBLE),
{
}

/// What is known after another state was made the start state is true, if what was known
/// before was. It is still known whether every transition writes what it reads.
pub proof fn law_properties_hold_with_start<W: Semiring>(fst: FstM<W::M>, s: StateId)
    requires
        properties_hold::<W>(fst),
    ensures
        properties_hold::<W>(fst.with_start(s)),
        fst.with_start(s).properties.has(ACCEPTOR) <==> fst.properties.has(ACCEPTOR),
{
    let b = fst.with_start(s);
    let m = fst.properties.bits & SET_START_KEEPS;
    lemma_start_bits(fst.properties.bits, m);
    lemma_start_flag_bits(fst.properties.bits, m, b.properties.bits);
    lemma_same_traits::<W>(fst, b, Trait::Translates);
    lemma_same_traits::<W>(fst, b, Trait::Empty);
    lemma_same_traits::<W>(fst, b, Trait::ReadsNothing);
    lemma_same_traits::<W>(fst, b, Trait::WritesNothing);
    lemma_same_traits::<W>(fst, b, Trait::Weighted);
    lemma_same_traits::<W>(fst, b, Trait::Backward);
    lemma_same_order(fst, b, true);
    lemma_same_order(fst, b, false);
    lemma_same_extends(fst, b);
    lemma_leads_extends(fst, b);
    lemma_same_leads_back(fst, b);
    assert(plain_ends::<W>(b) <==> plain_ends::<W>(fst)) by {
        if plain_ends::<W>(b) {
            assert forall|v: int| 0 <= v < fst.states.len() implies !weighted_model::<W>(
                (#[trigger] fst.states[v]).final_weight,
            ) by {
                assert(b.states[v] == fst.states[v]);
            }
        }
    }
    assert forall|v: int| to_final(fst, v) <==> #[trigger] to_final(b, v) by {
        if to_final(fst, v) {
            lemma_to_final_extends(fst, b, v);
        }
        if to_final(b, v) {
            lemma_same_to_final_back(fst, b, v);
        }
    }
    if b.properties.has(NOT_COACCESSIBLE) {
        let v = choose|v: int| 0 <= v < fst.states.len() && !(#[trigger] to_final(fst, v));
        assert(!to_final(b, v));
    }
}

/// What is known after a final weight was changed, or taken away, is true, if what was
/// known before was. It is still known whether every transition writes what it reads.
pub proof fn law_properties_hold_with_final_weight<W: Semiring>(
    fst: FstM<W::M>,
    s: StateId,
    w: Option<W::M>,
)
    requires
        fst.has_state(s),
        properties_hold::<W>(fst),
    ensures
        properties_hold::<W>(with_final::<W>(fst, s, w)),
        with_final::<W>(fst, s, w).properties.has(ACCEPTOR) <==> fst.properties.has(ACCEPTOR),
{
    let b = with_final::<W>(fst, s, w);
    let was = weighted_model::<W>(fst.states[s as int].final_weight);
    let now = weighted_model::<W>(w);
    let x = if was {
        fst.properties.bits & !WEIGHTED
    } else {
        fst.properties.bits
    };
    let y = flip_model(x, now, WEIGHTED, UNWEIGHTED);
    lemma_final_bits(fst.properties.bits, x, y, b.properties.bits, was, now);
    lemma_same_traits::<W>(fst, b, Trait::Translates);
    lemma_same_traits::<W>(fst, b, Trait::Empty);
    lemma_same_traits::<W>(fst, b, Trait::ReadsNothing);
    lemma_same_traits::<W>(fst, b, Trait::WritesNothing);
    lemma_same_traits::<W>(fst, b, Trait::Weighted);
    lemma_same_traits::<W>(fst, b, Trait::Backward);
    lemma_same_order(fst, b, true);
    lemma_same_order(fst, b, false);
    lemma_same_extends(fst, b);
    lemma_leads_extends(fst, b);
    lemma_same_leads_back(fst, b);
    assert(b.states[s as int].final_weight == w);
    if plain_ends::<W>(fst) && !now {
        assert forall|v: int| 0 <= v < b.states.len() implies !weighted_model::<W>(
            (#[trigger] b.states[v]).final_weight,
        ) by {
            if v != s {
                assert(b.states[v] == fst.states[v]);
            }
        }
    }
    if !plain_ends::<W>(fst) && !was {
        let v = choose|v: int|
            0 <= v < fst.states.len() && weighted_model::<W>(
                (#[trigger] fst.states[v]).final_weight,
            );
        assert(b.states[v] == fst.states[v]);
        assert(!plain_ends::<W>(b));
    }
    if now {
        assert(weighted_model::<W>(b.states[s as int].final_weight));
        assert(!plain_ends::<W>(b));
    }
    if b.properties.has(NOT_ACCESSIBLE) {
        let v = choose|v: int| 0 <= v < fst.states.len() && !(#[trigger] from_start(fst, v));
        assert(!from_start(b, v));
    }
}

/// What is known after the transitions of a state were removed is true, if what was known
/// before was. A machine in which every transition writes what it reads is still known to
/// be one.
pub proof fn law_properties_hold_without_transitions<W: Semiring>(fst: FstM<W::M>, s: StateId)
    requires
        fst.has_state(s),
        properties_hold::<W>(fst),
    ensures
        properties_hold::<W>(without_trs(fst, s)),
        without_trs(fst, s).properties.has(ACCEPTOR) <==> fst.properties.has(ACCEPTOR),
{
    let b = without_trs(fst, s);
    lemma_delete_trs_bits(fst.properties.bits, b.properties.bits);
    assert(extends(b, fst)) by {
        assert forall|v: int, j: int|
            0 <= v < b.states.len() && 0 <= j < b.states[v].trs.len() implies fst.states[v].trs.contains(
            #[trigger] b.states[v].trs[j],
        ) by {
            assert(fst.states[v].trs[j] == b.states[v].trs[j]);
        }
    }
    lemma_leads_extends(b, fst);
    assert forall|v: int, j: int|
        0 <= v < b.states.len() && 0 <= j < b.states[v].trs.len() implies #[trigger] b.states[v].trs[j]
        == fst.states[v].trs[j] by {}
    assert forall|t: Trait| none::<W>(fst, t) implies #[trigger] none::<W>(b, t) by {
        assert forall|v: int, j: int|
            0 <= v < b.states.len() && 0 <= j < b.states[v].trs.len() implies !shows::<W>(
            t,
            v,
            #[trigger] b.states[v].trs[j],
        ) by {
            assert(!shows::<W>(t, v, fst.states[v].trs[j]));
        }
    }
    assert forall|input: bool| sorted(fst, input) implies #[trigger] sorted(b, input) by {
        assert forall|v: int, i: int, j: int|
            0 <= v < b.states.len() && 0 <= i < j < b.states[v].trs.len() implies label_on(
            #[trigger] b.states[v].trs[i],
            input,
        ) <= label_on(#[trigger] b.states[v].trs[j], input) by {
            assert(b.states[v].trs[i] == fst.states[v].trs[i]);
            assert(b.states[v].trs[j] == fst.states[v].trs[j]);
        }
    }
    assert forall|input: bool| distinct(fst, input) implies #[trigger] distinct(b, input) by {
        assert forall|v: int, i: int, j: int|
            0 <= v < b.states.len() && 0 <= i < j < b.states[v].trs.len() implies label_on(
            #[trigger] b.states[v].trs[i],
            input,
        ) != label_on(#[trigger] b.states[v].trs[j], input) by {
            assert(fst.states[v].trs[i] == b.states[v].trs[i]);
            assert(fst.states[v].trs[j] == b.states[v].trs[j]);
        }
    }
    if plain_ends::<W>(fst) {
        assert forall|v: int| 0 <= v < b.states.len() implies !weighted_model::<W>(
            (#[trigger] b.states[v]).final_weight,
        ) by {
            assert(fst.states[v].final_weight == b.states[v].final_weight);
        }
    }
    if b.properties.has(NOT_ACCESSIBLE) {
        let v = choose|v: int| 0 <= v < fst.states.len() && !(#[trigger] from_start(fst, v));
        assert(!from_start(b, v));
    }
    if b.properties.has(NOT_COACCESSIBLE) {
        let v = choose|v: int| 0 <= v < fst.states.len() && !(#[trigger] to_final(fst, v));
        if to_final(b, v) {
            assert forall|q: int|
                0 <= q < b.states.len() && b.states[q].final_weight is Some implies (
            #[trigger] fst.states[q]).final_weight is Some by {
                assert(fst.states[q].final_weight == b.states[q].final_weight);
            }
            lemma_to_final_extends(b, fst, v);
        }
        assert(!to_final(b, v));
    }
}

} // verus!
