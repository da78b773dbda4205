//! What is known of a determinized machine.

use crate::determinize::determinize_fsa::{det_begin, det_compute};
use crate::determinize::determinize_fsa_op::{
    expand_pairs, expand_trs, groups_upto, with_group, DeterminizeFsaOp, ExpandM, GroupM,
};
use crate::determinize::determinize_static::{
    determinize_model, determinized_properties, determinized_states, DeterminizeConfig,
    DeterminizeType,
};
use crate::determinize::divisors::{CommonDivisor, DefaultCommonDivisor};
use crate::determinize::element::ElementM;
use crate::determinize::laws::{
    deterministic, law_determinize_fsa_is_deterministic, lemma_det_expansion, lemma_det_output,
    stands_for, written_for,
};
use crate::determinize::state_table::TableM;
use crate::fst::properties::{
    with_model, FstProperties, ACCEPTOR, ACCESSIBLE, ACYCLIC, COACCESSIBLE, CYCLIC,
    DETERMINIZE_INHERITS, EPSILONS, INITIAL_ACYCLIC, INITIAL_CYCLIC, I_DETERMINISTIC, I_EPSILONS,
    I_LABEL_SORTED, NOT_ACCEPTOR, NOT_ACCESSIBLE, NOT_COACCESSIBLE, NOT_I_DETERMINISTIC,
    NOT_I_LABEL_SORTED, NOT_O_DETERMINISTIC, NOT_O_LABEL_SORTED, NOT_TOP_SORTED, NO_EPSILONS,
    NO_I_EPSILONS, NO_O_EPSILONS, O_DETERMINISTIC, O_EPSILONS, O_LABEL_SORTED, TOP_SORTED,
    UNWEIGHTED, WEIGHTED,
};
use crate::fst::property_laws::{
    distinct, extends, from_start, lemma_path_extends, none, properties_hold, shows, sorted, Trait,
};
use crate::fst::tr::{Label, StateId, TrM};
use crate::fst::vector_fst::FstM;
use crate::lazy::fst_op::FstOp;
use crate::lazy::laws::{law_known_states_are_met, law_output_keeps_bounds, states_met};
use crate::lazy::null_cache::NullCache;
use crate::lazy::reach_laws::law_output_is_reached;
use crate::paths::{is_path, path_end};
use crate::semirings::semiring::{Semiring, WeaklyDivisibleSemiring, WeightQuantize};
use vstd::prelude::*;

verus! {

/// A flag is set.
spec fn on(bits: u64, flag: u64) -> bool {
    bits & flag == flag
}

proof fn lemma_determinized_bits(
    bits: u64,
    a: u64,
    b: u64,
    c: u64,
    d: u64,
    e: u64,
    r: u64,
    one_way: bool,
)
    by (bit_vector)
    requires
        a == with_model(
            ACCESSIBLE,
            on(bits, ACCEPTOR) || (on(bits, NO_I_EPSILONS) && one_way),
            I_DETERMINISTIC,
        ),
        b == a | (DETERMINIZE_INHERITS & bits),
        c == with_model(b, on(bits, NO_I_EPSILONS) && one_way, NO_EPSILONS & bits),
        d == with_model(c, on(bits, ACCESSIBLE), (I_EPSILONS | O_EPSILONS | CYCLIC) & bits),
        e == with_model(d, on(bits, ACCEPTOR), (NO_I_EPSILONS | NO_O_EPSILONS) & bits),
        r == if on(bits, ACCEPTOR) {
            e | (I_LABEL_SORTED | O_LABEL_SORTED)
        } else {
            e
        },
    ensures
        on(r, ACCESSIBLE),
        on(r, I_DETERMINISTIC) <==> on(bits, ACCEPTOR) || (on(bits, NO_I_EPSILONS) && one_way),
        on(r, ACCEPTOR) <==> on(bits, ACCEPTOR),
        on(r, I_LABEL_SORTED) <==> on(bits, ACCEPTOR),
        on(r, O_LABEL_SORTED) <==> on(bits, ACCEPTOR),
        on(r, NO_EPSILONS) <==> on(bits, NO_EPSILONS) && on(bits, NO_I_EPSILONS) && one_way,
        on(r, NO_I_EPSILONS) <==> on(bits, NO_I_EPSILONS) && on(bits, ACCEPTOR),
        on(r, NO_O_EPSILONS) <==> on(bits, NO_O_EPSILONS) && on(bits, ACCEPTOR),
        on(r, I_EPSILONS) <==> on(bits, I_EPSILONS) && on(bits, ACCESSIBLE),
        on(r, O_EPSILONS) <==> on(bits, O_EPSILONS) && on(bits, ACCESSIBLE),
        on(r, CYCLIC) <==> on(bits, CYCLIC) && on(bits, ACCESSIBLE),
        on(r, ACYCLIC) <==> on(bits, ACYCLIC),
        on(r, INITIAL_ACYCLIC) <==> on(bits, INITIAL_ACYCLIC),
        on(r, COACCESSIBLE) <==> on(bits, COACCESSIBLE),
        !on(r, NOT_ACCEPTOR),
        !on(r, NOT_I_DETERMINISTIC),
        !on(r, O_DETERMINISTIC),
        !on(r, NOT_O_DETERMINISTIC),
        !on(r, EPSILONS),
        !on(r, NOT_I_LABEL_SORTED),
        !on(r, NOT_O_LABEL_SORTED),
        !on(r, WEIGHTED),
        !on(r, UNWEIGHTED),
        !on(r, INITIAL_CYCLIC),
        !on(r, TOP_SORTED),
        !on(r, NOT_TOP_SORTED),
        !on(r, NOT_ACCESSIBLE),
        !on(r, NOT_COACCESSIBLE),
{
}

/// What is said to be known of a determinized machine, flag by flag: that every state can
/// be reached; that no state has two transitions with the same input label, of an acceptor,
/// and of a transducer that reads something with every transition, if there is one way to
/// finish; that it is an acceptor, and sorted, if it was one; what it shares with the
/// machine that it was made from; and nothing else.
pub proof fn law_determinized_knowledge(p: FstProperties, det_type: DeterminizeType)
    ensures
        ({
            let r = determinized_properties(p, det_type);
            let one_way = det_type != DeterminizeType::DeterminizeNonFunctional;
            &&& r.has(ACCESSIBLE)
            &&& r.has(I_DETERMINISTIC) <==> p.has(ACCEPTOR) || (p.has(NO_I_EPSILONS) && one_way)
            &&& r.has(ACCEPTOR) <==> p.has(ACCEPTOR)
            &&& r.has(I_LABEL_SORTED) <==> p.has(ACCEPTOR)
            &&& r.has(O_LABEL_SORTED) <==> p.has(ACCEPTOR)
            &&& r.has(NO_EPSILONS) <==> p.has(NO_EPSILONS) && p.has(NO_I_EPSILONS) && one_way
            &&& r.has(NO_I_EPSILONS) <==> p.has(NO_I_EPSILONS) && p.has(ACCEPTOR)
            &&& r.has(NO_O_EPSILONS) <==> p.has(NO_O_EPSILONS) && p.has(ACCEPTOR)
            &&& r.has(I_EPSILONS) <==> p.has(I_EPSILONS) && p.has(ACCESSIBLE)
            &&& r.has(O_EPSILONS) <==> p.has(O_EPSILONS) && p.has(ACCESSIBLE)
            &&& r.has(CYCLIC) <==> p.has(CYCLIC) && p.has(ACCESSIBLE)
            &&& r.has(ACYCLIC) <==> p.has(ACYCLIC)
            &&& r.has(INITIAL_ACYCLIC) <==> p.has(INITIAL_ACYCLIC)
            &&& r.has(COACCESSIBLE) <==> p.has(COACCESSIBLE)
            &&& !r.has(NOT_ACCEPTOR) && !r.has(NOT_I_DETERMINISTIC) && !r.has(O_DETERMINISTIC)
            &&& !r.has(NOT_O_DETERMINISTIC) && !r.has(EPSILONS) && !r.has(NOT_I_LABEL_SORTED)
            &&& !r.has(NOT_O_LABEL_SORTED) && !r.has(WEIGHTED) && !r.has(UNWEIGHTED)
            &&& !r.has(INITIAL_CYCLIC) && !r.has(TOP_SORTED) && !r.has(NOT_TOP_SORTED)
            &&& !r.has(NOT_ACCESSIBLE) && !r.has(NOT_COACCESSIBLE)
        }),
{
    let one_way = det_type != DeterminizeType::DeterminizeNonFunctional;
    let bits = p.bits;
    let a = with_model(
        ACCESSIBLE,
        on(bits, ACCEPTOR) || (on(bits, NO_I_EPSILONS) && one_way),
        I_DETERMINISTIC,
    );
    let b = a | (DETERMINIZE_INHERITS & bits);
    let c = with_model(b, on(bits, NO_I_EPSILONS) && one_way, NO_EPSILONS & bits);
    let d = with_model(c, on(bits, ACCESSIBLE), (I_EPSILONS | O_EPSILONS | CYCLIC) & bits);
    let e = with_model(d, on(bits, ACCEPTOR), (NO_I_EPSILONS | NO_O_EPSILONS) & bits);
    let r = determinized_properties(p, det_type).bits;
    lemma_determinized_bits(bits, a, b, c, d, e, r, one_way);
}

/// Some transition reads the label.
spec fn reads<M>(fst: FstM<M>, label: Label) -> bool {
    exists|v: int, j: int|
        0 <= v < fst.states.len() && 0 <= j < fst.states[v].trs.len() && (
        #[trigger] fst.states[v].trs[j]).ilabel == label
}

/// Every group is for a label that some transition reads.
spec fn groups_read<M>(fst: FstM<M>, groups: Seq<GroupM<M>>) -> bool {
    forall|i: int| 0 <= i < groups.len() ==> reads(fst, (#[trigger] groups[i]).label)
}

proof fn lemma_groups_upto_range<M>(groups: Seq<GroupM<M>>, label: Label)
    ensures
        0 <= groups_upto(groups, label) <= groups.len(),
    decreases groups.len(),
{
    if groups.len() > 0 {
        lemma_groups_upto_range(groups.drop_last(), label);
    }
}

proof fn lemma_with_group_reads<M>(
    fst: FstM<M>,
    groups: Seq<GroupM<M>>,
    label: Label,
    pairs: Seq<ElementM<M>>,
)
    requires
        groups_read(fst, groups),
        reads(fst, label),
    ensures
        groups_read(fst, with_group(groups, label, pairs)),
{
    lemma_groups_upto_range(groups, label);
    let after = with_group(groups, label, pairs);
    let k = groups_upto(groups, label);
    assert forall|i: int| 0 <= i < after.len() implies reads(fst, (#[trigger] after[i]).label) by {
        if k > 0 && groups[k - 1].label == label {
            if i != k - 1 {
                assert(after[i] == groups[i]);
            }
        } else if i < k {
            assert(after[i] == groups[i]);
        } else if i > k {
            assert(after[i] == groups[i - 1]);
        }
    }
}

proof fn lemma_expand_trs_reads<W: Semiring, CD: CommonDivisor<W>>(
    fst: FstM<W::M>,
    t: TableM<W::M>,
    e: ExpandM<W::M>,
    weight: W::M,
    trs: Seq<TrM<W::M>>,
)
    requires
        groups_read(fst, e.groups),
        forall|j: int| 0 <= j < trs.len() ==> reads(fst, (#[trigger] trs[j]).ilabel),
    ensures
        expand_trs::<W, CD>(t, e, weight, trs) matches Ok(after) ==> groups_read(fst, after.groups),
    decreases trs.len(),
{
    if trs.len() > 0 {
        let init = trs.drop_last();
        assert forall|j: int| 0 <= j < init.len() implies reads(fst, (#[trigger] init[j]).ilabel) by {
            assert(init[j] == trs[j]);
        }
        lemma_expand_trs_reads::<W, CD>(fst, t, e, weight, init);
        if let Ok(after) = expand_trs::<W, CD>(t, e, weight, trs) {
            let sofar = expand_trs::<W, CD>(t, e, weight, init)->Ok_0;
            let label = trs.last().ilabel;
            assert(reads(fst, trs[trs.len() - 1].ilabel));
            assert forall|pairs: Seq<ElementM<W::M>>| groups_read(
                fst,
                #[trigger] with_group(sofar.groups, label, pairs),
            ) by {
                lemma_with_group_reads(fst, sofar.groups, label, pairs);
            }
        }
    }
}

proof fn lemma_expand_pairs_reads<W: Semiring, CD: CommonDivisor<W>>(
    fst: FstM<W::M>,
    t: TableM<W::M>,
    pairs: Seq<ElementM<W::M>>,
)
    ensures
        expand_pairs::<W, CD>(fst, t, pairs) matches Ok(e) ==> groups_read(fst, e.groups),
    decreases pairs.len(),
{
    if pairs.len() > 0 {
        lemma_expand_pairs_reads::<W, CD>(fst, t, pairs.drop_last());
        if let Ok(e) = expand_pairs::<W, CD>(fst, t, pairs.drop_last()) {
            let q = pairs.last().state;
            if fst.has_state(q) {
                let trs = fst.states[q as int].trs;
                assert forall|j: int| 0 <= j < trs.len() implies reads(
                    fst,
                    (#[trigger] trs[j]).ilabel,
                ) by {
                    assert(fst.states[q as int].trs[j].ilabel == trs[j].ilabel);
                }
                lemma_expand_trs_reads::<W, CD>(fst, t, e, pairs.last().weight, trs);
            }
        }
    }
}

/// A determinized automaton reads only labels that the automaton reads.
pub proof fn law_determinize_adds_no_label<
    W: WeaklyDivisibleSemiring + WeightQuantize,
    CD: CommonDivisor<W>,
>(
    fst: FstM<W::M>,
    in_dist: Option<Seq<W::M>>,
    delta: W::Delta,
    max_states: Option<usize>,
    v: int,
    j: int,
)
    ensures
        det_compute::<W, CD>(fst, in_dist, delta, max_states).1 matches Ok(out) ==> (0 <= v
            < out.states.len() && 0 <= j < out.states[v].trs.len() ==> exists|u: int, i: int|
            0 <= u < fst.states.len() && 0 <= i < fst.states[u].trs.len() && (
            #[trigger] fst.states[u].trs[i]).ilabel == out.states[v].trs[j].ilabel),
{
    lemma_det_output::<W, CD>(fst, in_dist, delta, max_states);
    let (l, r) = det_compute::<W, CD>(fst, in_dist, delta, max_states);
    if let Ok(out) = r {
        if 0 <= v < out.states.len() && 0 <= j < out.states[v].trs.len() {
            assert(written_for::<W, CD>(l.op, v as StateId, out.states[v]));
            let (t, e) = choose|t: TableM<W::M>, e: ExpandM<W::M>| #[trigger]
                stands_for::<W, CD>(l.op, t, e, v as StateId, out.states[v]);
            lemma_expand_pairs_reads::<W, CD>(fst, t, l.op.table.tuples[v].pairs);
            assert(out.states[v].trs[j].ilabel == e.groups[j].label);
            assert(reads(fst, e.groups[j].label));
        }
    }
}

/// Every state of a determinized automaton can be reached from its start state.
pub proof fn law_determinized_is_accessible<
    W: WeaklyDivisibleSemiring + WeightQuantize,
    CD: CommonDivisor<W>,
>(fst: FstM<W::M>, delta: W::Delta, max_states: Option<usize>, v: int)
    ensures
        det_compute::<W, CD>(fst, None, delta, max_states).1 matches Ok(out) ==> (0 <= v
            < out.states.len() ==> from_start(out, v)),
{
    let begin = det_begin::<W>(fst, None, delta);
    lemma_det_expansion::<W, CD>(begin.op);
    lemma_det_output::<W, CD>(fst, None, delta, max_states);
    law_output_keeps_bounds::<W, DeterminizeFsaOp<'_, W, CD>, NullCache<W>>(
        begin,
        fst.isymt,
        fst.osymt,
        max_states,
        None,
    );
    law_known_states_are_met::<W, DeterminizeFsaOp<'_, W, CD>>(
        begin.op,
        fst.isymt,
        fst.osymt,
        max_states,
        None,
    );
    law_output_is_reached::<W, DeterminizeFsaOp<'_, W, CD>, NullCache<W>>(
        begin,
        fst.isymt,
        fst.osymt,
        max_states,
        None,
    );
    let (l, r) = det_compute::<W, CD>(fst, None, delta, max_states);
    if let Ok(out) = r {
        if 0 <= v < out.states.len() {
            let met = states_met::<W, DeterminizeFsaOp<'_, W, CD>, NullCache<W>>(
                begin,
                max_states,
                None,
            );
            assert(DeterminizeFsaOp::<'_, W, CD>::known(l.op, v as StateId));
            assert(met.contains(v as StateId));
            let i = choose|i: int| 0 <= i < met.len() && met[i] == v as StateId;
            assert(from_start(out, met[i] as int));
        }
    }
}

/// What is said to be known of a determinized acceptor by itself is true: that it is an
/// acceptor, that it is deterministic and sorted, that its states can be reached; and that
/// no label is empty, if that was known, and true, of the acceptor.
pub proof fn law_determinized_acceptor_knowledge_is_true<
    W: WeaklyDivisibleSemiring + WeightQuantize,
>(fst: FstM<W::M>, config: DeterminizeConfig<W::Delta>)
    requires
        fst.properties.has(ACCEPTOR),
        properties_hold::<W>(fst),
    ensures
        determinize_model::<W>(fst, config) matches Ok(out) ==> {
            let p = out.properties;
            &&& p.has(ACCEPTOR) && none::<W>(out, Trait::Translates)
            &&& p.has(I_DETERMINISTIC) && distinct(out, true)
            &&& p.has(I_LABEL_SORTED) && sorted(out, true)
            &&& p.has(O_LABEL_SORTED) && sorted(out, false)
            &&& p.has(ACCESSIBLE) && forall|v: int|
                0 <= v < out.states.len() ==> #[trigger] from_start(out, v)
            &&& p.has(NO_EPSILONS) ==> none::<W>(out, Trait::Empty)
            &&& p.has(NO_I_EPSILONS) ==> none::<W>(out, Trait::ReadsNothing)
            &&& p.has(NO_O_EPSILONS) ==> none::<W>(out, Trait::WritesNothing)
        },
{
    if let Ok(out) = determinize_model::<W>(fst, config) {
        law_determinized_knowledge(fst.properties, config.det_type);
        let det = determinized_states::<W>(fst, config)->Ok_0;
        let (delta, bound) = (config.delta, config.max_states);
        law_determinize_fsa_is_deterministic::<W, DefaultCommonDivisor>(fst, None, delta, bound);
        assert(deterministic(det));
        assert forall|v: int, j: int|
            0 <= v < out.states.len() && 0 <= j < out.states[v].trs.len() implies (
        #[trigger] out.states[v].trs[j]).ilabel == out.states[v].trs[j].olabel by {
            assert(det.states[v].trs[j].ilabel == det.states[v].trs[j].olabel);
        }
        assert forall|v: int, i: int, j: int|
            0 <= v < out.states.len() && 0 <= i < j < out.states[v].trs.len() implies (
        #[trigger] out.states[v].trs[i]).ilabel < (#[trigger] out.states[v].trs[j]).ilabel by {
            assert(det.states[v].trs[i].ilabel < det.states[v].trs[j].ilabel);
        }
        assert(extends(det, out));
        assert forall|v: int| 0 <= v < out.states.len() implies #[trigger] from_start(out, v) by {
            law_determinized_is_accessible::<W, DefaultCommonDivisor>(fst, delta, bound, v);
            let s = det.start->0 as int;
            let path = choose|path: Seq<TrM<W::M>>| #[trigger] is_path(det, s, path) && path_end(
                s,
                path,
            ) == v;
            lemma_path_extends(det, out, s, path);
        }
        assert forall|t: Trait|
            (t is Empty || t is ReadsNothing || t is WritesNothing) && none::<W>(
                fst,
                t,
            ) implies #[trigger] none::<W>(out, t) by {
            assert forall|v: int, j: int|
                0 <= v < out.states.len() && 0 <= j < out.states[v].trs.len() implies !shows::<W>(
                t,
                v,
                #[trigger] out.states[v].trs[j],
            ) by {
                law_determinize_adds_no_label::<W, DefaultCommonDivisor>(
                    fst,
                    None,
                    delta,
                    bound,
                    v,
                    j,
                );
                let (u, i) = choose|u: int, i: int|
                    0 <= u < fst.states.len() && 0 <= i < fst.states[u].trs.len() && (
                    #[trigger] fst.states[u].trs[i]).ilabel == out.states[v].trs[j].ilabel;
                assert(!shows::<W>(t, u, fst.states[u].trs[i]));
                assert(!shows::<W>(Trait::Translates, u, fst.states[u].trs[i]));
            }
        }
    }
}

} // verus!
