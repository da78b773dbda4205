//! Determinization of a whole machine.

use crate::determinize::determinize_fsa::{
    det_compute, lemma_det_start, start_distance_ok, DeterminizeFsa,
};
use crate::determinize::divisors::{CommonDivisor, DefaultCommonDivisor, GallicCommonDivisor};
use crate::determinize::laws::law_determinize_fsa_has_distances;
use crate::determinize::state_table::{subset_distance, weights_model};
use crate::error::FstError;
use crate::factor_weight::{factor_compute, factor_weight};
use crate::fst::properties::{FstProperties, ACCEPTOR, I_LABEL_SORTED, O_LABEL_SORTED};
use crate::fst::vector_fst::{FstM, VectorFst};
use crate::semirings::gallic::{GallicWeightMin, GallicWeightRestrict};
use crate::semirings::gallic_union::GallicWeight;
use crate::semirings::semiring::{
    QuantizationStep, WeaklyDivisibleSemiring, WeightQuantize, LEFT_SEMIRING, PATH,
};
use crate::weight_convert::{
    from_gallic, from_gallic_model, to_gallic, to_gallic_model, Gallic,
};
use vstd::prelude::*;

verus! {

/// How a transducer is determinized.
#[derive(Clone, Copy, Debug, PartialEq, Eq, Structural)]
pub enum DeterminizeType {
    /// The transducer is known to be functional; if it is not, that is an error.
    DeterminizeFunctional,
    /// The transducer is not known to be functional.
    DeterminizeNonFunctional,
    /// The transducer is not known to be functional, and only the best of several
    /// outputs is kept.
    DeterminizeDisambiguate,
}

/// How a machine is determinized.
#[derive(Clone, Copy, Debug)]
pub struct DeterminizeConfig<D> {
    /// The step to which weights are rounded.
    pub delta: D,
    pub det_type: DeterminizeType,
    /// How many states the result may have; `None` is no bound.
    ///
    /// Determinization of some machines does not come to an end. With a bound it
    /// ends with an error instead. A machine whose determinization stays within
    /// the bound is determinized as if there were none.
    pub max_states: Option<usize>,
}

impl<D: QuantizationStep> DeterminizeConfig<D> {
    /// Determinization without a bound.
    pub fn new(delta: D, det_type: DeterminizeType) -> (r: Self)
        ensures
            r == (DeterminizeConfig { delta, det_type, max_states: None }),
    {
        DeterminizeConfig { delta, det_type, max_states: None }
    }

    pub fn with_delta(self, delta: D) -> (r: Self)
        ensures
            r == (DeterminizeConfig { delta, ..self }),
    {
        DeterminizeConfig { delta, det_type: self.det_type, max_states: self.max_states }
    }

    pub fn with_det_type(self, det_type: DeterminizeType) -> (r: Self)
        ensures
            r == (DeterminizeConfig { det_type, ..self }),
    {
        DeterminizeConfig { delta: self.delta, det_type, max_states: self.max_states }
    }

    pub fn with_max_states(self, max_states: Option<usize>) -> (r: Self)
        ensures
            r == (DeterminizeConfig { max_states, ..self }),
    {
        DeterminizeConfig { delta: self.delta, det_type: self.det_type, max_states }
    }
}

/// What is used unless the caller chooses otherwise.
pub open spec fn default_config<D: QuantizationStep>() -> DeterminizeConfig<D> {
    DeterminizeConfig {
        delta: D::kdelta_model(),
        det_type: DeterminizeType::DeterminizeFunctional,
        max_states: None,
    }
}

impl<D: QuantizationStep> Default for DeterminizeConfig<D> {
    fn default() -> (r: Self)
        ensures
            r == default_config::<D>(),
    {
        DeterminizeConfig {
            delta: D::kdelta(),
            det_type: DeterminizeType::DeterminizeFunctional,
            max_states: None,
        }
    }
}

/// The determinization of an automaton.
pub open spec fn determinize_fsa_model<
    W: WeaklyDivisibleSemiring + WeightQuantize,
    CD: CommonDivisor<W>,
>(fst: FstM<W::M>, delta: W::Delta, max_states: Option<usize>) -> Result<FstM<W::M>, FstError> {
    if !W::properties_model().has(LEFT_SEMIRING) {
        Err(FstError::NotLeftDistributive)
    } else if !fst.properties.has(ACCEPTOR) {
        Err(FstError::NotAcceptor)
    } else {
        det_compute::<W, CD>(fst, None, delta, max_states).1
    }
}

/// Determinizes an automaton.
pub fn determinize_fsa<W: WeaklyDivisibleSemiring + WeightQuantize, CD: CommonDivisor<W>>(
    fst_in: &VectorFst<W>,
    delta: W::Delta,
    max_states: Option<usize>,
) -> (r: Result<VectorFst<W>, FstError>)
    ensures
        match r {
            Ok(out) => determinize_fsa_model::<W, CD>(fst_in.model(), delta, max_states) == Ok::<
                FstM<W::M>,
                FstError,
            >(out.model()),
            Err(e) => determinize_fsa_model::<W, CD>(fst_in.model(), delta, max_states) == Err::<
                FstM<W::M>,
                FstError,
            >(e),
        },
{
    if !W::properties().contains(LEFT_SEMIRING) {
        return Err(FstError::NotLeftDistributive);
    }
    let mut det_fsa: DeterminizeFsa<'_, W, CD> = match DeterminizeFsa::new(fst_in, None, delta) {
        Ok(det) => det,
        Err(e) => {
            return Err(e);
        },
    };
    proof {
        lemma_det_start::<W, CD>(fst_in.model(), None, delta);
    }
    det_fsa.compute_bounded(max_states)
}

/// The determinization of an automaton, and the distance from each of its states
/// to the final states.
pub open spec fn with_distance_model<W: WeaklyDivisibleSemiring + WeightQuantize>(
    fst: FstM<W::M>,
    in_dist: Seq<W::M>,
    delta: W::Delta,
) -> Result<(FstM<W::M>, Seq<W::M>), FstError> {
    if !W::properties_model().has(LEFT_SEMIRING) {
        Err(FstError::NotLeftDistributive)
    } else if !fst.properties.has(ACCEPTOR) {
        Err(FstError::NotAcceptor)
    } else {
        let (l, m) = det_compute::<W, DefaultCommonDivisor>(fst, Some(in_dist), delta, None);
        match m {
            Err(e) => Err(e),
            Ok(out) => Ok(
                (
                    out,
                    Seq::new(
                        out.states.len(),
                        |i: int|
                            subset_distance::<W>(l.op.table.tuples[i].pairs, in_dist)->Ok_0,
                    ),
                ),
            ),
        }
    }
}

/// Determinizes an automaton and computes the distance from each state of the
/// result to the final states, given the distances for the states of the input.
pub fn determinize_with_distance<W: WeaklyDivisibleSemiring + WeightQuantize>(
    ifst: &VectorFst<W>,
    in_dist: Vec<W>,
    delta: W::Delta,
) -> (r: Result<(VectorFst<W>, Vec<W>), FstError>)
    requires
        start_distance_ok::<W>(ifst.model(), Some(weights_model(in_dist@))),
    ensures
        match r {
            Ok((out, dist)) => with_distance_model::<W>(
                ifst.model(),
                weights_model(in_dist@),
                delta,
            ) == Ok::<(FstM<W::M>, Seq<W::M>), FstError>((out.model(), weights_model(dist@))),
            Err(e) => with_distance_model::<W>(
                ifst.model(),
                weights_model(in_dist@),
                delta,
            ) == Err::<(FstM<W::M>, Seq<W::M>), FstError>(e),
        },
{
    if !W::properties().contains(LEFT_SEMIRING) {
        return Err(FstError::NotLeftDistributive);
    }
    let ghost d = weights_model(in_dist@);
    let fst: DeterminizeFsa<'_, W, DefaultCommonDivisor> = match DeterminizeFsa::new(
        ifst,
        Some(in_dist),
        delta,
    ) {
        Ok(det) => det,
        Err(e) => {
            return Err(e);
        },
    };
    proof {
        lemma_det_start::<W, DefaultCommonDivisor>(ifst.model(), Some(d), delta);
        law_determinize_fsa_has_distances::<W, DefaultCommonDivisor>(
            ifst.model(),
            d,
            delta,
            None,
        );
    }
    let ghost l = det_compute::<W, DefaultCommonDivisor>(ifst.model(), Some(d), delta, None).0;
    match fst.compute_with_distance() {
        Ok((out, dist)) => {
            proof {
                let want = with_distance_model::<W>(ifst.model(), d, delta)->Ok_0.1;
                assert forall|i: int| 0 <= i < dist.len() implies weights_model(dist@)[i]
                    == want[i] by {
                    assert(l.op.table.out_dist[i] == Some(dist@[i].model()));
                }
                assert(weights_model(dist@) =~= want);
            }
            Ok((out, dist))
        },
        Err(e) => Err(e),
    }
}

/// The determinization of a transducer by way of an automaton whose weights carry
/// the output.
pub open spec fn determinize_via_model<
    W: WeaklyDivisibleSemiring + WeightQuantize,
    G: Gallic<W> + WeaklyDivisibleSemiring + WeightQuantize,
    CD: CommonDivisor<G>,
>(fst: FstM<W::M>, delta: G::Delta, max_states: Option<usize>) -> Result<FstM<W::M>, FstError> {
    match determinize_fsa_model::<G, CD>(to_gallic_model::<W, G>(fst), delta, max_states) {
        Err(e) => Err(e),
        Ok(det) => match factor_compute::<W, G>(det, G::Delta::kdelta_model()).1 {
            Err(e) => Err(e),
            Ok(factored) => from_gallic_model::<W, G>(factored),
        },
    }
}

fn determinize_via<
    W: WeaklyDivisibleSemiring + WeightQuantize,
    G: Gallic<W> + WeaklyDivisibleSemiring + WeightQuantize,
    CD: CommonDivisor<G>,
>(fst_in: &VectorFst<W>, delta: G::Delta, max_states: Option<usize>) -> (r: Result<
    VectorFst<W>,
    FstError,
>)
    requires
        fst_in.model().states.len() <= u32::MAX,
    ensures
        match r {
            Ok(out) => determinize_via_model::<W, G, CD>(fst_in.model(), delta, max_states)
                == Ok::<FstM<W::M>, FstError>(out.model()),
            Err(e) => determinize_via_model::<W, G, CD>(fst_in.model(), delta, max_states)
                == Err::<FstM<W::M>, FstError>(e),
        },
{
    let fsa: VectorFst<G> = to_gallic::<W, G>(fst_in);
    let determinized: VectorFst<G> = match determinize_fsa::<G, CD>(&fsa, delta, max_states) {
        Ok(fst) => fst,
        Err(e) => {
            return Err(e);
        },
    };
    let factored: VectorFst<G> = match factor_weight::<W, G>(&determinized, G::Delta::kdelta()) {
        Ok(fst) => fst,
        Err(e) => {
            return Err(e);
        },
    };
    from_gallic::<W, G>(&factored)
}

/// The determinization of a transducer.
pub open spec fn determinize_fst_model<W: WeaklyDivisibleSemiring + WeightQuantize>(
    fst: FstM<W::M>,
    det_type: DeterminizeType,
    delta: W::Delta,
    max_states: Option<usize>,
) -> Result<FstM<W::M>, FstError> {
    match det_type {
        DeterminizeType::DeterminizeDisambiguate => if !W::properties_model().has(PATH) {
            Err(FstError::NoPathProperty)
        } else {
            determinize_via_model::<W, GallicWeightMin<W>, GallicCommonDivisor>(
                fst,
                delta,
                max_states,
            )
        },
        DeterminizeType::DeterminizeFunctional => determinize_via_model::<
            W,
            GallicWeightRestrict<W>,
            GallicCommonDivisor,
        >(fst, delta, max_states),
        DeterminizeType::DeterminizeNonFunctional => determinize_via_model::<
            W,
            GallicWeight<W>,
            GallicCommonDivisor,
        >(fst, delta, max_states),
    }
}

/// Determinizes a transducer.
pub fn determinize_fst<W: WeaklyDivisibleSemiring + WeightQuantize>(
    fst_in: &VectorFst<W>,
    det_type: DeterminizeType,
    delta: W::Delta,
    max_states: Option<usize>,
) -> (r: Result<VectorFst<W>, FstError>)
    requires
        fst_in.model().states.len() <= u32::MAX,
    ensures
        match r {
            Ok(out) => determinize_fst_model::<W>(fst_in.model(), det_type, delta, max_states)
                == Ok::<FstM<W::M>, FstError>(out.model()),
            Err(e) => determinize_fst_model::<W>(fst_in.model(), det_type, delta, max_states)
                == Err::<FstM<W::M>, FstError>(e),
        },
{
    match det_type {
        DeterminizeType::DeterminizeDisambiguate => {
            if !W::properties().contains(PATH) {
                return Err(FstError::NoPathProperty);
            }
            determinize_via::<W, GallicWeightMin<W>, GallicCommonDivisor>(
                fst_in,
                delta,
                max_states,
            )
        },
        DeterminizeType::DeterminizeFunctional => determinize_via::<
            W,
            GallicWeightRestrict<W>,
            GallicCommonDivisor,
        >(fst_in, delta, max_states),
        DeterminizeType::DeterminizeNonFunctional => determinize_via::<
            W,
            GallicWeight<W>,
            GallicCommonDivisor,
        >(fst_in, delta, max_states),
    }
}

/// What is known of the determinization of a machine.
pub open spec fn determinized_properties(
    properties: FstProperties,
    det_type: DeterminizeType,
) -> FstProperties {
    let known = properties.determinize_model(
        false,
        det_type != DeterminizeType::DeterminizeNonFunctional,
    );
    if properties.has(ACCEPTOR) {
        known.union_model(I_LABEL_SORTED | O_LABEL_SORTED)
    } else {
        known
    }
}

/// The states of the determinization of a machine.
pub open spec fn determinized_states<W: WeaklyDivisibleSemiring + WeightQuantize>(
    fst: FstM<W::M>,
    config: DeterminizeConfig<W::Delta>,
) -> Result<FstM<W::M>, FstError> {
    if fst.properties.has(ACCEPTOR) {
        determinize_fsa_model::<W, DefaultCommonDivisor>(fst, config.delta, config.max_states)
    } else {
        determinize_fst_model::<W>(fst, config.det_type, config.delta, config.max_states)
    }
}

/// The determinization of a machine.
pub open spec fn determinize_model<W: WeaklyDivisibleSemiring + WeightQuantize>(
    fst: FstM<W::M>,
    config: DeterminizeConfig<W::Delta>,
) -> Result<FstM<W::M>, FstError> {
    match determinized_states::<W>(fst, config) {
        Err(e) => Err(e),
        Ok(out) => Ok(
            FstM {
                properties: determinized_properties(fst.properties, config.det_type),
                isymt: if fst.isymt is Some {
                    fst.isymt
                } else {
                    out.isymt
                },
                osymt: if fst.osymt is Some {
                    fst.osymt
                } else {
                    out.osymt
                },
                ..out
            },
        ),
    }
}

/// Determinizes a machine: creates an equivalent one in which no state has two
/// transitions with the same input label. The empty label counts as a symbol like
/// any other. Of a transducer, those transitions are excepted that write what is left
/// of the output at the end.
pub fn determinize_with_config<W: WeaklyDivisibleSemiring + WeightQuantize>(
    fst_in: &VectorFst<W>,
    config: DeterminizeConfig<W::Delta>,
) -> (r: Result<VectorFst<W>, FstError>)
    requires
        fst_in.model().states.len() <= u32::MAX,
    ensures
        match r {
            Ok(out) => determinize_model::<W>(fst_in.model(), config) == Ok::<
                FstM<W::M>,
                FstError,
            >(out.model()),
            Err(e) => determinize_model::<W>(fst_in.model(), config) == Err::<
                FstM<W::M>,
                FstError,
            >(e),
        },
{
    let iprops: FstProperties = fst_in.properties();
    let acceptor: bool = iprops.contains(ACCEPTOR);
    let mut fst_res: VectorFst<W> = match if acceptor {
        determinize_fsa::<W, DefaultCommonDivisor>(fst_in, config.delta, config.max_states)
    } else {
        determinize_fst(fst_in, config.det_type, config.delta, config.max_states)
    } {
        Ok(fst) => fst,
        Err(e) => {
            return Err(e);
        },
    };
    let mut props: FstProperties = iprops.determinize(
        false,
        config.det_type != DeterminizeType::DeterminizeNonFunctional,
    );
    if acceptor {
        props = props.union(I_LABEL_SORTED | O_LABEL_SORTED);
    }
    fst_res.set_properties(props);
    fst_res.set_symts_from_fst(fst_in);
    Ok(fst_res)
}

/// Determinizes a machine as `determinize_with_config` does unless told otherwise.
pub fn determinize<W: WeaklyDivisibleSemiring + WeightQuantize>(fst_in: &VectorFst<W>) -> (r:
    Result<VectorFst<W>, FstError>)
    requires
        fst_in.model().states.len() <= u32::MAX,
    ensures
        match r {
            Ok(out) => determinize_model::<W>(fst_in.model(), default_config::<W::Delta>())
                == Ok::<FstM<W::M>, FstError>(out.model()),
            Err(e) => determinize_model::<W>(fst_in.model(), default_config::<W::Delta>())
                == Err::<FstM<W::M>, FstError>(e),
        },
{
    determinize_with_config(fst_in, DeterminizeConfig::default())
}

} // verus!
