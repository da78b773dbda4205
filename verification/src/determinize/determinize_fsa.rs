//! A determinized automaton that is written out once.

use crate::determinize::determinize_fsa_op::{DetM, DeterminizeFsaOp};
use crate::determinize::divisors::CommonDivisor;
use crate::determinize::element::ElementM;
use crate::determinize::state_table::{subset_distance, weights_model, TableM};
use crate::error::FstError;
use crate::fst::properties::ACCEPTOR;
use crate::fst::symbol_table::SymbolTable;
use crate::fst::vector_fst::{FstM, VectorFst};
use crate::lazy::cache::CacheM;
use crate::lazy::lazy_fst::{compute_model, lazy_start, lazy_valid, LazyFst, LazyM};
use crate::lazy::null_cache::NullCache;
use crate::semirings::semiring::{Semiring, WeaklyDivisibleSemiring, WeightQuantize};
use std::sync::Arc;
use vstd::prelude::*;

verus! {

/// The determinization of `fst` before anything has been computed.
pub open spec fn det_begin<W: WeightQuantize>(
    fst: FstM<W::M>,
    in_dist: Option<Seq<W::M>>,
    delta: W::Delta,
) -> LazyM<W::M, DetM<W::M, W::Delta>> {
    LazyM {
        cache: CacheM::empty(),
        op: DetM { fst, table: TableM::empty(in_dist, None), delta },
    }
}

/// Writing out the determinization of `fst`: the state that the computation is
/// left in, and the machine.
pub open spec fn det_compute<W: WeaklyDivisibleSemiring + WeightQuantize, CD: CommonDivisor<W>>(
    fst: FstM<W::M>,
    in_dist: Option<Seq<W::M>>,
    delta: W::Delta,
    max_states: Option<usize>,
) -> (LazyM<W::M, DetM<W::M, W::Delta>>, Result<FstM<W::M>, FstError>) {
    compute_model::<W, DeterminizeFsaOp<'_, W, CD>, NullCache<W>>(
        det_begin::<W>(fst, in_dist, delta),
        fst.isymt,
        fst.osymt,
        max_states,
        None,
    )
}

/// The distance of the start state can be computed.
pub open spec fn start_distance_ok<W: Semiring>(
    fst: FstM<W::M>,
    in_dist: Option<Seq<W::M>>,
) -> bool {
    (fst.start is Some && in_dist is Some) ==> subset_distance::<W>(
        seq![ElementM { state: fst.start->0, weight: W::one_model() }],
        in_dist->0,
    ) is Ok
}

/// The start state can be computed.
pub proof fn lemma_det_start<W: WeaklyDivisibleSemiring + WeightQuantize, CD: CommonDivisor<W>>(
    fst: FstM<W::M>,
    in_dist: Option<Seq<W::M>>,
    delta: W::Delta,
)
    requires
        start_distance_ok::<W>(fst, in_dist),
    ensures
        lazy_valid::<W, DeterminizeFsaOp<'_, W, CD>>(det_begin::<W>(fst, in_dist, delta)),
        lazy_start::<W, DeterminizeFsaOp<'_, W, CD>, NullCache<W>>(
            det_begin::<W>(fst, in_dist, delta),
        ).1 is Ok,
{
}

/// A determinized automaton.
pub struct DeterminizeFsa<'a, W: WeightQuantize, CD>(
    LazyFst<W, DeterminizeFsaOp<'a, W, CD>, NullCache<W>>,
);

impl<'a, W: WeaklyDivisibleSemiring + WeightQuantize, CD: CommonDivisor<W>> DeterminizeFsa<
    'a,
    W,
    CD,
> {
    /// The state of the computation.
    pub closed spec fn model(&self) -> LazyM<W::M, DetM<W::M, W::Delta>> {
        self.0.model()
    }

    pub closed spec fn inv(&self) -> bool {
        self.0.inv()
    }

    pub closed spec fn input_table(&self) -> Option<Arc<SymbolTable>> {
        self.0.input_table()
    }

    pub closed spec fn output_table(&self) -> Option<Arc<SymbolTable>> {
        self.0.output_table()
    }

    /// The determinization of `fst`, which has to be an acceptor. Where the
    /// distances of its states are given, those of the determinized machine are
    /// computed along with it.
    pub fn new(fst: &'a VectorFst<W>, in_dist: Option<Vec<W>>, delta: W::Delta) -> (r: Result<
        Self,
        FstError,
    >)
        ensures
            match r {
                Ok(det) => {
                    &&& fst.model().properties.has(ACCEPTOR)
                    &&& det.inv()
                    &&& det.model() == det_begin::<W>(
                        fst.model(),
                        match in_dist {
                            Some(d) => Some(weights_model(d@)),
                            None => None,
                        },
                        delta,
                    )
                    &&& det.input_table() == fst.model().isymt
                    &&& det.output_table() == fst.model().osymt
                },
                Err(e) => !fst.model().properties.has(ACCEPTOR) && e == FstError::NotAcceptor,
            },
    {
        let isymt: Option<Arc<SymbolTable>> = match fst.input_symbols() {
            Some(t) => Some(t.clone()),
            None => None,
        };
        let osymt: Option<Arc<SymbolTable>> = match fst.output_symbols() {
            Some(t) => Some(t.clone()),
            None => None,
        };
        let op = match DeterminizeFsaOp::new_with_subset_limit(fst, in_dist, delta, None) {
            Ok(op) => op,
            Err(e) => {
                return Err(e);
            },
        };
        Ok(DeterminizeFsa(LazyFst::from_op_and_cache(op, NullCache::default(), isymt, osymt)))
    }

    /// Writes the machine out, unless it has more than `max_states` states.
    pub fn compute_bounded(&mut self, max_states: Option<usize>) -> (r: Result<
        VectorFst<W>,
        FstError,
    >)
        requires
            old(self).inv(),
            lazy_start::<W, DeterminizeFsaOp<'a, W, CD>, NullCache<W>>(old(self).model()).1 is Ok,
        ensures
            final(self).inv(),
            final(self).input_table() == old(self).input_table(),
            final(self).output_table() == old(self).output_table(),
            ({
                let (l, m) = compute_model::<W, DeterminizeFsaOp<'a, W, CD>, NullCache<W>>(
                    old(self).model(),
                    old(self).input_table(),
                    old(self).output_table(),
                    max_states,
                    None,
                );
                &&& final(self).model() == l
                &&& match r {
                    Ok(fst) => m == Ok::<FstM<W::M>, FstError>(fst.model()),
                    Err(e) => m == Err::<FstM<W::M>, FstError>(e),
                }
            }),
    {
        self.0.compute_bounded(max_states, None)
    }

    /// Writes the machine out together with the distances of its states.
    pub fn compute_with_distance(self) -> (r: Result<(VectorFst<W>, Vec<W>), FstError>)
        requires
            self.inv(),
            lazy_start::<W, DeterminizeFsaOp<'a, W, CD>, NullCache<W>>(self.model()).1 is Ok,
        ensures
            ({
                let (l, m) = compute_model::<W, DeterminizeFsaOp<'a, W, CD>, NullCache<W>>(
                    self.model(),
                    self.input_table(),
                    self.output_table(),
                    None,
                    None,
                );
                match r {
                    Ok((fst, dist)) => {
                        &&& m == Ok::<FstM<W::M>, FstError>(fst.model())
                        &&& dist.len() == l.op.table.out_dist.len()
                        &&& forall|i: int|
                            0 <= i < dist.len() ==> #[trigger] l.op.table.out_dist[i] == Some(
                                dist[i].model(),
                            )
                    },
                    Err(e) => m == Err::<FstM<W::M>, FstError>(e) || (m is Ok && exists|i: int|
                        0 <= i < l.op.table.out_dist.len()
                            && #[trigger] l.op.table.out_dist[i] is None && (forall|j: int|
                            0 <= j < i ==> #[trigger] l.op.table.out_dist[j] is Some) && e == (
                        FstError::OutDistanceMissing { index: i as usize })),
                }
            }),
    {
        let mut lazy = self.0;
        let dfst: VectorFst<W> = match lazy.compute() {
            Ok(fst) => fst,
            Err(e) => {
                return Err(e);
            },
        };
        match lazy.into_op().out_dist() {
            Ok(dist) => Ok((dfst, dist)),
            Err(e) => Err(e),
        }
    }
}

} // verus!
