//! A cache that stores nothing.

use crate::fst::tr::{StateId, TrsVec};
use crate::lazy::cache::{CacheM, CacheStatus, FstCache};
use crate::semirings::semiring::Semiring;
use std::marker::PhantomData;
use vstd::prelude::*;

verus! {

/// A cache that stores nothing.
///
/// The one-shot algorithms build a lazy machine, materialize it once and drop
/// it. Each state's transitions and final weight are asked for exactly once, so
/// nothing is ever read back out of the cache: every lookup here is a miss and
/// every insertion is dropped.
///
/// It is not meant for a lazy machine that is kept and queried again and again,
/// where every access would recompute from scratch.
#[derive(Debug)]
pub struct NullCache<W> {
    w: PhantomData<W>,
}

impl<W: Semiring> Default for NullCache<W> {
    fn default() -> (r: Self)
        ensures
            r.inv(),
            r.model() == CacheM::<W::M>::empty(),
    {
        NullCache { w: PhantomData }
    }
}

impl<W: Semiring> Clone for NullCache<W> {
    fn clone(&self) -> (r: Self)
        ensures
            r.inv(),
            r.model() == self.model(),
    {
        NullCache { w: PhantomData }
    }
}

impl<W: Semiring> FstCache<W> for NullCache<W> {
    open spec fn model(&self) -> CacheM<W::M> {
        CacheM::empty()
    }

    open spec fn keeps() -> bool {
        false
    }

    open spec fn inv(&self) -> bool {
        true
    }

    open spec fn trs_places(&self) -> nat {
        0
    }

    open spec fn final_weight_places(&self) -> nat {
        0
    }

    fn get_start(&self) -> (r: CacheStatus<Option<StateId>>) {
        CacheStatus::NotComputed
    }

    fn insert_start(&mut self, _id: Option<StateId>) {
    }

    fn get_trs(&self, _id: StateId) -> (r: CacheStatus<TrsVec<W>>) {
        CacheStatus::NotComputed
    }

    fn insert_trs(&mut self, _id: StateId, _trs: TrsVec<W>) {
    }

    fn get_final_weight(&self, _id: StateId) -> (r: CacheStatus<Option<W>>) {
        CacheStatus::NotComputed
    }

    fn insert_final_weight(&mut self, _id: StateId, _weight: Option<W>) {
    }

    fn num_known_states(&self) -> (r: usize) {
        0
    }

    fn compute_num_known_trs(&self) -> (r: usize) {
        0
    }

    fn num_trs(&self, _id: StateId) -> (r: Option<usize>) {
        None
    }

    fn num_input_epsilons(&self, _id: StateId) -> (r: Option<usize>) {
        None
    }

    fn num_output_epsilons(&self, _id: StateId) -> (r: Option<usize>) {
        None
    }

    fn len_trs(&self) -> (r: usize) {
        0
    }

    fn len_final_weights(&self) -> (r: usize) {
        0
    }
}

} // verus!
