//! What a lazy machine remembers of the states it has computed.

use crate::fst::tr::{trs_model, StateId, Tr, TrM, TrsVec, EPS_LABEL};
use crate::fst::vector_fst::option_model;
use crate::semirings::semiring::Semiring;
use vstd::prelude::*;

verus! {

/// What a cache has to say about a value.
#[derive(Clone, Copy, Debug, PartialEq, Eq)]
pub enum CacheStatus<T> {
    Computed(T),
    NotComputed,
}

impl<T> CacheStatus<T> {
    pub fn is_not_computed(&self) -> (b: bool)
        ensures
            b == (*self is NotComputed),
    {
        matches!(self, CacheStatus::NotComputed)
    }

    pub fn is_computed(&self) -> (b: bool)
        ensures
            b == (*self is Computed),
    {
        matches!(self, CacheStatus::Computed(_))
    }
}

/// The contents of a cache.
pub struct CacheM<M> {
    /// The start state, once it is known.
    pub start: CacheStatus<Option<StateId>>,
    /// The transitions of the states that were expanded.
    pub trs: Map<StateId, Seq<TrM<M>>>,
    /// The final weights that were computed.
    pub final_weights: Map<StateId, Option<M>>,
    /// One more than the largest state id that an insertion has mentioned.
    pub known_states: int,
}

/// The larger of two numbers.
pub open spec fn max_int(a: int, b: int) -> int {
    if a >= b {
        a
    } else {
        b
    }
}

/// One more than the largest destination of `trs`, or zero.
pub open spec fn destination_bound<M>(trs: Seq<TrM<M>>) -> int
    decreases trs.len(),
{
    if trs.len() == 0 {
        0
    } else {
        max_int(destination_bound(trs.drop_last()), trs.last().nextstate + 1)
    }
}

/// How many transitions read nothing.
pub open spec fn count_input_epsilons<M>(trs: Seq<TrM<M>>) -> nat
    decreases trs.len(),
{
    if trs.len() == 0 {
        0
    } else {
        count_input_epsilons(trs.drop_last()) + (if trs.last().ilabel == EPS_LABEL {
            1nat
        } else {
            0nat
        })
    }
}

/// How many transitions write nothing.
pub open spec fn count_output_epsilons<M>(trs: Seq<TrM<M>>) -> nat
    decreases trs.len(),
{
    if trs.len() == 0 {
        0
    } else {
        count_output_epsilons(trs.drop_last()) + (if trs.last().olabel == EPS_LABEL {
            1nat
        } else {
            0nat
        })
    }
}

/// How many transitions the lists of `m` hold together.
pub open spec fn total_trs<M>(m: Map<StateId, Seq<TrM<M>>>) -> nat
    decreases m.dom().len(),
    when m.dom().finite()
{
    if m.dom().len() == 0 {
        0
    } else {
        let k = m.dom().choose();
        m[k].len() + total_trs(m.remove(k))
    }
}

/// Any list of `m` can be counted first.
pub proof fn lemma_total_trs<M>(m: Map<StateId, Seq<TrM<M>>>, k: StateId)
    requires
        m.dom().finite(),
        m.dom().contains(k),
    ensures
        total_trs(m) == m[k].len() + total_trs(m.remove(k)),
    decreases m.dom().len(),
{
    let c = m.dom().choose();
    assert(m.dom().len() != 0) by {
        if m.dom().len() == 0 {
            assert(m.dom() =~= Set::empty());
        }
    }
    assert(m.dom().contains(c));
    assert(m.remove(c).dom() =~= m.dom().remove(c));
    assert(m.remove(k).dom() =~= m.dom().remove(k));
    if c != k {
        lemma_total_trs(m.remove(c), k);
        lemma_total_trs(m.remove(k), c);
        assert(m.remove(c).remove(k) =~= m.remove(k).remove(c));
    }
}

/// A longer prefix holds one element more.
pub proof fn lemma_take_contains(s: Seq<StateId>, i: int, j: StateId)
    requires
        0 <= i < s.len(),
    ensures
        s.take(i + 1).contains(j) <==> s.take(i).contains(j) || j == s[i],
{
    let longer = s.take(i + 1);
    let shorter = s.take(i);
    if shorter.contains(j) {
        let w = choose|w: int| 0 <= w < shorter.len() && shorter[w] == j;
        assert(longer[w] == j);
    }
    if j == s[i] {
        assert(longer[i] == j);
    }
    if longer.contains(j) && j != s[i] {
        let w = choose|w: int| 0 <= w < longer.len() && longer[w] == j;
        assert(shorter[w] == j);
    }
}

impl<M> CacheM<M> {
    /// Nothing is known yet.
    pub open spec fn empty() -> Self {
        CacheM {
            start: CacheStatus::NotComputed,
            trs: Map::empty(),
            final_weights: Map::empty(),
            known_states: 0,
        }
    }

    /// The contents after the start state was inserted.
    pub open spec fn with_start(self, id: Option<StateId>) -> Self {
        CacheM {
            start: CacheStatus::Computed(id),
            known_states: match id {
                Some(s) => max_int(self.known_states, s + 1),
                None => self.known_states,
            },
            ..self
        }
    }

    /// The contents after the transitions of `id` were inserted.
    pub open spec fn with_trs(self, id: StateId, trs: Seq<TrM<M>>) -> Self {
        CacheM {
            trs: self.trs.insert(id, trs),
            known_states: max_int(self.known_states, destination_bound(trs)),
            ..self
        }
    }

    /// The contents after the final weight of `id` was inserted.
    pub open spec fn with_final_weight(self, id: StateId, weight: Option<M>) -> Self {
        CacheM {
            final_weights: self.final_weights.insert(id, weight),
            known_states: max_int(self.known_states, id + 1),
            ..self
        }
    }
}

/// What is known of the transitions of one state.
#[derive(Debug)]
pub struct CacheTrs<W> {
    pub trs: TrsVec<W>,
    pub niepsilons: usize,
    pub noepsilons: usize,
}

impl<W: Semiring> CacheTrs<W> {
    /// The counts belong to the transitions.
    pub open spec fn inv(&self) -> bool {
        &&& self.niepsilons == count_input_epsilons(self.trs.model())
        &&& self.noepsilons == count_output_epsilons(self.trs.model())
    }

    /// Counts the transitions once, and with them how far `known_states` reaches.
    pub fn scan(trs: TrsVec<W>, known_states: usize) -> (r: (Self, usize))
        requires
            forall|i: int|
                0 <= i < trs.model().len() ==> (#[trigger] trs.model()[i]).nextstate < usize::MAX,
        ensures
            r.0.inv(),
            r.0.trs.model() == trs.model(),
            r.1 == max_int(known_states as int, destination_bound(trs.model())),
    {
        let mut known: usize = known_states;
        let mut niepsilons: usize = 0;
        let mut noepsilons: usize = 0;
        let ghost m = trs.model();
        let n: usize = trs.len();
        let list: &Vec<Tr<W>> = trs.trs();
        for i in 0..n
            invariant
                trs_model(list@) == m,
                n == m.len(),
                niepsilons == count_input_epsilons(m.take(i as int)),
                noepsilons == count_output_epsilons(m.take(i as int)),
                niepsilons <= i,
                noepsilons <= i,
                known == max_int(known_states as int, destination_bound(m.take(i as int))),
                forall|i: int| 0 <= i < m.len() ==> (#[trigger] m[i]).nextstate < usize::MAX,
        {
            let tr: &Tr<W> = &list[i];
            proof {
                assert(m[i as int] == tr.model());
                assert(m.take(i + 1).drop_last() =~= m.take(i as int));
                assert(m.take(i + 1).last() == m[i as int]);
            }
            let reach: usize = tr.nextstate as usize + 1;
            if known < reach {
                known = reach;
            }
            if tr.ilabel == EPS_LABEL {
                niepsilons += 1;
            }
            if tr.olabel == EPS_LABEL {
                noepsilons += 1;
            }
        }
        assert(m.take(n as int) =~= m);
        (CacheTrs { trs, niepsilons, noepsilons }, known)
    }
}

/// A cache that a lazy machine consults before it computes anything.
///
/// A cache either keeps everything that is inserted or nothing at all, and says
/// which.
pub trait FstCache<W: Semiring>: Sized {
    /// The contents.
    spec fn model(&self) -> CacheM<W::M>;

    /// Whether insertions are kept.
    spec fn keeps() -> bool;

    /// What holds of the representation.
    spec fn inv(&self) -> bool;

    /// How many places for transitions are in use.
    spec fn trs_places(&self) -> nat;

    /// How many places for final weights are in use.
    spec fn final_weight_places(&self) -> nat;

    fn get_start(&self) -> (r: CacheStatus<Option<StateId>>)
        requires
            self.inv(),
        ensures
            r == self.model().start,
    ;

    fn insert_start(&mut self, id: Option<StateId>)
        requires
            old(self).inv(),
            id matches Some(s) ==> s < usize::MAX,
        ensures
            final(self).inv(),
            final(self).model() == (if Self::keeps() {
                old(self).model().with_start(id)
            } else {
                old(self).model()
            }),
            final(self).trs_places() == old(self).trs_places(),
            final(self).final_weight_places() == old(self).final_weight_places(),
    ;

    fn get_trs(&self, id: StateId) -> (r: CacheStatus<TrsVec<W>>)
        requires
            self.inv(),
        ensures
            match r {
                CacheStatus::Computed(trs) => self.model().trs.contains_key(id)
                    && self.model().trs[id] == trs.model(),
                CacheStatus::NotComputed => !self.model().trs.contains_key(id),
            },
    ;

    fn insert_trs(&mut self, id: StateId, trs: TrsVec<W>)
        requires
            old(self).inv(),
            id < usize::MAX,
            forall|i: int|
                0 <= i < trs.model().len() ==> (#[trigger] trs.model()[i]).nextstate < usize::MAX,
        ensures
            final(self).inv(),
            final(self).model() == (if Self::keeps() {
                old(self).model().with_trs(id, trs.model())
            } else {
                old(self).model()
            }),
            final(self).final_weight_places() == old(self).final_weight_places(),
    ;

    fn get_final_weight(&self, id: StateId) -> (r: CacheStatus<Option<W>>)
        requires
            self.inv(),
        ensures
            match r {
                CacheStatus::Computed(w) => self.model().final_weights.contains_key(id)
                    && self.model().final_weights[id] == option_model(w),
                CacheStatus::NotComputed => !self.model().final_weights.contains_key(id),
            },
    ;

    fn insert_final_weight(&mut self, id: StateId, weight: Option<W>)
        requires
            old(self).inv(),
            id < usize::MAX,
        ensures
            final(self).inv(),
            final(self).model() == (if Self::keeps() {
                old(self).model().with_final_weight(id, option_model(weight))
            } else {
                old(self).model()
            }),
            final(self).trs_places() == old(self).trs_places(),
    ;

    /// One more than the largest state id that an insertion has mentioned.
    fn num_known_states(&self) -> (r: usize)
        requires
            self.inv(),
        ensures
            r == self.model().known_states,
    ;

    /// How many transitions are kept.
    fn compute_num_known_trs(&self) -> (r: usize)
        requires
            self.inv(),
            total_trs(self.model().trs) <= usize::MAX,
        ensures
            r == total_trs(self.model().trs),
    ;

    /// How many transitions a state has, if they are kept.
    fn num_trs(&self, id: StateId) -> (r: Option<usize>)
        requires
            self.inv(),
        ensures
            match r {
                Some(n) => self.model().trs.contains_key(id) && n == self.model().trs[id].len(),
                None => !self.model().trs.contains_key(id),
            },
    ;

    /// How many transitions of a state read nothing, if they are kept.
    fn num_input_epsilons(&self, id: StateId) -> (r: Option<usize>)
        requires
            self.inv(),
        ensures
            match r {
                Some(n) => self.model().trs.contains_key(id) && n == count_input_epsilons(
                    self.model().trs[id],
                ),
                None => !self.model().trs.contains_key(id),
            },
    ;

    /// How many transitions of a state write nothing, if they are kept.
    fn num_output_epsilons(&self, id: StateId) -> (r: Option<usize>)
        requires
            self.inv(),
        ensures
            match r {
                Some(n) => self.model().trs.contains_key(id) && n == count_output_epsilons(
                    self.model().trs[id],
                ),
                None => !self.model().trs.contains_key(id),
            },
    ;

    /// How many places for transitions are in use.
    fn len_trs(&self) -> (r: usize)
        requires
            self.inv(),
        ensures
            r == self.trs_places(),
    ;

    /// How many places for final weights are in use.
    fn len_final_weights(&self) -> (r: usize)
        requires
            self.inv(),
        ensures
            r == self.final_weight_places(),
    ;
}

} // verus!
