//! A cache backed by hash maps.

use crate::fst::tr::{StateId, TrM, TrsVec};
use crate::fst::vector_fst::{duplicate_option, option_model};
use crate::lazy::cache::{
    lemma_take_contains, lemma_total_trs, max_int, total_trs, CacheM, CacheStatus, CacheTrs,
    FstCache,
};
use crate::semirings::semiring::Semiring;
use std::collections::HashMap;
use vstd::prelude::*;

verus! {

broadcast use vstd::std_specs::hash::group_hash_axioms;

/// A cache that keeps everything in hash maps keyed by state id.
///
/// For machines whose ids are sparse; meant for a single thread. The order in
/// which the maps are walked never reaches a result.
#[derive(Debug)]
pub struct UnsyncHashMapCache<W> {
    start: CacheStatus<Option<StateId>>,
    start_known: usize,
    trs: HashMap<StateId, CacheTrs<W>>,
    trs_known: usize,
    final_weights: HashMap<StateId, Option<W>>,
    final_known: usize,
}

impl<W: Semiring> UnsyncHashMapCache<W> {
    closed spec fn trs_map(&self) -> Map<StateId, Seq<TrM<W::M>>> {
        Map::new(|k: StateId| self.trs@.contains_key(k), |k: StateId| self.trs@[k].trs.model())
    }

    closed spec fn final_map(&self) -> Map<StateId, Option<W::M>> {
        Map::new(
            |k: StateId| self.final_weights@.contains_key(k),
            |k: StateId| option_model(self.final_weights@[k]),
        )
    }
}

impl<W: Semiring> Default for UnsyncHashMapCache<W> {
    fn default() -> (r: Self)
        ensures
            r.inv(),
            r.model() == CacheM::<W::M>::empty(),
            r.trs_places() == 0,
            r.final_weight_places() == 0,
    {
        let r = UnsyncHashMapCache {
            start: CacheStatus::NotComputed,
            start_known: 0,
            trs: HashMap::new(),
            trs_known: 0,
            final_weights: HashMap::new(),
            final_known: 0,
        };
        assert(r.trs_map() =~= Map::empty());
        assert(r.final_map() =~= Map::empty());
        r
    }
}

impl<W: Semiring> Clone for UnsyncHashMapCache<W> {
    fn clone(&self) -> (r: Self)
        ensures
            self.inv() ==> r.inv(),
            r.model() == self.model(),
            r.trs_places() == self.trs_places(),
            r.final_weight_places() == self.final_weight_places(),
    {
        let mut trs: HashMap<StateId, CacheTrs<W>> = HashMap::new();
        let ghost mut walked: Seq<StateId> = Seq::empty();
        for k in it: self.trs.keys()
            invariant
                it.seq().unref().to_set() == self.trs@.dom(),
                walked == it.seq().unref().take(it.index() as int),
                it.index() == it.seq().len() ==> walked.to_set() == self.trs@.dom(),
                forall|j: StateId| #[trigger]
                    trs@.contains_key(j) <==> walked.contains(j),
                forall|j: StateId| #[trigger]
                    trs@.contains_key(j) ==> self.trs@.contains_key(j) && trs@[j].niepsilons
                        == self.trs@[j].niepsilons && trs@[j].noepsilons == self.trs@[j].noepsilons
                        && trs@[j].trs.model() == self.trs@[j].trs.model(),
        {
            let ghost s = it.seq().unref();
            let ghost i = it.index() as int;
            proof {
                assert(s[i] == *k);
                assert(s.contains(*k));
                assert(s.to_set().contains(*k));
            }
            match self.trs.get(k) {
                Some(e) => {
                    trs.insert(
                        *k,
                        CacheTrs {
                            trs: e.trs.shallow_clone(),
                            niepsilons: e.niepsilons,
                            noepsilons: e.noepsilons,
                        },
                    );
                },
                None => {},
            }
            proof {
                walked = walked.push(*k);
                assert(walked =~= s.take(i + 1));
                if i + 1 == s.len() {
                    assert(walked =~= s);
                }
                assert forall|j: StateId| #[trigger] trs@.contains_key(j) <==> s.take(
                    i + 1,
                ).contains(j) by {
                    lemma_take_contains(s, i, j);
                }
            }
        }
        assert(trs@.dom() =~= self.trs@.dom()) by {
            assert forall|j: StateId| self.trs@.contains_key(j) implies trs@.contains_key(j) by {
                assert(walked.to_set().contains(j));
            }
        }
        let mut final_weights: HashMap<StateId, Option<W>> = HashMap::new();
        let ghost mut walked: Seq<StateId> = Seq::empty();
        for k in it: self.final_weights.keys()
            invariant
                it.seq().unref().to_set() == self.final_weights@.dom(),
                walked == it.seq().unref().take(it.index() as int),
                it.index() == it.seq().len() ==> walked.to_set() == self.final_weights@.dom(),
                forall|j: StateId| #[trigger]
                    final_weights@.contains_key(j) <==> walked.contains(j),
                forall|j: StateId| #[trigger]
                    final_weights@.contains_key(j) ==> self.final_weights@.contains_key(j)
                        && option_model(final_weights@[j]) == option_model(self.final_weights@[j]),
        {
            let ghost s = it.seq().unref();
            let ghost i = it.index() as int;
            proof {
                assert(s[i] == *k);
                assert(s.contains(*k));
                assert(s.to_set().contains(*k));
            }
            match self.final_weights.get(k) {
                Some(e) => {
                    final_weights.insert(*k, duplicate_option(e));
                },
                None => {},
            }
            proof {
                walked = walked.push(*k);
                assert(walked =~= s.take(i + 1));
                if i + 1 == s.len() {
                    assert(walked =~= s);
                }
                assert forall|j: StateId| #[trigger] final_weights@.contains_key(j) <==> s.take(
                    i + 1,
                ).contains(j) by {
                    lemma_take_contains(s, i, j);
                }
            }
        }
        assert(final_weights@.dom() =~= self.final_weights@.dom()) by {
            assert forall|j: StateId| self.final_weights@.contains_key(j) implies
                final_weights@.contains_key(j) by {
                assert(walked.to_set().contains(j));
            }
        }
        let r = UnsyncHashMapCache {
            start: self.start,
            start_known: self.start_known,
            trs,
            trs_known: self.trs_known,
            final_weights,
            final_known: self.final_known,
        };
        assert(r.trs_map() =~= self.trs_map());
        assert(r.final_map() =~= self.final_map());
        r
    }
}

impl<W: Semiring> FstCache<W> for UnsyncHashMapCache<W> {
    closed spec fn model(&self) -> CacheM<W::M> {
        CacheM {
            start: self.start,
            trs: self.trs_map(),
            final_weights: self.final_map(),
            known_states: max_int(
                self.start_known as int,
                max_int(self.trs_known as int, self.final_known as int),
            ),
        }
    }

    open spec fn keeps() -> bool {
        true
    }

    closed spec fn inv(&self) -> bool {
        forall|k: StateId| #[trigger] self.trs@.contains_key(k) ==> self.trs@[k].inv()
    }

    closed spec fn trs_places(&self) -> nat {
        self.trs@.len()
    }

    closed spec fn final_weight_places(&self) -> nat {
        self.final_weights@.len()
    }

    fn get_start(&self) -> (r: CacheStatus<Option<StateId>>) {
        self.start
    }

    fn insert_start(&mut self, id: Option<StateId>) {
        if let Some(s) = id {
            let reach: usize = s as usize + 1;
            if self.start_known < reach {
                self.start_known = reach;
            }
        }
        self.start = CacheStatus::Computed(id);
        assert(self.trs_map() =~= old(self).trs_map());
        assert(self.final_map() =~= old(self).final_map());
    }

    fn get_trs(&self, id: StateId) -> (r: CacheStatus<TrsVec<W>>) {
        match self.trs.get(&id) {
            Some(e) => CacheStatus::Computed(e.trs.shallow_clone()),
            None => CacheStatus::NotComputed,
        }
    }

    fn insert_trs(&mut self, id: StateId, trs: TrsVec<W>) {
        let ghost m = trs.model();
        let (entry, known) = CacheTrs::scan(trs, self.trs_known);
        self.trs_known = known;
        self.trs.insert(id, entry);
        assert(self.trs_map() =~= old(self).trs_map().insert(id, m));
        assert(self.final_map() =~= old(self).final_map());
    }

    fn get_final_weight(&self, id: StateId) -> (r: CacheStatus<Option<W>>) {
        match self.final_weights.get(&id) {
            Some(e) => CacheStatus::Computed(duplicate_option(e)),
            None => CacheStatus::NotComputed,
        }
    }

    fn insert_final_weight(&mut self, id: StateId, weight: Option<W>) {
        let ghost m = option_model(weight);
        let reach: usize = id as usize + 1;
        if self.final_known < reach {
            self.final_known = reach;
        }
        self.final_weights.insert(id, weight);
        assert(self.final_map() =~= old(self).final_map().insert(id, m));
        assert(self.trs_map() =~= old(self).trs_map());
    }

    fn num_known_states(&self) -> (r: usize) {
        let mut n: usize = self.start_known;
        if n < self.trs_known {
            n = self.trs_known;
        }
        if n < self.final_known {
            n = self.final_known;
        }
        n
    }

    fn compute_num_known_trs(&self) -> (r: usize) {
        let mut total: usize = 0;
        let ghost mut rest = self.trs_map();
        proof {
            assert(self.trs_map().dom() =~= self.trs@.dom());
        }
        let ghost mut walked: Seq<StateId> = Seq::empty();
        for k in it: self.trs.keys()
            invariant
                it.seq().unref().to_set() == self.trs@.dom(),
                walked == it.seq().unref().take(it.index() as int),
                it.index() == it.seq().len() ==> walked.to_set() == self.trs@.dom(),
                it.seq().no_duplicates(),
                self.trs_map().dom() == self.trs@.dom(),
                self.trs_map() == self.model().trs,
                rest.dom().finite(),
                total + total_trs(rest) == total_trs(self.trs_map()),
                total_trs(self.trs_map()) <= usize::MAX,
                forall|j: StateId| #[trigger]
                    rest.dom().contains(j) <==> self.trs@.contains_key(j)
                        && !walked.contains(j),
                forall|j: StateId| #[trigger]
                    rest.dom().contains(j) ==> rest[j] == self.trs_map()[j],
        {
            let ghost s = it.seq().unref();
            let ghost i = it.index() as int;
            proof {
                assert(s[i] == *k);
                assert(s.contains(*k));
                assert(s.to_set().contains(*k));
                assert(!s.take(i).contains(*k)) by {
                    if s.take(i).contains(*k) {
                        let w = choose|w: int| 0 <= w < i && s.take(i)[w] == *k;
                        assert(s[w] == s[i]);
                        assert(it.seq()[w] == it.seq()[i]);
                    }
                }
                assert(rest.dom().contains(*k));
                lemma_total_trs(rest, *k);
            }
            match self.trs.get(k) {
                Some(e) => {
                    total = total + e.trs.len();
                },
                None => {},
            }
            proof {
                walked = walked.push(*k);
                assert(walked =~= s.take(i + 1));
                if i + 1 == s.len() {
                    assert(walked =~= s);
                }
                let next = rest.remove(*k);
                assert(next.dom() =~= rest.dom().remove(*k));
                assert forall|j: StateId| #[trigger] next.dom().contains(j)
                    <==> self.trs@.contains_key(j) && !s.take(i + 1).contains(j) by {
                    lemma_take_contains(s, i, j);
                }
                rest = next;
            }
        }
        proof {
            assert(rest.dom() =~= Set::empty()) by {
                assert forall|j: StateId| !rest.dom().contains(j) by {
                    if rest.dom().contains(j) {
                        assert(walked.to_set().contains(j));
                    }
                }
            }
        }
        total
    }

    fn num_trs(&self, id: StateId) -> (r: Option<usize>) {
        match self.trs.get(&id) {
            Some(e) => Some(e.trs.len()),
            None => None,
        }
    }

    fn num_input_epsilons(&self, id: StateId) -> (r: Option<usize>) {
        match self.trs.get(&id) {
            Some(e) => Some(e.niepsilons),
            None => None,
        }
    }

    fn num_output_epsilons(&self, id: StateId) -> (r: Option<usize>) {
        match self.trs.get(&id) {
            Some(e) => Some(e.noepsilons),
            None => None,
        }
    }

    fn len_trs(&self) -> (r: usize)
        ensures
            r == self.model().trs.dom().len(),
    {
        assert(self.trs_map().dom() =~= self.trs@.dom());
        self.trs.len()
    }

    fn len_final_weights(&self) -> (r: usize)
        ensures
            r == self.model().final_weights.dom().len(),
    {
        assert(self.final_map().dom() =~= self.final_weights@.dom());
        self.final_weights.len()
    }
}

} // verus!
