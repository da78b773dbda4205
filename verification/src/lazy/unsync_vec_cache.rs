//! A cache backed by vectors.

use crate::fst::tr::{StateId, TrM, TrsVec};
use crate::fst::vector_fst::{duplicate_option, option_model};
use crate::lazy::cache::{
    lemma_total_trs, max_int, total_trs, CacheM, CacheStatus, CacheTrs, FstCache,
};
use crate::semirings::semiring::Semiring;
use vstd::prelude::*;

verus! {

/// A cache that keeps everything in vectors indexed by state id.
///
/// For machines whose ids are dense; meant for a single thread.
#[derive(Debug)]
pub struct UnsyncVecCache<W> {
    start: CacheStatus<Option<StateId>>,
    start_known: usize,
    trs: Vec<CacheStatus<CacheTrs<W>>>,
    trs_known: usize,
    final_weights: Vec<CacheStatus<Option<W>>>,
    final_known: usize,
}

/// The lists among the first `n` places.
spec fn filled_trs<W: Semiring>(trs: Seq<CacheStatus<CacheTrs<W>>>, n: int) -> Map<
    StateId,
    Seq<TrM<W::M>>,
> {
    Map::new(
        |k: StateId| k < n && k < trs.len() && trs[k as int] is Computed,
        |k: StateId| trs[k as int]->Computed_0.trs.model(),
    )
}

proof fn lemma_filled_trs<W: Semiring>(trs: Seq<CacheStatus<CacheTrs<W>>>, n: int)
    requires
        0 <= n < trs.len(),
        n <= u32::MAX,
        filled_trs(trs, n).dom().finite(),
    ensures
        filled_trs(trs, n + 1).dom().finite(),
        total_trs(filled_trs(trs, n + 1)) == total_trs(filled_trs(trs, n)) + (match trs[n] {
            CacheStatus::Computed(e) => e.trs.model().len(),
            CacheStatus::NotComputed => 0,
        }),
{
    let k = n as StateId;
    let small = filled_trs(trs, n);
    let large = filled_trs(trs, n + 1);
    match trs[n] {
        CacheStatus::Computed(e) => {
            assert(large =~= small.insert(k, e.trs.model()));
            assert(large.dom() =~= small.dom().insert(k));
            lemma_total_trs(large, k);
            assert(large.remove(k) =~= small);
        },
        CacheStatus::NotComputed => {
            assert(large =~= small);
        },
    }
}

/// No place past the last state id is in use.
spec fn all_ids<T>(places: Seq<T>) -> bool {
    places.len() <= u32::MAX + 1
}

impl<W: Semiring> UnsyncVecCache<W> {
    closed spec fn trs_map(&self) -> Map<StateId, Seq<TrM<W::M>>> {
        filled_trs(self.trs@, self.trs@.len() as int)
    }

    closed spec fn final_map(&self) -> Map<StateId, Option<W::M>> {
        Map::new(
            |k: StateId|
                k < self.final_weights@.len() && self.final_weights@[k as int] is Computed,
            |k: StateId| option_model(self.final_weights@[k as int]->Computed_0),
        )
    }
}

impl<W: Semiring> Default for UnsyncVecCache<W> {
    fn default() -> (r: Self)
        ensures
            r.inv(),
            r.model() == CacheM::<W::M>::empty(),
            r.trs_places() == 0,
            r.final_weight_places() == 0,
    {
        let r = UnsyncVecCache {
            start: CacheStatus::NotComputed,
            start_known: 0,
            trs: Vec::new(),
            trs_known: 0,
            final_weights: Vec::new(),
            final_known: 0,
        };
        assert(r.trs_map() =~= Map::empty());
        assert(r.final_map() =~= Map::empty());
        r
    }
}

impl<W: Semiring> Clone for UnsyncVecCache<W> {
    fn clone(&self) -> (r: Self)
        ensures
            self.inv() ==> r.inv(),
            r.model() == self.model(),
            r.trs_places() == self.trs_places(),
            r.final_weight_places() == self.final_weight_places(),
    {
        let mut trs: Vec<CacheStatus<CacheTrs<W>>> = Vec::new();
        let n: usize = self.trs.len();
        for i in 0..n
            invariant
                n == self.trs.len(),
                trs.len() == i,
                forall|j: int|
                    0 <= j < i ==> match (#[trigger] trs[j], self.trs[j]) {
                        (CacheStatus::Computed(a), CacheStatus::Computed(b)) => a.niepsilons
                            == b.niepsilons && a.noepsilons == b.noepsilons && a.trs.model()
                            == b.trs.model(),
                        (CacheStatus::NotComputed, CacheStatus::NotComputed) => true,
                        _ => false,
                    },
        {
            match &self.trs[i] {
                CacheStatus::Computed(e) => trs.push(
                    CacheStatus::Computed(
                        CacheTrs {
                            trs: e.trs.shallow_clone(),
                            niepsilons: e.niepsilons,
                            noepsilons: e.noepsilons,
                        },
                    ),
                ),
                CacheStatus::NotComputed => trs.push(CacheStatus::NotComputed),
            }
        }
        let mut final_weights: Vec<CacheStatus<Option<W>>> = Vec::new();
        let m: usize = self.final_weights.len();
        for i in 0..m
            invariant
                m == self.final_weights.len(),
                final_weights.len() == i,
                forall|j: int|
                    0 <= j < i ==> match (#[trigger] final_weights[j], self.final_weights[j]) {
                        (CacheStatus::Computed(a), CacheStatus::Computed(b)) => option_model(a)
                            == option_model(b),
                        (CacheStatus::NotComputed, CacheStatus::NotComputed) => true,
                        _ => false,
                    },
        {
            match &self.final_weights[i] {
                CacheStatus::Computed(w) => final_weights.push(
                    CacheStatus::Computed(duplicate_option(w)),
                ),
                CacheStatus::NotComputed => final_weights.push(CacheStatus::NotComputed),
            }
        }
        let r = UnsyncVecCache {
            start: self.start,
            start_known: self.start_known,
            trs,
            trs_known: self.trs_known,
            final_weights,
            final_known: self.final_known,
        };
        assert(r.trs_map() =~= self.trs_map());
        assert(r.final_map() =~= self.final_map());
        r
    }
}

impl<W: Semiring> FstCache<W> for UnsyncVecCache<W> {
    closed spec fn model(&self) -> CacheM<W::M> {
        CacheM {
            start: self.start,
            trs: self.trs_map(),
            final_weights: self.final_map(),
            known_states: max_int(
                self.start_known as int,
                max_int(self.trs_known as int, self.final_known as int),
            ),
        }
    }

    open spec fn keeps() -> bool {
        true
    }

    closed spec fn inv(&self) -> bool {
        &&& all_ids(self.trs@)
        &&& forall|i: int|
            0 <= i < self.trs@.len() ==> (#[trigger] self.trs@[i] matches CacheStatus::Computed(e)
                ==> e.inv())
    }

    closed spec fn trs_places(&self) -> nat {
        self.trs@.len()
    }

    closed spec fn final_weight_places(&self) -> nat {
        self.final_weights@.len()
    }

    fn get_start(&self) -> (r: CacheStatus<Option<StateId>>) {
        self.start
    }

    fn insert_start(&mut self, id: Option<StateId>) {
        if let Some(s) = id {
            let reach: usize = s as usize + 1;
            if self.start_known < reach {
                self.start_known = reach;
            }
        }
        self.start = CacheStatus::Computed(id);
        assert(self.trs_map() =~= old(self).trs_map());
        assert(self.final_map() =~= old(self).final_map());
    }

    fn get_trs(&self, id: StateId) -> (r: CacheStatus<TrsVec<W>>) {
        let i: usize = id as usize;
        if i >= self.trs.len() {
            return CacheStatus::NotComputed;
        }
        match &self.trs[i] {
            CacheStatus::Computed(e) => CacheStatus::Computed(e.trs.shallow_clone()),
            CacheStatus::NotComputed => CacheStatus::NotComputed,
        }
    }

    fn insert_trs(&mut self, id: StateId, trs: TrsVec<W>)
        ensures
            final(self).trs_places() == max_int(old(self).trs_places() as int, id + 1),
    {
        let ghost m = trs.model();
        let ghost before = self.trs@;
        let i: usize = id as usize;
        let (entry, known) = CacheTrs::scan(trs, self.trs_known);
        self.trs_known = known;
        while i >= self.trs.len()
            invariant
                i < usize::MAX,
                i <= u32::MAX,
                self.trs@.len() >= before.len(),
                self.trs@.len() <= max_int(before.len() as int, i + 1),
                forall|j: int| 0 <= j < before.len() ==> #[trigger] self.trs@[j] == before[j],
                forall|j: int|
                    before.len() <= j < self.trs@.len() ==> #[trigger] self.trs@[j] is NotComputed,
                self.final_weights == old(self).final_weights,
                self.trs_known == known,
                self.start == old(self).start,
                self.start_known == old(self).start_known,
                self.final_known == old(self).final_known,
            decreases i + 1 - self.trs@.len(),
        {
            self.trs.push(CacheStatus::NotComputed);
        }
        self.trs[i] = CacheStatus::Computed(entry);
        assert(self.trs_map() =~= old(self).trs_map().insert(id, m));
        assert(self.final_map() =~= old(self).final_map());
    }

    fn get_final_weight(&self, id: StateId) -> (r: CacheStatus<Option<W>>) {
        let i: usize = id as usize;
        if i >= self.final_weights.len() {
            return CacheStatus::NotComputed;
        }
        match &self.final_weights[i] {
            CacheStatus::Computed(w) => CacheStatus::Computed(duplicate_option(w)),
            CacheStatus::NotComputed => CacheStatus::NotComputed,
        }
    }

    fn insert_final_weight(&mut self, id: StateId, weight: Option<W>)
        ensures
            final(self).final_weight_places() == max_int(
                old(self).final_weight_places() as int,
                id + 1,
            ),
    {
        let ghost m = option_model(weight);
        let ghost before = self.final_weights@;
        let i: usize = id as usize;
        let reach: usize = i + 1;
        if self.final_known < reach {
            self.final_known = reach;
        }
        let ghost known = self.final_known;
        while i >= self.final_weights.len()
            invariant
                i < usize::MAX,
                self.final_weights@.len() >= before.len(),
                self.final_weights@.len() <= max_int(before.len() as int, i + 1),
                forall|j: int|
                    0 <= j < before.len() ==> #[trigger] self.final_weights@[j] == before[j],
                forall|j: int|
                    before.len() <= j < self.final_weights@.len()
                        ==> #[trigger] self.final_weights@[j] is NotComputed,
                self.trs == old(self).trs,
                self.trs_known == old(self).trs_known,
                self.start == old(self).start,
                self.start_known == old(self).start_known,
                self.final_known == known,
            decreases i + 1 - self.final_weights@.len(),
        {
            self.final_weights.push(CacheStatus::NotComputed);
        }
        self.final_weights[i] = CacheStatus::Computed(weight);
        assert(self.final_map() =~= old(self).final_map().insert(id, m));
        assert(self.trs_map() =~= old(self).trs_map());
    }

    fn num_known_states(&self) -> (r: usize) {
        let mut n: usize = self.start_known;
        if n < self.trs_known {
            n = self.trs_known;
        }
        if n < self.final_known {
            n = self.final_known;
        }
        n
    }

    fn compute_num_known_trs(&self) -> (r: usize) {
        let mut total: usize = 0;
        let n: usize = self.trs.len();
        proof {
            assert(filled_trs(self.trs@, 0) =~= Map::empty());
        }
        for i in 0..n
            invariant
                n == self.trs@.len(),
                n <= u32::MAX + 1,
                filled_trs(self.trs@, i as int).dom().finite(),
                total == total_trs(filled_trs(self.trs@, i as int)),
                total_trs(filled_trs(self.trs@, n as int)) <= usize::MAX,
        {
            proof {
                lemma_filled_trs(self.trs@, i as int);
                lemma_filled_bound(self.trs@, i as int + 1, n as int);
            }
            match &self.trs[i] {
                CacheStatus::Computed(e) => {
                    total = total + e.trs.len();
                },
                CacheStatus::NotComputed => {},
            }
        }
        total
    }

    fn num_trs(&self, id: StateId) -> (r: Option<usize>) {
        let i: usize = id as usize;
        if i >= self.trs.len() {
            return None;
        }
        match &self.trs[i] {
            CacheStatus::Computed(e) => Some(e.trs.len()),
            CacheStatus::NotComputed => None,
        }
    }

    fn num_input_epsilons(&self, id: StateId) -> (r: Option<usize>) {
        let i: usize = id as usize;
        if i >= self.trs.len() {
            return None;
        }
        match &self.trs[i] {
            CacheStatus::Computed(e) => Some(e.niepsilons),
            CacheStatus::NotComputed => None,
        }
    }

    fn num_output_epsilons(&self, id: StateId) -> (r: Option<usize>) {
        let i: usize = id as usize;
        if i >= self.trs.len() {
            return None;
        }
        match &self.trs[i] {
            CacheStatus::Computed(e) => Some(e.noepsilons),
            CacheStatus::NotComputed => None,
        }
    }

    fn len_trs(&self) -> (r: usize) {
        self.trs.len()
    }

    fn len_final_weights(&self) -> (r: usize) {
        self.final_weights.len()
    }
}

proof fn lemma_filled_bound<W: Semiring>(trs: Seq<CacheStatus<CacheTrs<W>>>, i: int, n: int)
    requires
        0 <= i <= n <= trs.len(),
        n <= u32::MAX + 1,
        filled_trs(trs, i).dom().finite(),
    ensures
        total_trs(filled_trs(trs, i)) <= total_trs(filled_trs(trs, n)),
    decreases n - i,
{
    if i < n {
        lemma_filled_trs(trs, i);
        lemma_filled_bound(trs, i + 1, n);
    }
}

} // verus!
