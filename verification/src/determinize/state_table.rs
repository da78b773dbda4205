//! The states of a determinized machine and the subsets they stand for.

use crate::determinize::element::{
    tuple_hash, DeterminizeElement, DeterminizeStateTuple, ElementM, TupleM, WeightedSubset,
};
use crate::error::{DeterminizeSubsetLimitExceeded, FstError};
use crate::fst::tr::{StateId, NO_STATE_ID};
use crate::fst::vector_fst::option_model;
use crate::lazy::lazy_fst::saturating;
use crate::semirings::semiring::Semiring;
use std::collections::HashMap;
use std::sync::Arc;
use vstd::prelude::*;

verus! {

broadcast use vstd::std_specs::hash::group_hash_axioms;

/// The contents of a state table.
#[verifier::ext_equal]
pub struct TableM<M> {
    /// The tuple of each state, in the order of the ids.
    pub tuples: Seq<TupleM<M>>,
    /// The distance from each state of the input to the final states.
    pub in_dist: Option<Seq<M>>,
    /// The distance from each state to the final states, where it was computed.
    pub out_dist: Seq<Option<M>>,
    /// How many elements the tuples hold together.
    pub stored: usize,
    /// How many they may hold.
    pub max_elements: Option<usize>,
}

impl<M> TableM<M> {
    /// A table without states.
    pub open spec fn empty(in_dist: Option<Seq<M>>, max_elements: Option<usize>) -> Self {
        TableM { tuples: Seq::empty(), in_dist, out_dist: Seq::empty(), stored: 0, max_elements }
    }

    /// What holds of every table.
    pub open spec fn valid(self) -> bool {
        &&& self.tuples.no_duplicates()
        &&& self.tuples.len() <= NO_STATE_ID
        &&& self.stored == saturating(count_elements(self.tuples) as int, 0)
        &&& self.max_elements matches Some(limit) ==> self.stored <= limit
        &&& self.in_dist is None ==> self.out_dist.len() == 0
        &&& self.in_dist is Some ==> {
            &&& self.tuples.len() <= self.out_dist.len() <= self.tuples.len() + 1
            &&& forall|i: int| 0 <= i < self.tuples.len() ==> #[trigger] self.out_dist[i] is Some
            &&& self.out_dist.len() == self.tuples.len() + 1 ==> self.out_dist.last() is None
        }
    }
}

/// How many elements the tuples hold together.
pub open spec fn count_elements<M>(tuples: Seq<TupleM<M>>) -> nat
    decreases tuples.len(),
{
    if tuples.len() == 0 {
        0
    } else {
        count_elements(tuples.drop_last()) + tuples.last().pairs.len()
    }
}

/// Whether `extra` more elements would be too many.
pub open spec fn budget_model<M>(t: TableM<M>, extra: int) -> Result<(), FstError> {
    let attempted = saturating(t.stored as int, extra);
    if t.max_elements matches Some(limit) && attempted > limit {
        Err(
            FstError::SubsetBudgetExceeded(
                DeterminizeSubsetLimitExceeded {
                    limit: t.max_elements->0,
                    attempted: attempted as usize,
                },
            ),
        )
    } else {
        Ok(())
    }
}

/// The distance of a state of the input; zero where none is given.
pub open spec fn distance_of<W: Semiring>(in_dist: Seq<W::M>, state: StateId) -> W::M {
    if state < in_dist.len() {
        in_dist[state as int]
    } else {
        W::zero_model()
    }
}

/// The distance from a subset to the final states: the sum over its elements of
/// the weight times the distance.
pub open spec fn subset_distance<W: Semiring>(
    pairs: Seq<ElementM<W::M>>,
    in_dist: Seq<W::M>,
) -> Result<W::M, FstError>
    decreases pairs.len(),
{
    if pairs.len() == 0 {
        Ok(W::zero_model())
    } else {
        match subset_distance::<W>(pairs.drop_last(), in_dist) {
            Err(e) => Err(e),
            Ok(sum) => match W::times_model(
                pairs.last().weight,
                distance_of::<W>(in_dist, pairs.last().state),
            ) {
                Err(e) => Err(e),
                Ok(through) => W::plus_model(sum, through),
            },
        }
    }
}

/// The table after a new state was added for `tuple`, and its id.
pub open spec fn insert_model<W: Semiring>(
    t: TableM<W::M>,
    tuple: TupleM<W::M>,
) -> (TableM<W::M>, Result<StateId, FstError>) {
    let n = t.tuples.len();
    let grown = TableM {
        tuples: t.tuples.push(tuple),
        stored: saturating(t.stored as int, tuple.pairs.len() as int) as usize,
        ..t
    };
    match t.in_dist {
        None => (grown, Ok(n as StateId)),
        Some(in_dist) => match subset_distance::<W>(tuple.pairs, in_dist) {
            Err(e) => (TableM { out_dist: t.out_dist.take(n as int).push(None), ..t }, Err(e)),
            Ok(d) => (
                TableM { out_dist: t.out_dist.take(n as int).push(Some(d)), ..grown },
                Ok(n as StateId),
            ),
        },
    }
}

/// The state of `tuple`, which is added if it has none.
pub open spec fn find_model<W: Semiring>(
    t: TableM<W::M>,
    tuple: TupleM<W::M>,
) -> (TableM<W::M>, Result<StateId, FstError>) {
    if t.tuples.contains(tuple) {
        (t, Ok(t.tuples.index_of(tuple) as StateId))
    } else {
        match budget_model(t, tuple.pairs.len() as int) {
            Err(e) => (t, Err(e)),
            Ok(_) => if t.tuples.len() >= NO_STATE_ID {
                (t, Err(FstError::TooManyStates))
            } else {
                insert_model::<W>(t, tuple)
            },
        }
    }
}

/// Looking up a tuple keeps the table valid, keeps every state, and returns the
/// state that stands for the tuple.
pub proof fn lemma_find<W: Semiring>(t: TableM<W::M>, tuple: TupleM<W::M>)
    requires
        t.valid(),
    ensures
        ({
            let (after, r) = find_model::<W>(t, tuple);
            &&& after.valid()
            &&& after.in_dist == t.in_dist
            &&& after.max_elements == t.max_elements
            &&& t.tuples.len() <= after.tuples.len()
            &&& forall|i: int| 0 <= i < t.tuples.len() ==> #[trigger] after.tuples[i] == t.tuples[i]
            &&& r matches Ok(id) ==> id < after.tuples.len() && after.tuples[id as int] == tuple
        }),
{
    let (after, r) = find_model::<W>(t, tuple);
    if t.tuples.contains(tuple) {
        let i = t.tuples.index_of(tuple);
        assert(t.tuples[i] == tuple);
    } else if r is Ok {
        assert(after.tuples == t.tuples.push(tuple));
        assert(after.tuples.drop_last() =~= t.tuples);
        assert forall|i: int, j: int|
            0 <= i < after.tuples.len() && 0 <= j < after.tuples.len() && i
                != j implies after.tuples[i] != after.tuples[j] by {
            if i == t.tuples.len() {
                assert(t.tuples[j] != tuple);
            } else if j == t.tuples.len() {
                assert(t.tuples[i] != tuple);
            }
        }
    }
}

/// The mathematical value of a list of distances.
pub open spec fn weights_model<W: Semiring>(weights: Seq<W>) -> Seq<W::M> {
    Seq::new(weights.len(), |i: int| weights[i].model())
}

/// The mathematical value of a list of optional distances.
pub open spec fn options_model<W: Semiring>(weights: Seq<Option<W>>) -> Seq<Option<W::M>> {
    Seq::new(weights.len(), |i: int| option_model(weights[i]))
}

/// The mathematical value of a list of tuples.
pub open spec fn tuples_model<W: Semiring>(tuples: Seq<Arc<DeterminizeStateTuple<W>>>) -> Seq<
    TupleM<W::M>,
> {
    Seq::new(tuples.len(), |i: int| tuples[i].model())
}

/// Names the weighted subsets that a determinization meets.
///
/// Ids are given out in the order in which tuples are first met.
#[derive(Debug)]
pub struct DeterminizeStateTable<W> {
    id_to_tuple: Vec<Arc<DeterminizeStateTuple<W>>>,
    /// The ids of the tuples with a given hash.
    hash_to_ids: HashMap<u64, Vec<StateId>>,
    in_dist: Option<Vec<W>>,
    out_dist: Vec<Option<W>>,
    stored_subset_elements: usize,
    max_subset_elements: Option<usize>,
}

impl<W: Semiring> DeterminizeStateTable<W> {
    pub closed spec fn model(&self) -> TableM<W::M> {
        TableM {
            tuples: tuples_model(self.id_to_tuple@),
            in_dist: match self.in_dist {
                Some(d) => Some(weights_model(d@)),
                None => None,
            },
            out_dist: options_model(self.out_dist@),
            stored: self.stored_subset_elements,
            max_elements: self.max_subset_elements,
        }
    }

    /// Every tuple is found under its hash, and nothing else is.
    pub closed spec fn inv(&self) -> bool {
        &&& self.model().valid()
        &&& forall|i: int|
            0 <= i < self.model().tuples.len() ==> {
                let h = tuple_hash(
                    (#[trigger] self.model().tuples[i]).filter_state,
                    self.model().tuples[i].pairs,
                );
                self.hash_to_ids@.contains_key(h) && self.hash_to_ids@[h]@.contains(i as StateId)
            }
        &&& forall|h: u64, k: int|
            self.hash_to_ids@.contains_key(h) && 0 <= k < self.hash_to_ids@[h]@.len() ==> (
            #[trigger] self.hash_to_ids@[h]@[k]) < self.model().tuples.len()
    }

    /// What is known of the table from its invariant.
    pub proof fn lemma_inv(&self)
        requires
            self.inv(),
        ensures
            self.model().valid(),
    {
    }

    pub fn new(in_dist: Option<Vec<W>>, max_subset_elements: Option<usize>) -> (r: Self)
        ensures
            r.inv(),
            r.model() == TableM::<W::M>::empty(
                match in_dist {
                    Some(d) => Some(weights_model(d@)),
                    None => None,
                },
                max_subset_elements,
            ),
    {
        let r = DeterminizeStateTable {
            id_to_tuple: Vec::new(),
            hash_to_ids: HashMap::new(),
            in_dist,
            out_dist: Vec::new(),
            stored_subset_elements: 0,
            max_subset_elements,
        };
        assert(r.model().tuples =~= Seq::empty());
        assert(r.model().out_dist =~= Seq::empty());
        r
    }

    /// How many states there are.
    pub fn len(&self) -> (r: usize)
        ensures
            r == self.model().tuples.len(),
    {
        self.id_to_tuple.len()
    }

    /// Checks the transient elements accumulated while expanding one existing
    /// subset. The table and the expansion coexist, so both count against one
    /// budget.
    pub fn check_expansion_elements(&self, expansion_elements: usize) -> (r: Result<(), FstError>)
        ensures
            r == budget_model(self.model(), expansion_elements as int),
    {
        let attempted: usize = self.stored_subset_elements.saturating_add(expansion_elements);
        if let Some(limit) = self.max_subset_elements {
            if attempted > limit {
                return Err(
                    FstError::SubsetBudgetExceeded(
                        DeterminizeSubsetLimitExceeded { limit, attempted },
                    ),
                );
            }
        }
        Ok(())
    }

    /// The tuple of a state, shared with the table.
    pub fn find_tuple(&self, tuple_id: StateId) -> (r: Arc<DeterminizeStateTuple<W>>)
        requires
            tuple_id < self.model().tuples.len(),
        ensures
            r.model() == self.model().tuples[tuple_id as int],
    {
        self.id_to_tuple[tuple_id as usize].clone()
    }

    /// The distances, once the table is no longer needed.
    pub fn out_dist(self) -> (r: Vec<Option<W>>)
        ensures
            options_model(r@) == self.model().out_dist,
    {
        self.out_dist
    }

    fn compute_distance(&self, subset: &WeightedSubset<W>) -> (r: Result<W, FstError>)
        requires
            self.model().in_dist is Some,
        ensures
            match r {
                Ok(d) => subset_distance::<W>(subset.model(), self.model().in_dist->0) == Ok::<
                    W::M,
                    FstError,
                >(d.model()),
                Err(e) => subset_distance::<W>(subset.model(), self.model().in_dist->0) == Err::<
                    W::M,
                    FstError,
                >(e),
            },
    {
        let ghost m = subset.model();
        let ghost dist = self.model().in_dist->0;
        let mut outd: W = W::zero();
        let weight_zero: W = W::zero();
        let n: usize = subset.pairs.len();
        assert(m.take(0) =~= Seq::empty());
        for i in 0..n
            invariant
                n == subset.pairs.len(),
                m == subset.model(),
                self.model().in_dist == Some(dist),
                weight_zero.model() == W::zero_model(),
                subset_distance::<W>(m.take(i as int), dist) == Ok::<W::M, FstError>(
                    outd.model(),
                ),
        {
            let element: &DeterminizeElement<W> = &subset.pairs[i];
            proof {
                assert(m[i as int] == element.model());
                assert(m.take(i + 1).drop_last() =~= m.take(i as int));
                lemma_distance_fails::<W>(m, dist, i + 1);
            }
            let ind: &W = match &self.in_dist {
                Some(d) => if (element.state as usize) < d.len() {
                    &d[element.state as usize]
                } else {
                    &weight_zero
                },
                None => &weight_zero,
            };
            assert(ind.model() == distance_of::<W>(dist, element.state));
            let through: W = match element.weight.times(ind) {
                Ok(w) => w,
                Err(e) => {
                    return Err(e);
                },
            };
            outd = match outd.plus(&through) {
                Ok(w) => w,
                Err(e) => {
                    return Err(e);
                },
            };
        }
        assert(m.take(n as int) =~= m);
        Ok(outd)
    }

    fn find_in_bucket(&self, tuple: &DeterminizeStateTuple<W>) -> (r: Option<StateId>)
        requires
            self.inv(),
        ensures
            match r {
                Some(id) => id < self.model().tuples.len() && self.model().tuples[id as int]
                    == tuple.model(),
                None => !self.model().tuples.contains(tuple.model()),
            },
    {
        let h: u64 = tuple.hash();
        match self.hash_to_ids.get(&h) {
            None => {
                proof {
                    if self.model().tuples.contains(tuple.model()) {
                        let i = self.model().tuples.index_of(tuple.model());
                        assert(self.model().tuples[i] == tuple.model());
                    }
                }
                None
            },
            Some(ids) => {
                let n: usize = ids.len();
                for k in 0..n
                    invariant
                        self.inv(),
                        self.hash_to_ids@.contains_key(h),
                        *ids == self.hash_to_ids@[h],
                        n == ids.len(),
                        forall|j: int|
                            0 <= j < k ==> self.model().tuples[(#[trigger] ids@[j]) as int]
                                != tuple.model(),
                {
                    let id: StateId = ids[k];
                    assert(self.hash_to_ids@[h]@[k as int] < self.model().tuples.len());
                    if self.id_to_tuple[id as usize].same(tuple) {
                        return Some(id);
                    }
                }
                proof {
                    if self.model().tuples.contains(tuple.model()) {
                        let i = self.model().tuples.index_of(tuple.model());
                        assert(self.model().tuples[i] == tuple.model());
                        assert(ids@.contains(i as StateId));
                        let j = choose|j: int| 0 <= j < ids@.len() && ids@[j] == i as StateId;
                        assert(self.model().tuples[ids@[j] as int] != tuple.model());
                    }
                }
                None
            },
        }
    }

    /// The id of a tuple, which is added if it has none.
    pub fn find_id_from_ref(&mut self, tuple: &DeterminizeStateTuple<W>) -> (r: Result<
        StateId,
        FstError,
    >)
        requires
            old(self).inv(),
        ensures
            final(self).inv(),
            (final(self).model(), r) == find_model::<W>(old(self).model(), tuple.model()),
    {
        let ghost before = self.model();
        proof {
            lemma_find::<W>(before, tuple.model());
        }
        if let Some(id) = self.find_in_bucket(tuple) {
            proof {
                assert(before.tuples.contains(tuple.model()));
                let i = before.tuples.index_of(tuple.model());
                assert(before.tuples[i] == tuple.model());
                assert(i == id);
            }
            return Ok(id);
        }
        let attempted: usize = self.stored_subset_elements.saturating_add(
            tuple.subset.pairs.len(),
        );
        if let Some(limit) = self.max_subset_elements {
            if attempted > limit {
                return Err(
                    FstError::SubsetBudgetExceeded(
                        DeterminizeSubsetLimitExceeded { limit, attempted },
                    ),
                );
            }
        }
        let n: usize = self.id_to_tuple.len();
        if n >= NO_STATE_ID as usize {
            return Err(FstError::TooManyStates);
        }
        if self.in_dist.is_some() {
            if n >= self.out_dist.len() {
                self.out_dist.push(None);
            }
            proof {
                assert(self.model().out_dist =~= before.out_dist.take(n as int).push(None));
                assert(self.model() == TableM { out_dist: self.model().out_dist, ..before });
                assert(self.model().valid());
            }
            let d: W = match self.compute_distance(&tuple.subset) {
                Ok(d) => d,
                Err(e) => {
                    return Err(e);
                },
            };
            self.out_dist.set(n, Some(d));
            assert(self.model().out_dist =~= before.out_dist.take(n as int).push(
                Some(d.model()),
            ));
        }
        let h: u64 = tuple.hash();
        let shared: Arc<DeterminizeStateTuple<W>> = Arc::new(tuple.duplicate());
        let ghost ids_before = self.hash_to_ids@;
        let mut bucket: Vec<StateId> = match self.hash_to_ids.remove(&h) {
            Some(ids) => ids,
            None => Vec::new(),
        };
        let ghost bucket_before = bucket@;
        bucket.push(n as StateId);
        self.hash_to_ids.insert(h, bucket);
        self.id_to_tuple.push(shared);
        self.stored_subset_elements = attempted;
        proof {
            let after = self.model();
            assert(after.tuples =~= before.tuples.push(tuple.model()));
            assert(after == find_model::<W>(before, tuple.model()).0);
            assert forall|i: int| 0 <= i < after.tuples.len() implies {
                let h = tuple_hash(
                    (#[trigger] after.tuples[i]).filter_state,
                    after.tuples[i].pairs,
                );
                self.hash_to_ids@.contains_key(h) && self.hash_to_ids@[h]@.contains(i as StateId)
            } by {
                let g = tuple_hash(after.tuples[i].filter_state, after.tuples[i].pairs);
                if i == n {
                    assert(bucket@[bucket_before.len() as int] == n as StateId);
                } else {
                    assert(after.tuples[i] == before.tuples[i]);
                    assert(ids_before[g]@.contains(i as StateId));
                    if g == h {
                        let j = choose|j: int|
                            0 <= j < ids_before[g]@.len() && ids_before[g]@[j] == i as StateId;
                        assert(bucket@[j] == i as StateId);
                    }
                }
            }
            assert forall|g: u64, k: int|
                self.hash_to_ids@.contains_key(g) && 0 <= k < self.hash_to_ids@[g]@.len() implies (
            #[trigger] self.hash_to_ids@[g]@[k]) < after.tuples.len() by {
                if g == h {
                    if k < bucket_before.len() {
                        assert(ids_before.contains_key(h));
                        assert(ids_before[h]@[k] < before.tuples.len());
                    }
                } else {
                    assert(ids_before[g]@[k] < before.tuples.len());
                }
            }
        }
        Ok(n as StateId)
    }
}

/// Once a prefix cannot be summed, the whole cannot either, for the same reason.
proof fn lemma_distance_fails<W: Semiring>(
    pairs: Seq<ElementM<W::M>>,
    in_dist: Seq<W::M>,
    i: int,
)
    requires
        0 <= i <= pairs.len(),
    ensures
        subset_distance::<W>(pairs.take(i), in_dist) matches Err(e) ==> subset_distance::<W>(
            pairs,
            in_dist,
        ) == Err::<W::M, FstError>(e),
    decreases pairs.len() - i,
{
    if i < pairs.len() {
        assert(pairs.take(i + 1).drop_last() =~= pairs.take(i));
        lemma_distance_fails::<W>(pairs, in_dist, i + 1);
    } else {
        assert(pairs.take(i) =~= pairs);
    }
}

} // verus!
