//! Weighted subsets: what one state of a determinized machine stands for.

use crate::fst::tr::{Label, StateId, Tr};
use crate::fx_hasher::{fx_word, FxHasher};
use crate::semirings::semiring::Semiring;
use std::hash::Hasher;
use vstd::prelude::*;

verus! {

/// A state of the input together with the weight that is still owed on the way
/// to it.
#[derive(Debug)]
pub struct DeterminizeElement<W> {
    pub state: StateId,
    pub weight: W,
}

/// The mathematical value of an element.
pub struct ElementM<M> {
    pub state: StateId,
    pub weight: M,
}

impl<W: Semiring> DeterminizeElement<W> {
    pub open spec fn model(&self) -> ElementM<W::M> {
        ElementM { state: self.state, weight: self.weight.model() }
    }

    pub fn new(state: StateId, weight: W) -> (r: Self)
        ensures
            r.model() == (ElementM { state, weight: weight.model() }),
    {
        DeterminizeElement { state, weight }
    }

    /// A second element of the same value.
    pub fn duplicate(&self) -> (r: Self)
        ensures
            r.model() == self.model(),
    {
        DeterminizeElement { state: self.state, weight: self.weight.duplicate() }
    }
}

/// The mathematical value of a list of elements.
pub open spec fn elements_model<W: Semiring>(pairs: Seq<DeterminizeElement<W>>) -> Seq<
    ElementM<W::M>,
> {
    Seq::new(pairs.len(), |i: int| pairs[i].model())
}

/// A set of states of the input, each with a weight.
#[derive(Debug)]
pub struct WeightedSubset<W> {
    pub pairs: Vec<DeterminizeElement<W>>,
}

impl<W: Semiring> WeightedSubset<W> {
    pub open spec fn model(&self) -> Seq<ElementM<W::M>> {
        elements_model(self.pairs@)
    }

    pub fn from_vec(pairs: Vec<DeterminizeElement<W>>) -> (r: Self)
        ensures
            r.model() == elements_model(pairs@),
    {
        WeightedSubset { pairs }
    }
}

/// A weighted subset together with the state of a filter.
#[derive(Debug)]
pub struct DeterminizeStateTuple<W> {
    pub subset: WeightedSubset<W>,
    pub filter_state: StateId,
}

/// The mathematical value of a tuple.
#[verifier::ext_equal]
pub struct TupleM<M> {
    pub pairs: Seq<ElementM<M>>,
    pub filter_state: StateId,
}

/// A number that equal tuples share: the filter state and the states of the
/// subset, hashed in order.
pub open spec fn tuple_hash<M>(filter_state: StateId, pairs: Seq<ElementM<M>>) -> u64
    decreases pairs.len(),
{
    if pairs.len() == 0 {
        fx_word(0, filter_state as u64)
    } else {
        fx_word(tuple_hash(filter_state, pairs.drop_last()), pairs.last().state as u64)
    }
}

impl<W: Semiring> DeterminizeStateTuple<W> {
    pub open spec fn model(&self) -> TupleM<W::M> {
        TupleM { pairs: self.subset.model(), filter_state: self.filter_state }
    }

    /// Whether the two tuples have the same value.
    pub fn same(&self, other: &Self) -> (b: bool)
        ensures
            b == (self.model() == other.model()),
    {
        let n: usize = self.subset.pairs.len();
        if self.filter_state != other.filter_state {
            return false;
        }
        if n != other.subset.pairs.len() {
            assert(self.model().pairs.len() != other.model().pairs.len());
            return false;
        }
        for i in 0..n
            invariant
                n == self.subset.pairs.len(),
                n == other.subset.pairs.len(),
                forall|j: int|
                    0 <= j < i ==> (#[trigger] self.model().pairs[j]) == other.model().pairs[j],
        {
            let a: &DeterminizeElement<W> = &self.subset.pairs[i];
            let b: &DeterminizeElement<W> = &other.subset.pairs[i];
            proof {
                assert(self.model().pairs[i as int] == a.model());
                assert(other.model().pairs[i as int] == b.model());
            }
            if a.state != b.state || !a.weight.same(&b.weight) {
                return false;
            }
        }
        assert(self.model().pairs =~= other.model().pairs);
        true
    }

    /// A second tuple of the same value.
    pub fn duplicate(&self) -> (r: Self)
        ensures
            r.model() == self.model(),
    {
        let mut pairs: Vec<DeterminizeElement<W>> = Vec::new();
        let n: usize = self.subset.pairs.len();
        for i in 0..n
            invariant
                n == self.subset.pairs.len(),
                pairs.len() == i,
                forall|j: int|
                    0 <= j < i ==> (#[trigger] pairs[j]).model() == self.subset.pairs[j].model(),
        {
            pairs.push(self.subset.pairs[i].duplicate());
        }
        assert(elements_model(pairs@) =~= self.subset.model());
        DeterminizeStateTuple {
            subset: WeightedSubset { pairs },
            filter_state: self.filter_state,
        }
    }

    /// A number that equal tuples share.
    pub fn hash(&self) -> (r: u64)
        ensures
            r == tuple_hash(self.filter_state, self.model().pairs),
    {
        let mut hasher = FxHasher::default();
        hasher.write_u32(self.filter_state);
        let n: usize = self.subset.pairs.len();
        let ghost m = self.model().pairs;
        assert(m.take(0) =~= Seq::empty());
        for i in 0..n
            invariant
                n == self.subset.pairs.len(),
                m == self.model().pairs,
                hasher.state() == tuple_hash(self.filter_state, m.take(i as int)),
        {
            assert(m.take(i + 1).drop_last() =~= m.take(i as int));
            hasher.write_u32(self.subset.pairs[i].state);
        }
        assert(m.take(n as int) =~= m);
        hasher.finish()
    }
}

/// A transition of the determinized machine while it is being built.
#[derive(Debug)]
pub struct DeterminizeTr<W> {
    pub label: Label,
    pub weight: W,
    pub dest_tuple: DeterminizeStateTuple<W>,
}

impl<W: Semiring> DeterminizeTr<W> {
    /// A transition that reads what `tr` reads and leads nowhere yet.
    pub fn from_tr(tr: &Tr<W>, filter_state: StateId) -> (r: Self)
        ensures
            r.label == tr.ilabel,
            r.weight.model() == W::zero_model(),
            r.dest_tuple.model() == (TupleM::<W::M> { pairs: Seq::empty(), filter_state }),
    {
        let r = DeterminizeTr {
            label: tr.ilabel,
            weight: W::zero(),
            dest_tuple: DeterminizeStateTuple {
                subset: WeightedSubset { pairs: Vec::new() },
                filter_state,
            },
        };
        assert(r.dest_tuple.model().pairs =~= Seq::empty());
        r
    }
}

} // verus!
