//! Transitions and shared lists of them.

use crate::semirings::semiring::Semiring;
use std::sync::Arc;
use vstd::prelude::*;

verus! {

/// The name of a symbol on a transition.
pub type Label = u32;

/// The name of a state.
pub type StateId = u32;

/// The label that reads or writes nothing.
pub const EPS_LABEL: Label = 0;

/// The id that no state has.
pub const NO_STATE_ID: StateId = 0xffff_ffff;

/// A transition: an input label, an output label, a weight and a destination.
#[derive(Debug)]
pub struct Tr<W> {
    pub ilabel: Label,
    pub olabel: Label,
    pub weight: W,
    pub nextstate: StateId,
}

/// The mathematical value of a transition.
pub struct TrM<M> {
    pub ilabel: Label,
    pub olabel: Label,
    pub weight: M,
    pub nextstate: StateId,
}

impl<W: Semiring> Tr<W> {
    pub open spec fn model(&self) -> TrM<W::M> {
        TrM {
            ilabel: self.ilabel,
            olabel: self.olabel,
            weight: self.weight.model(),
            nextstate: self.nextstate,
        }
    }

    pub fn new(ilabel: Label, olabel: Label, weight: W, nextstate: StateId) -> (r: Self)
        ensures
            r.model() == (TrM { ilabel, olabel, weight: weight.model(), nextstate }),
            r.weight == weight,
    {
        Tr { ilabel, olabel, weight, nextstate }
    }

    /// A second transition of the same value.
    pub fn duplicate(&self) -> (r: Self)
        ensures
            r.model() == self.model(),
    {
        Tr {
            ilabel: self.ilabel,
            olabel: self.olabel,
            weight: self.weight.duplicate(),
            nextstate: self.nextstate,
        }
    }

    /// Whether the two transitions have the same value.
    pub fn same(&self, other: &Self) -> (b: bool)
        ensures
            b == (self.model() == other.model()),
    {
        self.ilabel == other.ilabel && self.olabel == other.olabel && self.nextstate
            == other.nextstate && self.weight.same(&other.weight)
    }
}

/// The mathematical value of a list of transitions.
pub open spec fn trs_model<W: Semiring>(trs: Seq<Tr<W>>) -> Seq<TrM<W::M>> {
    Seq::new(trs.len(), |i: int| trs[i].model())
}

/// A second list of the same value.
pub fn duplicate_trs<W: Semiring>(trs: &Vec<Tr<W>>) -> (r: Vec<Tr<W>>)
    ensures
        trs_model(r@) == trs_model(trs@),
{
    let mut r: Vec<Tr<W>> = Vec::new();
    let n: usize = trs.len();
    for i in 0..n
        invariant
            n == trs.len(),
            r.len() == i,
            forall|j: int| 0 <= j < i ==> (#[trigger] r[j]).model() == trs[j].model(),
    {
        r.push(trs[i].duplicate());
    }
    assert(trs_model(r@) =~= trs_model(trs@));
    r
}

/// Whether two lists have the same value.
pub fn same_trs<W: Semiring>(a: &Vec<Tr<W>>, b: &Vec<Tr<W>>) -> (r: bool)
    ensures
        r == (trs_model(a@) == trs_model(b@)),
{
    let n: usize = a.len();
    if n != b.len() {
        assert(trs_model(a@).len() != trs_model(b@).len());
        return false;
    }
    for i in 0..n
        invariant
            n == a.len(),
            n == b.len(),
            forall|j: int| 0 <= j < i ==> (#[trigger] a[j]).model() == b[j].model(),
    {
        if !a[i].same(&b[i]) {
            assert(trs_model(a@)[i as int] != trs_model(b@)[i as int]);
            return false;
        }
    }
    assert(trs_model(a@) =~= trs_model(b@));
    true
}

/// A list of transitions that can be shared without copying it.
#[derive(Debug)]
pub struct TrsVec<W>(pub Arc<Vec<Tr<W>>>);

impl<W: Semiring> TrsVec<W> {
    pub open spec fn model(&self) -> Seq<TrM<W::M>> {
        trs_model((*self.0)@)
    }

    /// The empty list.
    pub fn new() -> (r: Self)
        ensures
            r.model() == Seq::<TrM<W::M>>::empty(),
    {
        let r = TrsVec(Arc::new(Vec::new()));
        assert(r.model() =~= Seq::<TrM<W::M>>::empty());
        r
    }

    /// The list that holds the given transitions.
    pub fn from_vec(trs: Vec<Tr<W>>) -> (r: Self)
        ensures
            r.model() == trs_model(trs@),
    {
        TrsVec(Arc::new(trs))
    }

    /// Adds a transition at the end. Other owners of the list do not see it.
    pub fn push(&mut self, tr: Tr<W>)
        ensures
            final(self).model() == old(self).model().push(tr.model()),
    {
        let mut trs: Vec<Tr<W>> = duplicate_trs(&*self.0);
        let ghost before = trs_model(trs@);
        trs.push(tr);
        assert(trs_model(trs@) =~= before.push(tr.model()));
        self.0 = Arc::new(trs);
    }

    pub fn len(&self) -> (r: usize)
        ensures
            r == self.model().len(),
    {
        self.0.len()
    }

    /// The transitions.
    pub fn trs(&self) -> (r: &Vec<Tr<W>>)
        ensures
            trs_model(r@) == self.model(),
    {
        &*self.0
    }

    /// A second owner of the same list.
    pub fn shallow_clone(&self) -> (r: Self)
        ensures
            r.model() == self.model(),
    {
        TrsVec(self.0.clone())
    }
}

} // verus!
