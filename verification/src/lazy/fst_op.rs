//! The computation behind a lazy machine.

use crate::error::FstError;
use crate::fst::properties::FstProperties;
use crate::fst::tr::{StateId, TrM, TrsVec, NO_STATE_ID};
use crate::fst::vector_fst::option_model;
use crate::semirings::semiring::Semiring;
use vstd::prelude::*;

verus! {

/// Every destination is known to the operation and below the reserved id.
pub open spec fn destinations_known<W: Semiring, Op: FstOp<W>>(
    s: Op::S,
    trs: Seq<TrM<W::M>>,
) -> bool {
    forall|i: int|
        0 <= i < trs.len() ==> (#[trigger] trs[i]).nextstate < NO_STATE_ID && Op::known(
            s,
            trs[i].nextstate,
        )
}

/// An operation that computes a machine state by state.
///
/// An operation may have a state of its own that grows with what it is asked,
/// such as a table of the states it has named. `S` is that state; each request
/// is a function from it to the next one and to the answer.
pub trait FstOp<W: Semiring>: Sized {
    type S;

    /// The state of the operation.
    spec fn state(&self) -> Self::S;

    /// What holds of the representation.
    spec fn inv(&self) -> bool;

    /// What holds of a state of the operation.
    spec fn valid(s: Self::S) -> bool;

    /// Whether the operation can be asked about a state of the machine.
    spec fn known(s: Self::S, id: StateId) -> bool;

    spec fn start_model(s: Self::S) -> (Self::S, Result<Option<StateId>, FstError>);

    spec fn trs_model(s: Self::S, id: StateId) -> (Self::S, Result<Seq<TrM<W::M>>, FstError>);

    spec fn final_weight_model(s: Self::S, id: StateId) -> (
        Self::S,
        Result<Option<W::M>, FstError>,
    );

    spec fn properties_model(s: Self::S) -> FstProperties;

    /// Asking for the start state keeps what is known, and names a known state.
    proof fn lemma_start(s: Self::S)
        requires
            Self::valid(s),
        ensures
            Self::valid(Self::start_model(s).0),
            forall|id: StateId|
                Self::known(s, id) ==> #[trigger] Self::known(Self::start_model(s).0, id),
            Self::start_model(s).1 matches Ok(Some(id)) ==> id < NO_STATE_ID && Self::known(
                Self::start_model(s).0,
                id,
            ),
    ;

    /// Asking for transitions keeps what is known, and names known states.
    proof fn lemma_trs(s: Self::S, id: StateId)
        requires
            Self::valid(s),
            Self::known(s, id),
        ensures
            Self::valid(Self::trs_model(s, id).0),
            forall|other: StateId|
                Self::known(s, other) ==> #[trigger] Self::known(Self::trs_model(s, id).0, other),
            Self::trs_model(s, id).1 matches Ok(trs) ==> forall|i: int|
                0 <= i < trs.len() ==> (#[trigger] trs[i]).nextstate < NO_STATE_ID && Self::known(
                    Self::trs_model(s, id).0,
                    trs[i].nextstate,
                ),
    ;

    /// Asking for a final weight keeps what is known.
    proof fn lemma_final_weight(s: Self::S, id: StateId)
        requires
            Self::valid(s),
            Self::known(s, id),
        ensures
            Self::valid(Self::final_weight_model(s, id).0),
            forall|other: StateId|
                Self::known(s, other) ==> #[trigger] Self::known(
                    Self::final_weight_model(s, id).0,
                    other,
                ),
    ;

    fn compute_start(&mut self) -> (r: Result<Option<StateId>, FstError>)
        requires
            old(self).inv(),
            Self::valid(old(self).state()),
        ensures
            final(self).inv(),
            (final(self).state(), r) == Self::start_model(old(self).state()),
    ;

    fn compute_trs(&mut self, id: StateId) -> (r: Result<TrsVec<W>, FstError>)
        requires
            old(self).inv(),
            Self::valid(old(self).state()),
            Self::known(old(self).state(), id),
        ensures
            final(self).inv(),
            final(self).state() == Self::trs_model(old(self).state(), id).0,
            match r {
                Ok(trs) => Self::trs_model(old(self).state(), id).1 == Ok::<
                    Seq<TrM<W::M>>,
                    FstError,
                >(trs.model()),
                Err(e) => Self::trs_model(old(self).state(), id).1 == Err::<
                    Seq<TrM<W::M>>,
                    FstError,
                >(e),
            },
    ;

    fn compute_final_weight(&mut self, id: StateId) -> (r: Result<Option<W>, FstError>)
        requires
            old(self).inv(),
            Self::valid(old(self).state()),
            Self::known(old(self).state(), id),
        ensures
            final(self).inv(),
            final(self).state() == Self::final_weight_model(old(self).state(), id).0,
            match r {
                Ok(w) => Self::final_weight_model(old(self).state(), id).1 == Ok::<
                    Option<W::M>,
                    FstError,
                >(option_model(w)),
                Err(e) => Self::final_weight_model(old(self).state(), id).1 == Err::<
                    Option<W::M>,
                    FstError,
                >(e),
            },
    ;

    fn properties(&self) -> (r: FstProperties)
        requires
            self.inv(),
        ensures
            r == Self::properties_model(self.state()),
    ;
}

} // verus!
