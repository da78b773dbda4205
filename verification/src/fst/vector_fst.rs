//! A machine that can be built up state by state.

use crate::error::FstError;
use crate::fst::properties::{
    FstProperties, TrShape, ADD_STATE_KEEPS, DELETE_STATES_KEEPS, DELETE_TRS_KEEPS,
    NULL_PROPERTIES,
};
use crate::fst::symbol_table::SymbolTable;
use crate::fst::tr::{same_trs, trs_model, StateId, Tr, TrM, NO_STATE_ID};
use crate::semirings::semiring::Semiring;
use std::sync::Arc;
use vstd::prelude::*;

verus! {

/// A state: its final weight, if it is final, and its transitions.
#[derive(Debug)]
pub struct VectorFstState<W> {
    final_weight: Option<W>,
    trs: Vec<Tr<W>>,
}

/// The mathematical value of a state.
pub struct StateM<M> {
    pub final_weight: Option<M>,
    pub trs: Seq<TrM<M>>,
}

impl<M> StateM<M> {
    /// A state that is not final and has no transitions.
    pub open spec fn fresh() -> Self {
        StateM { final_weight: None, trs: Seq::empty() }
    }
}

/// The mathematical value of a machine.
pub struct FstM<M> {
    pub start: Option<StateId>,
    pub states: Seq<StateM<M>>,
    pub properties: FstProperties,
    pub isymt: Option<Arc<SymbolTable>>,
    pub osymt: Option<Arc<SymbolTable>>,
}

impl<M> FstM<M> {
    /// A machine without states.
    pub open spec fn empty() -> Self {
        FstM {
            start: None,
            states: Seq::empty(),
            properties: FstProperties { bits: NULL_PROPERTIES },
            isymt: None,
            osymt: None,
        }
    }

    /// Whether the state exists.
    pub open spec fn has_state(self, s: StateId) -> bool {
        s < self.states.len()
    }

    /// The machine with `n` more states.
    pub open spec fn with_states(self, n: nat) -> Self {
        FstM {
            states: self.states + Seq::new(n, |i: int| StateM::<M>::fresh()),
            properties: if n == 0 {
                self.properties
            } else {
                self.properties.mask_model(ADD_STATE_KEEPS)
            },
            ..self
        }
    }

    /// The machine with another start state.
    pub open spec fn with_start(self, s: StateId) -> Self {
        FstM { start: Some(s), properties: self.properties.set_start_model(), ..self }
    }

    /// The machine with other transitions at `s`.
    pub open spec fn with_trs(self, s: StateId, trs: Seq<TrM<M>>) -> Self {
        FstM {
            states: self.states.update(s as int, StateM { trs, ..self.states[s as int] }),
            properties: FstProperties { bits: 0 },
            ..self
        }
    }

    /// The machine with other known properties.
    pub open spec fn with_properties(self, properties: FstProperties) -> Self {
        FstM { properties, ..self }
    }
}

/// Whether a final weight is there and neither zero nor one.
pub open spec fn weighted_model<W: Semiring>(w: Option<W::M>) -> bool {
    w matches Some(v) && v != W::zero_model() && v != W::one_model()
}

/// The machine with another final weight at `s`.
pub open spec fn with_final<W: Semiring>(fst: FstM<W::M>, s: StateId, w: Option<W::M>) -> FstM<
    W::M,
> {
    FstM {
        states: fst.states.update(
            s as int,
            StateM { final_weight: w, ..fst.states[s as int] },
        ),
        properties: fst.properties.set_final_model(
            weighted_model::<W>(fst.states[s as int].final_weight),
            weighted_model::<W>(w),
        ),
        ..fst
    }
}

/// What of a new transition at `s` the known properties depend on.
pub open spec fn tr_shape<W: Semiring>(fst: FstM<W::M>, s: StateId, tr: TrM<W::M>) -> TrShape {
    let trs = fst.states[s as int].trs;
    TrShape {
        ilabel: tr.ilabel,
        olabel: tr.olabel,
        weighted: tr.weight != W::zero_model() && tr.weight != W::one_model(),
        backward: tr.nextstate <= s,
        previous: if trs.len() == 0 {
            None
        } else {
            Some((trs.last().ilabel, trs.last().olabel))
        },
    }
}

/// The machine with one more transition at `s`.
pub open spec fn with_tr<W: Semiring>(fst: FstM<W::M>, s: StateId, tr: TrM<W::M>) -> FstM<W::M> {
    FstM {
        states: fst.states.update(
            s as int,
            StateM { trs: fst.states[s as int].trs.push(tr), ..fst.states[s as int] },
        ),
        properties: fst.properties.add_tr_model(tr_shape::<W>(fst, s, tr)),
        ..fst
    }
}

impl<W: Semiring> VectorFstState<W> {
    pub closed spec fn model(&self) -> StateM<W::M> {
        StateM {
            final_weight: option_model(self.final_weight),
            trs: trs_model(self.trs@),
        }
    }

    fn fresh() -> (r: Self)
        ensures
            r.model() == StateM::<W::M>::fresh(),
    {
        let r = VectorFstState { final_weight: None, trs: Vec::new() };
        assert(r.model().trs =~= Seq::empty());
        r
    }
}

/// The mathematical value of an optional weight.
pub open spec fn option_model<W: Semiring>(w: Option<W>) -> Option<W::M> {
    match w {
        Some(v) => Some(v.model()),
        None => None,
    }
}

/// A second optional weight of the same value.
pub fn duplicate_option<W: Semiring>(w: &Option<W>) -> (r: Option<W>)
    ensures
        option_model(r) == option_model(*w),
{
    match w {
        Some(v) => Some(v.duplicate()),
        None => None,
    }
}

/// Whether two optional weights have the same value.
pub fn same_option<W: Semiring>(a: &Option<W>, b: &Option<W>) -> (r: bool)
    ensures
        r == (option_model(*a) == option_model(*b)),
{
    match (a, b) {
        (Some(x), Some(y)) => x.same(y),
        (None, None) => true,
        _ => false,
    }
}

/// A machine whose states are kept in a vector.
#[derive(Debug)]
pub struct VectorFst<W> {
    start: Option<StateId>,
    states: Vec<VectorFstState<W>>,
    properties: FstProperties,
    isymt: Option<Arc<SymbolTable>>,
    osymt: Option<Arc<SymbolTable>>,
}

impl<W: Semiring> VectorFst<W> {
    pub closed spec fn model(&self) -> FstM<W::M> {
        FstM {
            start: self.start,
            states: Seq::new(self.states@.len(), |i: int| self.states@[i].model()),
            properties: self.properties,
            isymt: self.isymt,
            osymt: self.osymt,
        }
    }

    /// A machine without states.
    pub fn new() -> (r: Self)
        ensures
            r.model() == FstM::<W::M>::empty(),
    {
        let r = VectorFst {
            start: None,
            states: Vec::new(),
            properties: FstProperties::null(),
            isymt: None,
            osymt: None,
        };
        assert(r.model().states =~= Seq::empty());
        r
    }

    pub fn num_states(&self) -> (r: usize)
        ensures
            r == self.model().states.len(),
    {
        self.states.len()
    }

    pub fn start(&self) -> (r: Option<StateId>)
        ensures
            r == self.model().start,
    {
        self.start
    }

    pub fn properties(&self) -> (r: FstProperties)
        ensures
            r == self.model().properties,
    {
        self.properties
    }

    pub fn set_properties(&mut self, properties: FstProperties)
        ensures
            final(self).model() == old(self).model().with_properties(properties),
    {
        self.properties = properties;
        assert(self.model().states =~= old(self).model().states);
    }

    pub fn input_symbols(&self) -> (r: Option<&Arc<SymbolTable>>)
        ensures
            r == (match self.model().isymt {
                Some(t) => Some(&t),
                None => None,
            }),
    {
        self.isymt.as_ref()
    }

    pub fn output_symbols(&self) -> (r: Option<&Arc<SymbolTable>>)
        ensures
            r == (match self.model().osymt {
                Some(t) => Some(&t),
                None => None,
            }),
    {
        self.osymt.as_ref()
    }

    pub fn set_input_symbols(&mut self, symt: Arc<SymbolTable>)
        ensures
            final(self).model() == (FstM { isymt: Some(symt), ..old(self).model() }),
    {
        self.isymt = Some(symt);
        assert(self.model().states =~= old(self).model().states);
    }

    pub fn set_output_symbols(&mut self, symt: Arc<SymbolTable>)
        ensures
            final(self).model() == (FstM { osymt: Some(symt), ..old(self).model() }),
    {
        self.osymt = Some(symt);
        assert(self.model().states =~= old(self).model().states);
    }

    /// Takes over the symbol tables that `other` has. A table that `other` lacks
    /// is left as it is.
    pub fn set_symts_from_fst<W2: Semiring>(&mut self, other: &VectorFst<W2>)
        ensures
            final(self).model() == (FstM {
                isymt: if other.model().isymt is Some {
                    other.model().isymt
                } else {
                    old(self).model().isymt
                },
                osymt: if other.model().osymt is Some {
                    other.model().osymt
                } else {
                    old(self).model().osymt
                },
                ..old(self).model()
            }),
    {
        if let Some(symt) = &other.isymt {
            self.isymt = Some(symt.clone());
        }
        if let Some(symt) = &other.osymt {
            self.osymt = Some(symt.clone());
        }
        assert(self.model().states =~= old(self).model().states);
    }

    /// Adds a state and returns its id.
    pub fn add_state(&mut self) -> (r: StateId)
        requires
            old(self).model().states.len() < NO_STATE_ID,
        ensures
            r == old(self).model().states.len(),
            final(self).model() == old(self).model().with_states(1),
    {
        let id: StateId = self.states.len() as StateId;
        self.states.push(VectorFstState::fresh());
        self.properties = self.properties.mask(ADD_STATE_KEEPS);
        assert(self.model().states =~= old(self).model().with_states(1).states);
        id
    }

    /// Adds `n` states.
    pub fn add_states(&mut self, n: usize)
        ensures
            final(self).model() == old(self).model().with_states(n as nat),
    {
        let ghost before = self.model();
        let mut i: usize = 0;
        assert(self.model().states =~= before.with_states(0).states);
        while i < n
            invariant
                i <= n,
                self.model().states == before.with_states(i as nat).states,
                self.model().start == before.start,
                self.model().properties == before.properties,
                self.model().isymt == before.isymt,
                self.model().osymt == before.osymt,
            decreases n - i,
        {
            let ghost prev = self.model();
            self.states.push(VectorFstState::fresh());
            i += 1;
            assert(self.model().states =~= before.with_states(i as nat).states) by {
                assert(self.model().states =~= prev.states.push(StateM::<W::M>::fresh()));
            }
        }
        if n > 0 {
            self.properties = self.properties.mask(ADD_STATE_KEEPS);
            assert(self.model().states =~= before.with_states(n as nat).states);
        }
    }

    /// Makes `s` the start state.
    pub fn set_start(&mut self, s: StateId) -> (r: Result<(), FstError>)
        ensures
            old(self).model().has_state(s) ==> r == Ok::<(), FstError>(()) && final(self).model()
                == old(self).model().with_start(s),
            !old(self).model().has_state(s) ==> r == Err::<(), FstError>(
                FstError::StateNotFound { state: s },
            ) && final(self).model() == old(self).model(),
    {
        if s as usize >= self.states.len() {
            return Err(FstError::StateNotFound { state: s });
        }
        self.start = Some(s);
        self.properties = self.properties.set_start();
        assert(self.model().states =~= old(self).model().states);
        Ok(())
    }

    /// The final weight of `s`; `None` if it is not final.
    pub fn final_weight(&self, s: StateId) -> (r: Result<Option<W>, FstError>)
        ensures
            match r {
                Ok(w) => self.model().has_state(s) && option_model(w)
                    == self.model().states[s as int].final_weight,
                Err(e) => !self.model().has_state(s) && e == (FstError::StateNotFound { state: s }),
            },
    {
        if s as usize >= self.states.len() {
            return Err(FstError::StateNotFound { state: s });
        }
        Ok(duplicate_option(&self.states[s as usize].final_weight))
    }

    fn is_weighted(w: &Option<W>) -> (b: bool)
        ensures
            b == weighted_model::<W>(option_model(*w)),
    {
        match w {
            Some(v) => !v.is_zero() && !v.is_one(),
            None => false,
        }
    }

    fn replace_final(&mut self, s: StateId, w: Option<W>)
        requires
            old(self).model().has_state(s),
        ensures
            final(self).model() == with_final::<W>(old(self).model(), s, option_model(w)),
    {
        let ghost before = self.model();
        let i: usize = s as usize;
        let old_weighted: bool = Self::is_weighted(&self.states[i].final_weight);
        let new_weighted: bool = Self::is_weighted(&w);
        let properties = self.properties.set_final(old_weighted, new_weighted);
        self.states[i].final_weight = w;
        self.properties = properties;
        assert(self.model().states =~= with_final::<W>(before, s, option_model(w)).states);
    }

    /// Makes `s` final with the given weight.
    pub fn set_final(&mut self, s: StateId, w: W) -> (r: Result<(), FstError>)
        ensures
            old(self).model().has_state(s) ==> r == Ok::<(), FstError>(()) && final(self).model()
                == with_final::<W>(old(self).model(), s, Some(w.model())),
            !old(self).model().has_state(s) ==> r == Err::<(), FstError>(
                FstError::StateNotFound { state: s },
            ) && final(self).model() == old(self).model(),
    {
        if s as usize >= self.states.len() {
            return Err(FstError::StateNotFound { state: s });
        }
        self.replace_final(s, Some(w));
        Ok(())
    }

    /// Makes `s` a state that is not final.
    pub fn delete_final_weight(&mut self, s: StateId) -> (r: Result<(), FstError>)
        ensures
            old(self).model().has_state(s) ==> r == Ok::<(), FstError>(()) && final(self).model()
                == with_final::<W>(old(self).model(), s, None),
            !old(self).model().has_state(s) ==> r == Err::<(), FstError>(
                FstError::StateNotFound { state: s },
            ) && final(self).model() == old(self).model(),
    {
        if s as usize >= self.states.len() {
            return Err(FstError::StateNotFound { state: s });
        }
        self.replace_final(s, None);
        Ok(())
    }

    /// The transitions of `s`.
    pub fn get_trs(&self, s: StateId) -> (r: Result<&Vec<Tr<W>>, FstError>)
        ensures
            match r {
                Ok(trs) => self.model().has_state(s) && trs_model(trs@)
                    == self.model().states[s as int].trs,
                Err(e) => !self.model().has_state(s) && e == (FstError::StateNotFound { state: s }),
            },
    {
        if s as usize >= self.states.len() {
            return Err(FstError::StateNotFound { state: s });
        }
        Ok(&self.states[s as usize].trs)
    }

    /// How many transitions `s` has.
    pub fn num_trs(&self, s: StateId) -> (r: Result<usize, FstError>)
        ensures
            match r {
                Ok(n) => self.model().has_state(s) && n == self.model().states[s as int].trs.len(),
                Err(e) => !self.model().has_state(s) && e == (FstError::StateNotFound { state: s }),
            },
    {
        if s as usize >= self.states.len() {
            return Err(FstError::StateNotFound { state: s });
        }
        Ok(self.states[s as usize].trs.len())
    }

    /// Adds a transition at the end of those of `s`.
    pub fn add_tr(&mut self, s: StateId, tr: Tr<W>) -> (r: Result<(), FstError>)
        ensures
            old(self).model().has_state(s) ==> r == Ok::<(), FstError>(()) && final(self).model()
                == with_tr::<W>(old(self).model(), s, tr.model()),
            !old(self).model().has_state(s) ==> r == Err::<(), FstError>(
                FstError::StateNotFound { state: s },
            ) && final(self).model() == old(self).model(),
    {
        let i: usize = s as usize;
        if i >= self.states.len() {
            return Err(FstError::StateNotFound { state: s });
        }
        let ghost before = self.model();
        let weighted: bool = !tr.weight.is_zero() && !tr.weight.is_one();
        let len: usize = self.states[i].trs.len();
        let previous: Option<(u32, u32)> = if len == 0 {
            None
        } else {
            Some((self.states[i].trs[len - 1].ilabel, self.states[i].trs[len - 1].olabel))
        };
        let shape = TrShape {
            ilabel: tr.ilabel,
            olabel: tr.olabel,
            weighted,
            backward: tr.nextstate <= s,
            previous,
        };
        assert(shape == tr_shape::<W>(before, s, tr.model()));
        self.properties = self.properties.add_tr(shape);
        let ghost trm = tr.model();
        self.states[i].trs.push(tr);
        proof {
            let after = with_tr::<W>(before, s, trm);
            assert(self.states@[i as int].model().trs =~= before.states[i as int].trs.push(trm));
            assert(self.model().states =~= after.states);
        }
        Ok(())
    }

    /// Replaces the transitions of `s`. What was known of the machine is
    /// forgotten.
    pub fn set_trs(&mut self, s: StateId, trs: Vec<Tr<W>>)
        requires
            old(self).model().has_state(s),
        ensures
            final(self).model() == old(self).model().with_trs(s, trs_model(trs@)),
    {
        let ghost before = self.model();
        let i: usize = s as usize;
        self.properties = FstProperties::empty();
        self.states[i].trs = trs;
        assert(self.model().states =~= before.with_trs(s, trs_model(trs@)).states);
    }

    /// Removes the transitions of `s` and returns them.
    pub fn pop_trs(&mut self, s: StateId) -> (r: Result<Vec<Tr<W>>, FstError>)
        ensures
            match r {
                Ok(trs) => old(self).model().has_state(s) && trs_model(trs@)
                    == old(self).model().states[s as int].trs && final(self).model() == (FstM {
                    properties: old(self).model().properties.mask_model(DELETE_TRS_KEEPS),
                    ..old(self).model().with_trs(s, Seq::empty())
                }),
                Err(e) => !old(self).model().has_state(s) && e == (FstError::StateNotFound {
                    state: s,
                }) && final(self).model() == old(self).model(),
            },
    {
        let i: usize = s as usize;
        if i >= self.states.len() {
            return Err(FstError::StateNotFound { state: s });
        }
        let ghost before = self.model();
        let mut trs: Vec<Tr<W>> = Vec::new();
        std::mem::swap(&mut trs, &mut self.states[i].trs);
        self.properties = self.properties.mask(DELETE_TRS_KEEPS);
        assert(self.states@[i as int].model().trs =~= Seq::empty());
        assert(self.model().states =~= before.with_trs(s, Seq::empty()).states);
        Ok(trs)
    }

    /// Removes every state.
    pub fn del_all_states(&mut self)
        ensures
            final(self).model() == (FstM {
                isymt: old(self).model().isymt,
                osymt: old(self).model().osymt,
                ..FstM::<W::M>::empty()
            }),
    {
        self.start = None;
        self.states = Vec::new();
        self.properties = FstProperties::null();
        assert(self.model().states =~= Seq::empty());
    }

    /// Replaces the start state and all states; what is known is reduced to what
    /// the removal of states leaves.
    pub(crate) fn replace_states(
        &mut self,
        start: Option<StateId>,
        states: Vec<VectorFstState<W>>,
    )
        ensures
            final(self).model() == (FstM {
                start,
                states: states_model(states@),
                properties: old(self).model().properties.mask_model(DELETE_STATES_KEEPS),
                ..old(self).model()
            }),
    {
        self.start = start;
        self.states = states;
        self.properties = self.properties.mask(DELETE_STATES_KEEPS);
        assert(self.model().states =~= states_model(states@));
    }
}

/// The mathematical value of a list of states.
pub open spec fn states_model<W: Semiring>(states: Seq<VectorFstState<W>>) -> Seq<StateM<W::M>> {
    Seq::new(states.len(), |i: int| states[i].model())
}

impl<W: Semiring> VectorFstState<W> {
    /// The state with the given final weight and transitions.
    pub fn new(final_weight: Option<W>, trs: Vec<Tr<W>>) -> (r: Self)
        ensures
            r.model() == (StateM {
                final_weight: option_model(final_weight),
                trs: trs_model(trs@),
            }),
    {
        VectorFstState { final_weight, trs }
    }
}

/// A final weight is the value of a weight.
pub proof fn lemma_final_is_weight<W: Semiring>(fst: VectorFst<W>, s: int) -> (w: W)
    requires
        0 <= s < fst.model().states.len(),
        fst.model().states[s].final_weight is Some,
    ensures
        fst.model().states[s].final_weight == Some(w.model()),
{
    fst.states@[s].final_weight->0
}

/// Whether two machines have the same states and start state. What is known of
/// them, and their symbol tables, do not matter.
impl<W: Semiring> PartialEq for VectorFst<W> {
    fn eq(&self, other: &Self) -> (r: bool) {
        let n: usize = self.states.len();
        if n != other.states.len() {
            assert(self.model().states.len() != other.model().states.len());
            return false;
        }
        if self.start != other.start {
            return false;
        }
        for i in 0..n
            invariant
                n == self.states.len(),
                n == other.states.len(),
                self.start == other.start,
                forall|j: int|
                    0 <= j < i ==> (#[trigger] self.model().states[j]) == other.model().states[j],
        {
            let same_final: bool = same_option(
                &self.states[i].final_weight,
                &other.states[i].final_weight,
            );
            let same_list: bool = same_trs(&self.states[i].trs, &other.states[i].trs);
            if !same_final || !same_list {
                assert(self.model().states[i as int] != other.model().states[i as int]);
                return false;
            }
            assert(self.model().states[i as int] == self.states@[i as int].model());
            assert(other.model().states[i as int] == other.states@[i as int].model());
        }
        assert(self.model().states =~= other.model().states);
        true
    }
}

impl<W: Semiring> vstd::std_specs::cmp::PartialEqSpecImpl for VectorFst<W> {
    open spec fn obeys_eq_spec() -> bool {
        true
    }

    open spec fn eq_spec(&self, other: &Self) -> bool {
        self.model().start == other.model().start && self.model().states == other.model().states
    }
}

} // verus!
