//! Between transducers and automata whose weights carry the output.

use crate::error::FstError;
use crate::fst::properties::{FstProperties, ACCEPTOR};
use crate::fst::tr::{trs_model, Label, StateId, Tr, TrM, EPS_LABEL, NO_STATE_ID};
use crate::fst::vector_fst::{
    option_model, FstM, StateM, VectorFst, VectorFstState,
};
use crate::semirings::gallic::{
    item_extract, item_factors, item_option, label_item, GallicItem, GallicWeightMin,
    GallicWeightRestrict, ItemM,
};
use crate::semirings::gallic_union::GallicWeight;
use crate::semirings::semiring::Semiring;
use vstd::prelude::*;

verus! {

/// A weight that carries an output along with a weight of `W`.
pub trait Gallic<W: Semiring>: Semiring {
    /// The weight that writes one label.
    spec fn of_label_model(label: Label, weight: W::M) -> Self::M;

    /// The label that a weight writes, if it writes at most one, and its weight.
    spec fn extract_model(a: Self::M) -> Result<(Label, W::M), FstError>;

    /// The pairs, each of a first label and a rest, whose products sum up to the
    /// weight. There are none if the weight need not be split.
    spec fn factors_model(a: Self::M) -> Seq<(Self::M, Self::M)>;

    fn of_label(label: Label, weight: W) -> (r: Self)
        ensures
            r.model() == Self::of_label_model(label, weight.model()),
    ;

    fn extract(&self) -> (r: Result<(Label, W), FstError>)
        ensures
            match r {
                Ok((l, w)) => Self::extract_model(self.model()) == Ok::<(Label, W::M), FstError>(
                    (l, w.model()),
                ),
                Err(e) => Self::extract_model(self.model()) == Err::<(Label, W::M), FstError>(e),
            },
    ;

    fn factors(&self) -> (r: Vec<(Self, Self)>)
        ensures
            pairs_model(r@) == Self::factors_model(self.model()),
    ;
}

/// The mathematical value of a list of pairs.
pub open spec fn pairs_model<G: Semiring>(pairs: Seq<(G, G)>) -> Seq<(G::M, G::M)> {
    Seq::new(pairs.len(), |i: int| (pairs[i].0.model(), pairs[i].1.model()))
}

/// The label that an optional item writes; nothing writes nothing.
pub open spec fn option_extract<W: Semiring>(a: Option<ItemM<W::M>>) -> Result<
    (Label, W::M),
    FstError,
> {
    match a {
        None => Ok((EPS_LABEL, W::zero_model())),
        Some(x) => item_extract(x),
    }
}

/// The one pair that an optional item with more than one label splits into.
pub open spec fn option_factors<W: Semiring>(a: Option<ItemM<W::M>>) -> Seq<
    (Option<ItemM<W::M>>, Option<ItemM<W::M>>),
> {
    match a {
        Some(x) => if x.string.len() > 1 {
            let (first, rest) = item_factors::<W>(x);
            seq![(Some(first), Some(rest))]
        } else {
            Seq::empty()
        },
        None => Seq::empty(),
    }
}

/// The pairs that the items of a list split into: one each, unless the list holds
/// nothing or a single item with at most one label.
pub open spec fn list_factors<W: Semiring>(a: Seq<ItemM<W::M>>) -> Seq<
    (Seq<ItemM<W::M>>, Seq<ItemM<W::M>>),
> {
    if a.len() == 0 || (a.len() == 1 && a[0].string.len() <= 1) {
        Seq::empty()
    } else {
        Seq::new(
            a.len(),
            |i: int| (seq![item_factors::<W>(a[i]).0], seq![item_factors::<W>(a[i]).1]),
        )
    }
}

fn extract_option<W: Semiring>(a: &Option<GallicItem<W>>) -> (r: Result<(Label, W), FstError>)
    ensures
        match r {
            Ok((l, w)) => option_extract::<W>(item_option(*a)) == Ok::<(Label, W::M), FstError>(
                (l, w.model()),
            ),
            Err(e) => option_extract::<W>(item_option(*a)) == Err::<(Label, W::M), FstError>(e),
        },
{
    match a {
        None => Ok((EPS_LABEL, W::zero())),
        Some(x) => x.extract(),
    }
}

impl<W: Semiring> Gallic<W> for GallicWeightRestrict<W> {
    open spec fn of_label_model(label: Label, weight: W::M) -> Option<ItemM<W::M>> {
        Some(label_item(label, weight))
    }

    open spec fn extract_model(a: Option<ItemM<W::M>>) -> Result<(Label, W::M), FstError> {
        option_extract::<W>(a)
    }

    open spec fn factors_model(a: Option<ItemM<W::M>>) -> Seq<
        (Option<ItemM<W::M>>, Option<ItemM<W::M>>),
    > {
        option_factors::<W>(a)
    }

    fn of_label(label: Label, weight: W) -> (r: Self) {
        GallicWeightRestrict { item: Some(GallicItem::of_label(label, weight)) }
    }

    fn extract(&self) -> (r: Result<(Label, W), FstError>) {
        extract_option(&self.item)
    }

    fn factors(&self) -> (r: Vec<(Self, Self)>) {
        let mut r: Vec<(Self, Self)> = Vec::new();
        if let Some(x) = &self.item {
            if x.string.len() > 1 {
                let (first, rest) = x.factors();
                r.push(
                    (
                        GallicWeightRestrict { item: Some(first) },
                        GallicWeightRestrict { item: Some(rest) },
                    ),
                );
            }
        }
        assert(pairs_model(r@) =~= option_factors::<W>(self.model()));
        r
    }
}

impl<W: Semiring> Gallic<W> for GallicWeightMin<W> {
    open spec fn of_label_model(label: Label, weight: W::M) -> Option<ItemM<W::M>> {
        Some(label_item(label, weight))
    }

    open spec fn extract_model(a: Option<ItemM<W::M>>) -> Result<(Label, W::M), FstError> {
        option_extract::<W>(a)
    }

    open spec fn factors_model(a: Option<ItemM<W::M>>) -> Seq<
        (Option<ItemM<W::M>>, Option<ItemM<W::M>>),
    > {
        option_factors::<W>(a)
    }

    fn of_label(label: Label, weight: W) -> (r: Self) {
        GallicWeightMin { item: Some(GallicItem::of_label(label, weight)) }
    }

    fn extract(&self) -> (r: Result<(Label, W), FstError>) {
        extract_option(&self.item)
    }

    fn factors(&self) -> (r: Vec<(Self, Self)>) {
        let mut r: Vec<(Self, Self)> = Vec::new();
        if let Some(x) = &self.item {
            if x.string.len() > 1 {
                let (first, rest) = x.factors();
                r.push(
                    (
                        GallicWeightMin { item: Some(first) },
                        GallicWeightMin { item: Some(rest) },
                    ),
                );
            }
        }
        assert(pairs_model(r@) =~= option_factors::<W>(self.model()));
        r
    }
}

/// A list with a single item.
fn single<W: Semiring>(item: GallicItem<W>) -> (r: GallicWeight<W>)
    ensures
        r.model() == seq![item.model()],
{
    let mut items: Vec<GallicItem<W>> = Vec::new();
    items.push(item);
    let r = GallicWeight { items };
    assert(r.model() =~= seq![item.model()]);
    r
}

impl<W: Semiring> Gallic<W> for GallicWeight<W> {
    open spec fn of_label_model(label: Label, weight: W::M) -> Seq<ItemM<W::M>> {
        seq![label_item(label, weight)]
    }

    open spec fn extract_model(a: Seq<ItemM<W::M>>) -> Result<(Label, W::M), FstError> {
        if a.len() == 0 {
            Ok((EPS_LABEL, W::zero_model()))
        } else if a.len() == 1 {
            item_extract(a[0])
        } else {
            Err(FstError::UnexpectedString)
        }
    }

    open spec fn factors_model(a: Seq<ItemM<W::M>>) -> Seq<
        (Seq<ItemM<W::M>>, Seq<ItemM<W::M>>),
    > {
        list_factors::<W>(a)
    }

    fn of_label(label: Label, weight: W) -> (r: Self) {
        single(GallicItem::of_label(label, weight))
    }

    fn extract(&self) -> (r: Result<(Label, W), FstError>) {
        if self.items.len() == 0 {
            Ok((EPS_LABEL, W::zero()))
        } else if self.items.len() == 1 {
            assert(self.model()[0] == self.items@[0].model());
            self.items[0].extract()
        } else {
            Err(FstError::UnexpectedString)
        }
    }

    fn factors(&self) -> (r: Vec<(Self, Self)>) {
        let ghost m = self.model();
        let n: usize = self.items.len();
        let mut r: Vec<(Self, Self)> = Vec::new();
        if n == 0 || (n == 1 && self.items[0].string.len() <= 1) {
            assert(n == 1 ==> m[0] == self.items@[0].model());
            assert(pairs_model(r@) =~= list_factors::<W>(m));
            return r;
        }
        assert(n == 1 ==> m[0] == self.items@[0].model());
        for i in 0..n
            invariant
                n == self.items.len(),
                m == self.model(),
                r.len() == i,
                forall|j: int|
                    0 <= j < i ==> (#[trigger] r@[j]).0.model() == seq![
                        item_factors::<W>(m[j]).0,
                    ] && r@[j].1.model() == seq![item_factors::<W>(m[j]).1],
        {
            assert(m[i as int] == self.items@[i as int].model());
            let (first, rest) = self.items[i].factors();
            r.push((single(first), single(rest)));
        }
        assert(pairs_model(r@) =~= list_factors::<W>(m));
        r
    }
}

/// The transition with its output in the weight.
pub open spec fn to_gallic_tr<W: Semiring, G: Gallic<W>>(tr: TrM<W::M>) -> TrM<G::M> {
    TrM {
        ilabel: tr.ilabel,
        olabel: tr.ilabel,
        weight: G::of_label_model(tr.olabel, tr.weight),
        nextstate: tr.nextstate,
    }
}

/// The state with the outputs of its transitions in their weights.
pub open spec fn to_gallic_state<W: Semiring, G: Gallic<W>>(state: StateM<W::M>) -> StateM<G::M> {
    StateM {
        final_weight: match state.final_weight {
            Some(w) => Some(G::of_label_model(EPS_LABEL, w)),
            None => None,
        },
        trs: Seq::new(state.trs.len(), |j: int| to_gallic_tr::<W, G>(state.trs[j])),
    }
}

/// The automaton that reads what a transducer reads and carries what it writes in
/// its weights. Without a start state it has no states.
pub open spec fn to_gallic_model<W: Semiring, G: Gallic<W>>(fst: FstM<W::M>) -> FstM<G::M> {
    if fst.start is None {
        FstM { isymt: fst.isymt, osymt: fst.osymt, ..FstM::<G::M>::empty() }
    } else {
        FstM {
            start: fst.start,
            states: Seq::new(
                fst.states.len(),
                |s: int| to_gallic_state::<W, G>(fst.states[s]),
            ),
            properties: FstProperties { bits: ACCEPTOR },
            isymt: fst.isymt,
            osymt: fst.osymt,
        }
    }
}

/// Moves the output of every transition into its weight.
pub fn to_gallic<W: Semiring, G: Gallic<W>>(fst: &VectorFst<W>) -> (r: VectorFst<G>)
    requires
        fst.model().states.len() <= u32::MAX,
    ensures
        r.model() == to_gallic_model::<W, G>(fst.model()),
{
    let ghost m = fst.model();
    let mut r: VectorFst<G> = VectorFst::new();
    r.set_symts_from_fst(fst);
    let start: Option<StateId> = fst.start();
    if start.is_none() {
        return r;
    }
    let n: usize = fst.num_states();
    let mut states: Vec<VectorFstState<G>> = Vec::new();
    for s in 0..n
        invariant
            m == fst.model(),
            n == m.states.len(),
            n <= u32::MAX,
            states.len() == s,
            forall|v: int|
                0 <= v < s ==> (#[trigger] states@[v]).model() == to_gallic_state::<W, G>(
                    m.states[v],
                ),
    {
        let final_weight: Option<G> = match fst.final_weight(s as StateId) {
            Ok(Some(w)) => Some(G::of_label(EPS_LABEL, w)),
            _ => None,
        };
        let mut trs: Vec<Tr<G>> = Vec::new();
        let list: &Vec<Tr<W>> = match fst.get_trs(s as StateId) {
            Ok(list) => list,
            Err(_) => {
                assert(false);
                return r;
            },
        };
        let len: usize = list.len();
        for j in 0..len
            invariant
                len == list.len(),
                trs_model(list@) == m.states[s as int].trs,
                trs.len() == j,
                forall|k: int|
                    0 <= k < j ==> (#[trigger] trs@[k]).model() == to_gallic_tr::<W, G>(
                        m.states[s as int].trs[k],
                    ),
        {
            let tr: &Tr<W> = &list[j];
            assert(m.states[s as int].trs[j as int] == tr.model());
            trs.push(
                Tr::new(
                    tr.ilabel,
                    tr.ilabel,
                    G::of_label(tr.olabel, tr.weight.duplicate()),
                    tr.nextstate,
                ),
            );
        }
        let ghost fm = option_model(final_weight);
        assert(trs_model(trs@) =~= to_gallic_state::<W, G>(m.states[s as int]).trs);
        assert(fm == to_gallic_state::<W, G>(m.states[s as int]).final_weight);
        states.push(VectorFstState::new(final_weight, trs));
    }
    r.replace_states(start, states);
    r.set_properties(FstProperties { bits: ACCEPTOR });
    assert(r.model().states =~= to_gallic_model::<W, G>(m).states);
    r
}

/// The transition can be written with one output label.
pub open spec fn plain_tr<W: Semiring, G: Gallic<W>>(tr: TrM<G::M>) -> bool {
    tr.ilabel == tr.olabel && G::extract_model(tr.weight) is Ok
}

/// The state can be written with one output label on each transition and at most
/// one at its end.
pub open spec fn plain_state<W: Semiring, G: Gallic<W>>(state: StateM<G::M>) -> bool {
    &&& forall|j: int| 0 <= j < state.trs.len() ==> plain_tr::<W, G>(#[trigger] state.trs[j])
    &&& state.final_weight matches Some(w) ==> G::extract_model(w) is Ok
}

/// A label is written at the end of the state.
pub open spec fn writes_at_end<W: Semiring, G: Gallic<W>>(state: StateM<G::M>) -> bool {
    state.final_weight matches Some(w) && G::extract_model(w) matches Ok((label, _)) && label
        != EPS_LABEL
}

/// The transition with its output as a label.
pub open spec fn from_gallic_tr<W: Semiring, G: Gallic<W>>(tr: TrM<G::M>) -> TrM<W::M> {
    let (label, weight) = G::extract_model(tr.weight)->Ok_0;
    TrM { ilabel: tr.ilabel, olabel: label, weight, nextstate: tr.nextstate }
}

/// The state with its outputs as labels. A label that is written at its end moves
/// to a transition to `superfinal`.
pub open spec fn from_gallic_state<W: Semiring, G: Gallic<W>>(
    state: StateM<G::M>,
    superfinal: StateId,
) -> StateM<W::M> {
    let trs = Seq::new(state.trs.len(), |j: int| from_gallic_tr::<W, G>(state.trs[j]));
    match state.final_weight {
        None => StateM { final_weight: None, trs },
        Some(w) => {
            let (label, weight) = G::extract_model(w)->Ok_0;
            if label == EPS_LABEL {
                StateM { final_weight: Some(weight), trs }
            } else {
                StateM {
                    final_weight: None,
                    trs: trs.push(
                        TrM { ilabel: EPS_LABEL, olabel: label, weight, nextstate: superfinal },
                    ),
                }
            }
        },
    }
}

/// Some state writes a label at its end.
pub open spec fn needs_superfinal<W: Semiring, G: Gallic<W>>(fst: FstM<G::M>) -> bool {
    exists|s: int| 0 <= s < fst.states.len() && writes_at_end::<W, G>(#[trigger] fst.states[s])
}

/// The transducer that writes what the weights of an automaton carry. Labels at
/// the end of a state are written on the way to one more state.
pub open spec fn from_gallic_model<W: Semiring, G: Gallic<W>>(fst: FstM<G::M>) -> Result<
    FstM<W::M>,
    FstError,
> {
    let n = fst.states.len();
    if fst.start is None {
        Ok(FstM { isymt: fst.isymt, osymt: fst.osymt, ..FstM::<W::M>::empty() })
    } else if !(forall|s: int|
        0 <= s < n ==> plain_state::<W, G>(#[trigger] fst.states[s])) {
        Err(FstError::UnexpectedString)
    } else if needs_superfinal::<W, G>(fst) && n >= NO_STATE_ID {
        Err(FstError::TooManyStates)
    } else {
        let states = Seq::new(
            n,
            |s: int| from_gallic_state::<W, G>(fst.states[s], n as StateId),
        );
        Ok(
            FstM {
                start: fst.start,
                states: if needs_superfinal::<W, G>(fst) {
                    states.push(
                        StateM { final_weight: Some(W::one_model()), trs: Seq::empty() },
                    )
                } else {
                    states
                },
                properties: FstProperties { bits: 0 },
                isymt: fst.isymt,
                osymt: fst.osymt,
            },
        )
    }
}

/// The transitions with their outputs as labels.
fn plain_trs<W: Semiring, G: Gallic<W>>(list: &Vec<Tr<G>>) -> (r: Result<Vec<Tr<W>>, FstError>)
    ensures
        match r {
            Ok(trs) => {
                &&& forall|j: int|
                    0 <= j < list.len() ==> plain_tr::<W, G>(#[trigger] trs_model(list@)[j])
                &&& trs_model(trs@) == Seq::new(
                    list@.len(),
                    |j: int| from_gallic_tr::<W, G>(trs_model(list@)[j]),
                )
            },
            Err(e) => e == FstError::UnexpectedString && exists|j: int|
                0 <= j < list.len() && !plain_tr::<W, G>(#[trigger] trs_model(list@)[j]),
        },
{
    let ghost lm = trs_model(list@);
    let mut trs: Vec<Tr<W>> = Vec::new();
    let n: usize = list.len();
    for j in 0..n
        invariant
            n == list.len(),
            lm == trs_model(list@),
            trs.len() == j,
            forall|k: int|
                0 <= k < j ==> plain_tr::<W, G>(#[trigger] lm[k]) && trs@[k].model()
                    == from_gallic_tr::<W, G>(lm[k]),
    {
        let tr: &Tr<G> = &list[j];
        assert(lm[j as int] == tr.model());
        if tr.ilabel != tr.olabel {
            assert(!plain_tr::<W, G>(lm[j as int]));
            return Err(FstError::UnexpectedString);
        }
        match tr.weight.extract() {
            Ok((label, weight)) => {
                let ghost before = trs@;
                trs.push(Tr::new(tr.ilabel, label, weight, tr.nextstate));
                assert forall|k: int| 0 <= k < j + 1 implies plain_tr::<W, G>(#[trigger] lm[k])
                    && trs@[k].model() == from_gallic_tr::<W, G>(lm[k]) by {
                    if k < j {
                        assert(trs@[k] == before[k]);
                    }
                }
            },
            Err(_) => {
                assert(!plain_tr::<W, G>(lm[j as int]));
                return Err(FstError::UnexpectedString);
            },
        }
    }
    assert(trs_model(trs@) =~= Seq::new(list@.len(), |j: int| from_gallic_tr::<W, G>(lm[j])));
    Ok(trs)
}

/// Writes what the weights carry on the transitions.
pub fn from_gallic<W: Semiring, G: Gallic<W>>(fst: &VectorFst<G>) -> (r: Result<
    VectorFst<W>,
    FstError,
>)
    requires
        fst.model().states.len() <= u32::MAX,
    ensures
        match r {
            Ok(out) => from_gallic_model::<W, G>(fst.model()) == Ok::<FstM<W::M>, FstError>(
                out.model(),
            ),
            Err(e) => from_gallic_model::<W, G>(fst.model()) == Err::<FstM<W::M>, FstError>(e),
        },
{
    let ghost m = fst.model();
    let mut r: VectorFst<W> = VectorFst::new();
    r.set_symts_from_fst(fst);
    let start: Option<StateId> = fst.start();
    if start.is_none() {
        return Ok(r);
    }
    let n: usize = fst.num_states();
    let superfinal: StateId = n as StateId;
    let mut needed: bool = false;
    let mut states: Vec<VectorFstState<W>> = Vec::new();
    for s in 0..n
        invariant
            m == fst.model(),
            m.start is Some,
            n == m.states.len(),
            n <= u32::MAX,
            superfinal == n as StateId,
            states.len() == s,
            needed == (exists|v: int|
                0 <= v < s && writes_at_end::<W, G>(#[trigger] m.states[v])),
            forall|v: int|
                0 <= v < s ==> plain_state::<W, G>(#[trigger] m.states[v]) && states@[v].model()
                    == from_gallic_state::<W, G>(m.states[v], superfinal),
    {
        let ghost state = m.states[s as int];
        let list: &Vec<Tr<G>> = match fst.get_trs(s as StateId) {
            Ok(list) => list,
            Err(e) => {
                assert(false);
                return Err(e);
            },
        };
        let mut trs: Vec<Tr<W>> = match plain_trs::<W, G>(list) {
            Ok(trs) => trs,
            Err(e) => {
                assert(!plain_state::<W, G>(m.states[s as int]));
                return Err(e);
            },
        };
        let ghost plain = trs_model(trs@);
        let ghost before = states@;
        let mut final_weight: Option<W> = None;
        let mut writes: bool = false;
        match fst.final_weight(s as StateId) {
            Ok(Some(w)) => match w.extract() {
                Ok((label, weight)) => {
                    if label == EPS_LABEL {
                        final_weight = Some(weight);
                    } else {
                        let ghost wm = weight.model();
                        writes = true;
                        trs.push(Tr::new(EPS_LABEL, label, weight, superfinal));
                        assert(trs_model(trs@) =~= plain.push(
                            TrM {
                                ilabel: EPS_LABEL,
                                olabel: label,
                                weight: wm,
                                nextstate: superfinal,
                            },
                        ));
                    }
                },
                Err(_) => {
                    assert(!plain_state::<W, G>(m.states[s as int]));
                    return Err(FstError::UnexpectedString);
                },
            },
            _ => {},
        }
        assert(writes == writes_at_end::<W, G>(state));
        states.push(VectorFstState::new(final_weight, trs));
        proof {
            assert(plain_state::<W, G>(state));
            assert(states@[s as int].model() == from_gallic_state::<W, G>(state, superfinal));
            assert forall|v: int| 0 <= v < s + 1 implies plain_state::<W, G>(
                #[trigger] m.states[v],
            ) && states@[v].model() == from_gallic_state::<W, G>(m.states[v], superfinal) by {
                if v < s {
                    assert(states@[v] == before[v]);
                }
            }
        }
        if writes {
            needed = true;
            assert(writes_at_end::<W, G>(m.states[s as int]));
        }
    }
    assert(needed == needs_superfinal::<W, G>(m));
    if needed {
        if n >= NO_STATE_ID as usize {
            return Err(FstError::TooManyStates);
        }
        states.push(VectorFstState::new(Some(W::one()), Vec::new()));
    }
    r.replace_states(start, states);
    r.set_properties(FstProperties { bits: 0 });
    proof {
        let want = from_gallic_model::<W, G>(m)->Ok_0.states;
        assert(r.model().states.len() == want.len());
        assert forall|v: int| 0 <= v < want.len() implies r.model().states[v] == want[v] by {
            if v < n {
                assert(m.states[v] == m.states[v]);
            } else {
                assert(r.model().states[v].trs =~= Seq::empty());
            }
        }
        assert(r.model().states =~= want);
    }
    Ok(r)
}

} // verus!
