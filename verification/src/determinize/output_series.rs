//! Weights that stand for series of outputs.

use crate::determinize::determinize_fsa_op::final_or_zero;
use crate::determinize::laws::{accept_by, accept_from};
use crate::fst::tr::{Label, StateId, TrM, EPS_LABEL};
use crate::fst::vector_fst::FstM;
use crate::semirings::gallic::{
    item_factors, label_item, label_string, option_times, GallicWeightMin, GallicWeightRestrict,
    ItemM,
};
use crate::semirings::gallic_laws::{
    item_value, lemma_item_times, lemma_list_value_one, list_value, option_value,
};
use crate::semirings::gallic_union::GallicWeight;
use crate::semirings::laws::SemiringLaws;
use crate::semirings::semiring::Semiring;
use crate::semirings::series::{
    lemma_monomial_times, lemma_series_product_zero, lemma_series_sum, monomial, no_value,
    series_product, series_sum, series_zero, Series,
};
use crate::weight_convert::{list_factors, option_extract, Gallic};
use vstd::prelude::*;

verus! {

/// A weight that stands for a series of outputs.
pub trait OutputSeries<W: SemiringLaws>: Gallic<W> {
    /// The series that a weight stands for.
    spec fn series(a: Self::M) -> Series<W::V>;

    proof fn law_series_units()
        ensures
            Self::series(Self::zero_model()) == series_zero::<W>(),
            Self::series(Self::one_model()) == monomial::<W>(
                Seq::empty(),
                W::value(W::one_model()),
            ),
    ;

    proof fn law_series_times(a: Self::M, b: Self::M)
        ensures
            Self::times_model(a, b) matches Ok(c) ==> Self::series(c) == series_product::<W>(
                Self::series(a),
                Self::series(b),
            ),
    ;

    proof fn law_of_label(label: Label, weight: W::M)
        ensures
            Self::series(Self::of_label_model(label, weight)) == monomial::<W>(
                label_string(label),
                W::value(weight),
            ),
    ;

    proof fn law_extract(a: Self::M)
        ensures
            Self::extract_model(a) matches Ok((label, weight)) ==> Self::series(a) == monomial::<
                W,
            >(label_string(label), W::value(weight)),
    ;
}

/// A weight whose sums are sums of series.
pub trait SummedSeries<W: SemiringLaws>: OutputSeries<W> + SemiringLaws {
    /// The series that a value is.
    spec fn as_series(v: Self::V) -> Series<W::V>;

    proof fn law_value(a: Self::M)
        ensures
            Self::as_series(Self::value(a)) == Self::series(a),
    ;

    proof fn law_series(a: Self::V, b: Self::V)
        ensures
            Self::as_series(Self::sum(a, b)) == series_sum::<W>(
                Self::as_series(a),
                Self::as_series(b),
            ),
            Self::as_series(Self::product(a, b)) == series_product::<W>(
                Self::as_series(a),
                Self::as_series(b),
            ),
    ;
}

/// The weight is not split and writes nothing.
pub open spec fn writes_nothing<W: Semiring, G: Gallic<W>>(a: G::M) -> bool {
    &&& G::factors_model(a).len() == 0
    &&& (G::extract_model(a) matches Ok((label, _)) ==> label == EPS_LABEL)
}

/// The sum over the pairs of the product of their parts.
pub open spec fn pairs_value<W: SemiringLaws, G: OutputSeries<W>>(
    pairs: Seq<(G::M, G::M)>,
) -> Series<W::V>
    decreases pairs.len(),
{
    if pairs.len() == 0 {
        series_zero::<W>()
    } else {
        series_sum::<W>(
            pairs_value::<W, G>(pairs.drop_last()),
            series_product::<W>(
                G::series(pairs.last().0),
                G::series(pairs.last().1),
            ),
        )
    }
}

/// A weight with a series of outputs that can be split into pairs.
pub trait FactoredSeries<W: SemiringLaws>: OutputSeries<W> {
    /// The pairs that a weight is split into give it back. A pair whose first part
    /// writes nothing has nothing left to write.
    proof fn law_factors(a: Self::M)
        ensures
            Self::factors_model(a).len() > 0 ==> Self::series(a) == pairs_value::<W, Self>(
                Self::factors_model(a),
            ),
            forall|i: int|
                0 <= i < Self::factors_model(a).len() ==> (Self::extract_model(
                    (#[trigger] Self::factors_model(a)[i]).0,
                ) matches Ok((label, _)) ==> label == EPS_LABEL ==> writes_nothing::<W, Self>(
                    Self::factors_model(a)[i].1,
                )),
    ;
}

proof fn lemma_item_factors<W: SemiringLaws>(a: ItemM<W::M>)
    ensures
        series_product::<W>(
            item_value::<W>(item_factors::<W>(a).0),
            item_value::<W>(item_factors::<W>(a).1),
        ) == item_value::<W>(a),
{
    let (f, r) = item_factors::<W>(a);
    lemma_monomial_times::<W>(f.string, W::value(f.weight), r.string, W::value(r.weight));
    W::law_product_one(W::value(a.weight));
    assert(f.string + r.string =~= a.string);
}

/// An optional item that writes at most one label.
proof fn lemma_option_extract<W: SemiringLaws>(a: Option<ItemM<W::M>>)
    ensures
        option_extract::<W>(a) matches Ok((label, weight)) ==> option_value::<W>(a) == monomial::<
            W,
        >(label_string(label), W::value(weight)),
{
    match a {
        None => {
            let zero = series_zero::<W>();
            let mono = monomial::<W>(label_string(EPS_LABEL), no_value::<W>());
            assert(zero =~= mono);
        },
        Some(x) => {
            assert(x.string.len() == 0 ==> x.string =~= Seq::empty());
            assert(x.string.len() == 1 ==> x.string =~= seq![x.string[0]]);
        },
    }
}

proof fn lemma_option_times<W: SemiringLaws>(a: Option<ItemM<W::M>>, b: Option<ItemM<W::M>>)
    ensures
        option_times::<W>(a, b) matches Ok(c) ==> option_value::<W>(c) == series_product::<W>(
            option_value::<W>(a),
            option_value::<W>(b),
        ),
{
    match (a, b) {
        (Some(x), Some(y)) => {
            lemma_item_times::<W>(x, y);
        },
        _ => {
            lemma_series_product_zero::<W>(option_value::<W>(a));
            lemma_series_product_zero::<W>(option_value::<W>(b));
        },
    }
}

impl<W: SemiringLaws> OutputSeries<W> for GallicWeightRestrict<W> {
    open spec fn series(a: Option<ItemM<W::M>>) -> Series<W::V> {
        option_value::<W>(a)
    }

    proof fn law_series_units() {
    }

    proof fn law_series_times(a: Option<ItemM<W::M>>, b: Option<ItemM<W::M>>) {
        lemma_option_times::<W>(a, b);
    }

    proof fn law_of_label(label: Label, weight: W::M) {
    }

    proof fn law_extract(a: Option<ItemM<W::M>>) {
        lemma_option_extract::<W>(a);
    }
}

impl<W: SemiringLaws> SummedSeries<W> for GallicWeightRestrict<W> {
    open spec fn as_series(v: Series<W::V>) -> Series<W::V> {
        v
    }

    proof fn law_value(a: Option<ItemM<W::M>>) {
    }

    proof fn law_series(a: Series<W::V>, b: Series<W::V>) {
    }
}

/// The sum over one pair.
proof fn lemma_one_pair<W: SemiringLaws, G: OutputSeries<W>>(f: G::M, r: G::M, v: Series<W::V>)
    requires
        series_product::<W>(G::series(f), G::series(r)) == v,
    ensures
        pairs_value::<W, G>(seq![(f, r)]) == v,
{
    let pairs = seq![(f, r)];
    assert(pairs.drop_last() =~= Seq::empty());
    assert(pairs_value::<W, G>(pairs.drop_last()) == series_zero::<W>());
    lemma_series_sum::<W>(v, v, v);
}

impl<W: SemiringLaws> FactoredSeries<W> for GallicWeightRestrict<W> {
    proof fn law_factors(a: Option<ItemM<W::M>>) {
        if let Some(x) = a {
            if x.string.len() > 1 {
                let (f, r) = item_factors::<W>(x);
                lemma_item_factors::<W>(x);
                lemma_one_pair::<W, Self>(Some(f), Some(r), item_value::<W>(x));
            }
        }
    }
}

impl<W: SemiringLaws> OutputSeries<W> for GallicWeightMin<W> {
    open spec fn series(a: Option<ItemM<W::M>>) -> Series<W::V> {
        option_value::<W>(a)
    }

    proof fn law_series_units() {
    }

    proof fn law_series_times(a: Option<ItemM<W::M>>, b: Option<ItemM<W::M>>) {
        lemma_option_times::<W>(a, b);
    }

    proof fn law_of_label(label: Label, weight: W::M) {
    }

    proof fn law_extract(a: Option<ItemM<W::M>>) {
        lemma_option_extract::<W>(a);
    }
}

impl<W: SemiringLaws> FactoredSeries<W> for GallicWeightMin<W> {
    proof fn law_factors(a: Option<ItemM<W::M>>) {
        if let Some(x) = a {
            if x.string.len() > 1 {
                let (f, r) = item_factors::<W>(x);
                lemma_item_factors::<W>(x);
                lemma_one_pair::<W, Self>(Some(f), Some(r), item_value::<W>(x));
            }
        }
    }
}

proof fn lemma_list_factors<W: SemiringLaws>(
    a: Seq<ItemM<W::M>>,
    pairs: Seq<(Seq<ItemM<W::M>>, Seq<ItemM<W::M>>)>,
)
    requires
        pairs.len() == a.len(),
        forall|i: int|
            0 <= i < a.len() ==> #[trigger] pairs[i] == (
                seq![item_factors::<W>(a[i]).0],
                seq![item_factors::<W>(a[i]).1],
            ),
    ensures
        pairs_value::<W, GallicWeight<W>>(pairs) == list_value::<W>(a),
    decreases a.len(),
{
    if a.len() > 0 {
        assert forall|i: int| 0 <= i < a.drop_last().len() implies #[trigger] pairs.drop_last()[i]
            == (
            seq![item_factors::<W>(a.drop_last()[i]).0],
            seq![item_factors::<W>(a.drop_last()[i]).1],
        ) by {
            assert(pairs.drop_last()[i] == pairs[i]);
        }
        lemma_list_factors::<W>(a.drop_last(), pairs.drop_last());
        lemma_item_factors::<W>(a.last());
        let (f, r) = item_factors::<W>(a.last());
        assert(pairs[a.len() - 1] == (seq![f], seq![r]));
        lemma_list_value_one::<W>(f);
        lemma_list_value_one::<W>(r);
    }
}

impl<W: SemiringLaws> OutputSeries<W> for GallicWeight<W> {
    open spec fn series(a: Seq<ItemM<W::M>>) -> Series<W::V> {
        list_value::<W>(a)
    }

    proof fn law_series_units() {
        lemma_list_value_one::<W>(ItemM { string: Seq::empty(), weight: W::one_model() });
    }

    proof fn law_series_times(a: Seq<ItemM<W::M>>, b: Seq<ItemM<W::M>>) {
        Self::law_times(a, b);
    }

    proof fn law_of_label(label: Label, weight: W::M) {
        lemma_list_value_one::<W>(label_item(label, weight));
    }

    proof fn law_extract(a: Seq<ItemM<W::M>>) {
        if a.len() == 0 {
            let zero = series_zero::<W>();
            let mono = monomial::<W>(label_string(EPS_LABEL), no_value::<W>());
            assert(zero =~= mono);
        } else if a.len() == 1 {
            let x = a[0];
            assert(a =~= seq![x]);
            lemma_list_value_one::<W>(x);
            assert(x.string.len() == 0 ==> x.string =~= Seq::empty());
            assert(x.string.len() == 1 ==> x.string =~= seq![x.string[0]]);
        }
    }
}

impl<W: SemiringLaws> SummedSeries<W> for GallicWeight<W> {
    open spec fn as_series(v: Series<W::V>) -> Series<W::V> {
        v
    }

    proof fn law_value(a: Seq<ItemM<W::M>>) {
    }

    proof fn law_series(a: Series<W::V>, b: Series<W::V>) {
    }
}

impl<W: SemiringLaws> FactoredSeries<W> for GallicWeight<W> {
    proof fn law_factors(a: Seq<ItemM<W::M>>) {
        let pairs = list_factors::<W>(a);
        if pairs.len() > 0 {
            lemma_list_factors::<W>(a, pairs);
        }
    }
}

/// The series of the outputs that an automaton, whose weights carry them, gives to an
/// input from one of its states: the sum over all paths of the product along the path.
pub open spec fn read_from<W: SemiringLaws, G: OutputSeries<W>>(
    fst: FstM<G::M>,
    q: StateId,
    x: Seq<Label>,
) -> Series<W::V>
    decreases x.len(), 1int, 0int,
{
    if !fst.has_state(q) {
        series_zero::<W>()
    } else if x.len() == 0 {
        G::series(final_or_zero::<G>(fst.states[q as int].final_weight))
    } else {
        read_by::<W, G>(fst, fst.states[q as int].trs, x)
    }
}

/// The series that one of the given transitions gives to a non-empty input.
pub open spec fn read_by<W: SemiringLaws, G: OutputSeries<W>>(
    fst: FstM<G::M>,
    trs: Seq<TrM<G::M>>,
    x: Seq<Label>,
) -> Series<W::V>
    decreases x.len(), 0int, trs.len(),
{
    if trs.len() == 0 || x.len() == 0 {
        series_zero::<W>()
    } else {
        let others = read_by::<W, G>(fst, trs.drop_last(), x);
        if trs.last().ilabel == x[0] {
            series_sum::<W>(
                others,
                series_product::<W>(
                    G::series(trs.last().weight),
                    read_from::<W, G>(fst, trs.last().nextstate, x.drop_first()),
                ),
            )
        } else {
            others
        }
    }
}

/// The series of the outputs that an automaton gives to an input.
pub open spec fn read<W: SemiringLaws, G: OutputSeries<W>>(fst: FstM<G::M>, x: Seq<Label>) -> Series<
    W::V,
> {
    match fst.start {
        None => series_zero::<W>(),
        Some(q) => read_from::<W, G>(fst, q, x),
    }
}

/// Where sums are sums of series, the series of an input is its weight.
pub proof fn lemma_read_from_accepts<W: SemiringLaws, G: SummedSeries<W>>(
    fst: FstM<G::M>,
    q: StateId,
    x: Seq<Label>,
)
    ensures
        G::as_series(accept_from::<G>(fst, q, x)) == read_from::<W, G>(fst, q, x),
    decreases x.len(), 1int, 0int,
{
    G::law_value(G::zero_model());
    G::law_series_units();
    if fst.has_state(q) {
        if x.len() == 0 {
            G::law_value(final_or_zero::<G>(fst.states[q as int].final_weight));
        } else {
            lemma_read_by_accepts::<W, G>(fst, fst.states[q as int].trs, x);
        }
    }
}

proof fn lemma_read_by_accepts<W: SemiringLaws, G: SummedSeries<W>>(
    fst: FstM<G::M>,
    trs: Seq<TrM<G::M>>,
    x: Seq<Label>,
)
    ensures
        G::as_series(accept_by::<G>(fst, trs, x)) == read_by::<W, G>(fst, trs, x),
    decreases x.len(), 0int, trs.len(),
{
    G::law_value(G::zero_model());
    G::law_series_units();
    if trs.len() > 0 && x.len() > 0 {
        lemma_read_by_accepts::<W, G>(fst, trs.drop_last(), x);
        let tr = trs.last();
        if tr.ilabel == x[0] {
            lemma_read_from_accepts::<W, G>(fst, tr.nextstate, x.drop_first());
            let rest = accept_from::<G>(fst, tr.nextstate, x.drop_first());
            let others = accept_by::<G>(fst, trs.drop_last(), x);
            let w = G::value(tr.weight);
            G::law_value(tr.weight);
            G::law_series(w, rest);
            G::law_series(others, G::product(w, rest));
        }
    }
}

/// Transitions with other labels give nothing to an input.
pub proof fn lemma_read_by_none<W: SemiringLaws, G: OutputSeries<W>>(
    fst: FstM<G::M>,
    trs: Seq<TrM<G::M>>,
    x: Seq<Label>,
)
    requires
        x.len() > 0,
        forall|i: int| 0 <= i < trs.len() ==> (#[trigger] trs[i]).ilabel != x[0],
    ensures
        read_by::<W, G>(fst, trs, x) == series_zero::<W>(),
    decreases trs.len(),
{
    if trs.len() > 0 {
        assert(trs[trs.len() - 1].ilabel != x[0]);
        assert forall|i: int| 0 <= i < trs.drop_last().len() implies (
        #[trigger] trs.drop_last()[i]).ilabel != x[0] by {
            assert(trs[i].ilabel != x[0]);
        }
        lemma_read_by_none::<W, G>(fst, trs.drop_last(), x);
    }
}

/// Where one transition has the label, it alone gives something to the input.
pub proof fn lemma_read_by_one<W: SemiringLaws, G: OutputSeries<W>>(
    fst: FstM<G::M>,
    trs: Seq<TrM<G::M>>,
    x: Seq<Label>,
    k: int,
)
    requires
        x.len() > 0,
        0 <= k < trs.len(),
        trs[k].ilabel == x[0],
        forall|i: int| 0 <= i < trs.len() && i != k ==> (#[trigger] trs[i]).ilabel != x[0],
    ensures
        read_by::<W, G>(fst, trs, x) == series_product::<W>(
            G::series(trs[k].weight),
            read_from::<W, G>(fst, trs[k].nextstate, x.drop_first()),
        ),
    decreases trs.len(),
{
    let shorter = trs.drop_last();
    assert forall|i: int| 0 <= i < shorter.len() && i != k implies (#[trigger] shorter[i]).ilabel
        != x[0] by {
        assert(trs[i].ilabel != x[0]);
    }
    if k == trs.len() - 1 {
        lemma_read_by_none::<W, G>(fst, shorter, x);
        let term = series_product::<W>(
            G::series(trs[k].weight),
            read_from::<W, G>(fst, trs[k].nextstate, x.drop_first()),
        );
        lemma_series_sum::<W>(term, term, term);
    } else {
        assert(trs[trs.len() - 1].ilabel != x[0]);
        lemma_read_by_one::<W, G>(fst, shorter, x, k);
    }
}

} // verus!
