//! The algebras behind weights that carry strings.

use crate::semirings::gallic::{
    item_times, string_less, weight_or_zero, GallicWeightMin, GallicWeightRestrict, ItemM,
};
use crate::semirings::gallic_union::{
    interleave, list_of, list_plus, list_push, list_quantize, list_times, row_times, GallicWeight,
};
use crate::semirings::laws::{exact_step, ExactWeights, SelectiveSum, SemiringLaws};
use crate::semirings::semiring::{WeaklyDivisibleSemiring, WeightQuantize};
use crate::semirings::series::{
    lemma_monomial_sum, lemma_monomial_times, lemma_series_distributive,
    lemma_series_product_associative, lemma_series_product_one, lemma_series_product_zero,
    lemma_series_sum, monomial, series_product, series_sum, series_zero, Series,
};
use vstd::prelude::*;

verus! {

/// The series of an item.
pub open spec fn item_value<W: SemiringLaws>(a: ItemM<W::M>) -> Series<W::V> {
    monomial::<W>(a.string, W::value(a.weight))
}

/// The series of an optional item.
pub open spec fn option_value<W: SemiringLaws>(a: Option<ItemM<W::M>>) -> Series<W::V> {
    match a {
        None => series_zero::<W>(),
        Some(x) => item_value::<W>(x),
    }
}

/// The series of a list of items.
pub open spec fn list_value<W: SemiringLaws>(a: Seq<ItemM<W::M>>) -> Series<W::V>
    decreases a.len(),
{
    if a.len() == 0 {
        series_zero::<W>()
    } else {
        series_sum::<W>(list_value::<W>(a.drop_last()), item_value::<W>(a.last()))
    }
}

pub proof fn lemma_item_times<W: SemiringLaws>(a: ItemM<W::M>, b: ItemM<W::M>)
    ensures
        item_times::<W>(a, b) matches Ok(c) ==> item_value::<W>(c) == series_product::<W>(
            item_value::<W>(a),
            item_value::<W>(b),
        ),
{
    W::law_times(a.weight, b.weight);
    lemma_monomial_times::<W>(a.string, W::value(a.weight), b.string, W::value(b.weight));
}

impl<W: SemiringLaws> SemiringLaws for GallicWeightRestrict<W> {
    type V = Series<W::V>;

    open spec fn value(a: Option<ItemM<W::M>>) -> Series<W::V> {
        option_value::<W>(a)
    }

    open spec fn sum(a: Series<W::V>, b: Series<W::V>) -> Series<W::V> {
        series_sum::<W>(a, b)
    }

    open spec fn product(a: Series<W::V>, b: Series<W::V>) -> Series<W::V> {
        series_product::<W>(a, b)
    }

    proof fn law_plus(a: Option<ItemM<W::M>>, b: Option<ItemM<W::M>>) {
        let (f, g) = (option_value::<W>(a), option_value::<W>(b));
        lemma_series_sum::<W>(f, g, g);
        lemma_series_sum::<W>(g, f, f);
        if let (Some(x), Some(y)) = (a, b) {
            if x.string == y.string {
                W::law_plus(x.weight, y.weight);
                lemma_monomial_sum::<W>(x.string, W::value(x.weight), W::value(y.weight));
            }
        }
    }

    proof fn law_times(a: Option<ItemM<W::M>>, b: Option<ItemM<W::M>>) {
        match (a, b) {
            (Some(x), Some(y)) => {
                lemma_item_times::<W>(x, y);
            },
            _ => {
                lemma_series_product_zero::<W>(option_value::<W>(a));
                lemma_series_product_zero::<W>(option_value::<W>(b));
            },
        }
    }

    proof fn law_sum_associative(a: Series<W::V>, b: Series<W::V>, c: Series<W::V>) {
        lemma_series_sum::<W>(a, b, c);
    }

    proof fn law_sum_commutative(a: Series<W::V>, b: Series<W::V>) {
        lemma_series_sum::<W>(a, b, b);
    }

    proof fn law_sum_zero(a: Series<W::V>) {
        lemma_series_sum::<W>(a, a, a);
    }

    proof fn law_product_associative(a: Series<W::V>, b: Series<W::V>, c: Series<W::V>) {
        lemma_series_product_associative::<W>(a, b, c);
    }

    proof fn law_product_one(a: Series<W::V>) {
        lemma_series_product_one::<W>(a);
    }

    proof fn law_product_zero(a: Series<W::V>) {
        lemma_series_product_zero::<W>(a);
    }

    proof fn law_distributive(a: Series<W::V>, b: Series<W::V>, c: Series<W::V>) {
        lemma_series_distributive::<W>(a, b, c);
    }
}

impl<W: ExactWeights> ExactWeights for GallicWeightRestrict<W> {

}

/// Behind weights of which the better is kept stands the algebra of the weights
/// alone.
impl<W: SelectiveSum> SemiringLaws for GallicWeightMin<W> {
    type V = W::V;

    open spec fn value(a: Option<ItemM<W::M>>) -> W::V {
        W::value(weight_or_zero::<W>(a))
    }

    open spec fn sum(a: W::V, b: W::V) -> W::V {
        W::sum(a, b)
    }

    open spec fn product(a: W::V, b: W::V) -> W::V {
        W::product(a, b)
    }

    proof fn law_plus(a: Option<ItemM<W::M>>, b: Option<ItemM<W::M>>) {
        W::law_plus(weight_or_zero::<W>(a), weight_or_zero::<W>(b));
        W::law_selects(weight_or_zero::<W>(a), weight_or_zero::<W>(b));
    }

    proof fn law_times(a: Option<ItemM<W::M>>, b: Option<ItemM<W::M>>) {
        W::law_times(weight_or_zero::<W>(a), weight_or_zero::<W>(b));
        W::law_product_zero(W::value(weight_or_zero::<W>(a)));
        W::law_product_zero(W::value(weight_or_zero::<W>(b)));
    }

    proof fn law_sum_associative(a: W::V, b: W::V, c: W::V) {
        W::law_sum_associative(a, b, c);
    }

    proof fn law_sum_commutative(a: W::V, b: W::V) {
        W::law_sum_commutative(a, b);
    }

    proof fn law_sum_zero(a: W::V) {
        W::law_sum_zero(a);
    }

    proof fn law_product_associative(a: W::V, b: W::V, c: W::V) {
        W::law_product_associative(a, b, c);
    }

    proof fn law_product_one(a: W::V) {
        W::law_product_one(a);
    }

    proof fn law_product_zero(a: W::V) {
        W::law_product_zero(a);
    }

    proof fn law_distributive(a: W::V, b: W::V, c: W::V) {
        W::law_distributive(a, b, c);
    }
}

impl<W: SelectiveSum + ExactWeights> ExactWeights for GallicWeightMin<W> {

}

pub proof fn lemma_list_push_value<W: SemiringLaws>(list: Seq<ItemM<W::M>>, item: ItemM<W::M>)
    ensures
        list_push::<W>(list, item) matches Ok(after) ==> list_value::<W>(after) == series_sum::<
            W,
        >(list_value::<W>(list), item_value::<W>(item)),
{
    if let Ok(after) = list_push::<W>(list, item) {
        if list.len() == 0 || list.last().string != item.string {
            assert(after.drop_last() =~= list);
        } else {
            let last = list.last();
            assert(after.drop_last() =~= list.drop_last());
            W::law_plus(last.weight, item.weight);
            lemma_monomial_sum::<W>(last.string, W::value(last.weight), W::value(item.weight));
            lemma_series_sum::<W>(
                list_value::<W>(list.drop_last()),
                item_value::<W>(last),
                item_value::<W>(item),
            );
        }
    }
}

proof fn lemma_list_of_value<W: SemiringLaws>(items: Seq<ItemM<W::M>>)
    ensures
        list_of::<W>(items) matches Ok(list) ==> list_value::<W>(list) == list_value::<W>(items),
    decreases items.len(),
{
    if items.len() > 0 {
        lemma_list_of_value::<W>(items.drop_last());
        if let Ok(list) = list_of::<W>(items.drop_last()) {
            lemma_list_push_value::<W>(list, items.last());
        }
    }
}

proof fn lemma_list_value_concat<W: SemiringLaws>(a: Seq<ItemM<W::M>>, b: Seq<ItemM<W::M>>)
    ensures
        list_value::<W>(a + b) == series_sum::<W>(list_value::<W>(a), list_value::<W>(b)),
    decreases b.len(),
{
    let f = list_value::<W>(a);
    if b.len() == 0 {
        assert(a + b =~= a);
        lemma_series_sum::<W>(f, list_value::<W>(b), f);
        lemma_series_sum::<W>(list_value::<W>(b), f, f);
    } else {
        lemma_list_value_concat::<W>(a, b.drop_last());
        assert((a + b).drop_last() =~= a + b.drop_last());
        lemma_series_sum::<W>(f, list_value::<W>(b.drop_last()), item_value::<W>(b.last()));
    }
}

pub proof fn lemma_list_value_one<W: SemiringLaws>(x: ItemM<W::M>)
    ensures
        list_value::<W>(seq![x]) == item_value::<W>(x),
{
    assert(seq![x].drop_last() =~= Seq::<ItemM<W::M>>::empty());
    assert(list_value::<W>(seq![x].drop_last()) == series_zero::<W>());
    lemma_series_sum::<W>(item_value::<W>(x), item_value::<W>(x), item_value::<W>(x));
}

proof fn lemma_list_value_front<W: SemiringLaws>(a: Seq<ItemM<W::M>>)
    requires
        a.len() > 0,
    ensures
        list_value::<W>(a) == series_sum::<W>(
            item_value::<W>(a[0]),
            list_value::<W>(a.drop_first()),
        ),
{
    assert(a =~= seq![a[0]] + a.drop_first());
    lemma_list_value_concat::<W>(seq![a[0]], a.drop_first());
    lemma_list_value_one::<W>(a[0]);
}

proof fn lemma_interleave_value<W: SemiringLaws>(a: Seq<ItemM<W::M>>, b: Seq<ItemM<W::M>>)
    ensures
        list_value::<W>(interleave(a, b)) == series_sum::<W>(
            list_value::<W>(a),
            list_value::<W>(b),
        ),
    decreases a.len() + b.len(),
{
    let (f, g) = (list_value::<W>(a), list_value::<W>(b));
    if a.len() == 0 {
        lemma_series_sum::<W>(g, f, f);
    } else if b.len() == 0 {
        lemma_series_sum::<W>(f, g, g);
    } else if string_less(a[0].string, b[0].string) {
        let rest = interleave(a.drop_first(), b);
        lemma_interleave_value::<W>(a.drop_first(), b);
        lemma_list_value_front::<W>(a);
        lemma_list_value_concat::<W>(seq![a[0]], rest);
        lemma_list_value_one::<W>(a[0]);
        lemma_series_sum::<W>(item_value::<W>(a[0]), list_value::<W>(a.drop_first()), g);
    } else {
        let rest = interleave(a, b.drop_first());
        let x = item_value::<W>(b[0]);
        let h = list_value::<W>(b.drop_first());
        lemma_interleave_value::<W>(a, b.drop_first());
        lemma_list_value_front::<W>(b);
        lemma_list_value_concat::<W>(seq![b[0]], rest);
        lemma_list_value_one::<W>(b[0]);
        lemma_series_sum::<W>(x, f, h);
        lemma_series_sum::<W>(f, x, h);
    }
}

pub proof fn lemma_list_plus_value<W: SemiringLaws>(a: Seq<ItemM<W::M>>, b: Seq<ItemM<W::M>>)
    ensures
        list_plus::<W>(a, b) matches Ok(c) ==> list_value::<W>(c) == series_sum::<W>(
            list_value::<W>(a),
            list_value::<W>(b),
        ),
{
    let (f, g) = (list_value::<W>(a), list_value::<W>(b));
    if a.len() == 0 {
        lemma_series_sum::<W>(g, f, f);
    } else if b.len() == 0 {
        lemma_series_sum::<W>(f, g, g);
    } else {
        lemma_interleave_value::<W>(a, b);
        lemma_list_of_value::<W>(interleave(a, b));
    }
}

proof fn lemma_row_times_value<W: SemiringLaws>(x: ItemM<W::M>, b: Seq<ItemM<W::M>>)
    ensures
        row_times::<W>(x, b) matches Ok(c) ==> list_value::<W>(c) == series_product::<W>(
            item_value::<W>(x),
            list_value::<W>(b),
        ),
    decreases b.len(),
{
    let f = item_value::<W>(x);
    if b.len() == 0 {
        lemma_series_product_zero::<W>(f);
    } else {
        lemma_row_times_value::<W>(x, b.drop_last());
        if let Ok(list) = row_times::<W>(x, b.drop_last()) {
            lemma_item_times::<W>(x, b.last());
            if let Ok(item) = item_times::<W>(x, b.last()) {
                lemma_list_push_value::<W>(list, item);
                lemma_series_distributive::<W>(
                    f,
                    list_value::<W>(b.drop_last()),
                    item_value::<W>(b.last()),
                );
            }
        }
    }
}

proof fn lemma_list_times_value<W: SemiringLaws>(a: Seq<ItemM<W::M>>, b: Seq<ItemM<W::M>>)
    ensures
        list_times::<W>(a, b) matches Ok(c) ==> list_value::<W>(c) == series_product::<W>(
            list_value::<W>(a),
            list_value::<W>(b),
        ),
    decreases a.len(),
{
    let g = list_value::<W>(b);
    if a.len() == 0 {
        lemma_series_product_zero::<W>(g);
    } else if b.len() == 0 {
        lemma_series_product_zero::<W>(list_value::<W>(a));
    } else {
        lemma_list_times_value::<W>(a.drop_last(), b);
        lemma_row_times_value::<W>(a.last(), b);
        if let Ok(list) = list_times::<W>(a.drop_last(), b) {
            if let Ok(row) = row_times::<W>(a.last(), b) {
                lemma_list_plus_value::<W>(list, row);
                lemma_series_distributive::<W>(
                    list_value::<W>(a.drop_last()),
                    item_value::<W>(a.last()),
                    g,
                );
            }
        }
    }
}

impl<W: SemiringLaws> SemiringLaws for GallicWeight<W> {
    type V = Series<W::V>;

    open spec fn value(a: Seq<ItemM<W::M>>) -> Series<W::V> {
        list_value::<W>(a)
    }

    open spec fn sum(a: Series<W::V>, b: Series<W::V>) -> Series<W::V> {
        series_sum::<W>(a, b)
    }

    open spec fn product(a: Series<W::V>, b: Series<W::V>) -> Series<W::V> {
        series_product::<W>(a, b)
    }

    proof fn law_plus(a: Seq<ItemM<W::M>>, b: Seq<ItemM<W::M>>) {
        lemma_list_plus_value::<W>(a, b);
    }

    proof fn law_times(a: Seq<ItemM<W::M>>, b: Seq<ItemM<W::M>>) {
        lemma_list_times_value::<W>(a, b);
    }

    proof fn law_sum_associative(a: Series<W::V>, b: Series<W::V>, c: Series<W::V>) {
        lemma_series_sum::<W>(a, b, c);
    }

    proof fn law_sum_commutative(a: Series<W::V>, b: Series<W::V>) {
        lemma_series_sum::<W>(a, b, b);
    }

    proof fn law_sum_zero(a: Series<W::V>) {
        lemma_series_sum::<W>(a, a, a);
    }

    proof fn law_product_associative(a: Series<W::V>, b: Series<W::V>, c: Series<W::V>) {
        lemma_series_product_associative::<W>(a, b, c);
    }

    proof fn law_product_one(a: Series<W::V>) {
        let one = ItemM::<W::M> { string: Seq::empty(), weight: W::one_model() };
        lemma_list_value_one::<W>(one);
        lemma_series_product_one::<W>(a);
    }

    proof fn law_product_zero(a: Series<W::V>) {
        lemma_series_product_zero::<W>(a);
    }

    proof fn law_distributive(a: Series<W::V>, b: Series<W::V>, c: Series<W::V>) {
        lemma_series_distributive::<W>(a, b, c);
    }
}

impl<W: ExactWeights> ExactWeights for GallicWeight<W> {

}

/// A step that does not change weights does not change weights that carry strings.
pub proof fn law_gallic_steps_are_exact<W: WeightQuantize>(delta: W::Delta)
    requires
        exact_step::<W>(delta),
    ensures
        exact_step::<GallicWeightRestrict<W>>(delta),
        exact_step::<GallicWeightMin<W>>(delta),
        exact_step::<GallicWeight<W>>(delta),
{
    assert forall|a: Option<ItemM<W::M>>| (#[trigger] GallicWeightRestrict::<W>::quantize_model(
        a,
        delta,
    )) matches Ok(b) ==> b == a by {
        if let Some(x) = a {
            assert(W::quantize_model(x.weight, delta) matches Ok(w) ==> w == x.weight);
        }
    }
    assert forall|a: Option<ItemM<W::M>>| (#[trigger] GallicWeightMin::<W>::quantize_model(
        a,
        delta,
    )) matches Ok(b) ==> b == a by {
        if let Some(x) = a {
            assert(W::quantize_model(x.weight, delta) matches Ok(w) ==> w == x.weight);
        }
    }
    assert forall|a: Seq<ItemM<W::M>>| (#[trigger] GallicWeight::<W>::quantize_model(
        a,
        delta,
    )) matches Ok(b) ==> b == a by {
        lemma_list_quantize_exact::<W>(a, delta);
    }
}

proof fn lemma_list_quantize_exact<W: WeightQuantize>(a: Seq<ItemM<W::M>>, delta: W::Delta)
    requires
        exact_step::<W>(delta),
    ensures
        list_quantize::<W>(a, delta) matches Ok(b) ==> b == a,
    decreases a.len(),
{
    if a.len() > 0 {
        lemma_list_quantize_exact::<W>(a.drop_last(), delta);
        assert(W::quantize_model(a.last().weight, delta) matches Ok(w) ==> w == a.last().weight);
        assert(a =~= a.drop_last().push(a.last()));
    } else {
        assert(a =~= Seq::empty());
    }
}

} // verus!
