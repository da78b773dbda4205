//! What is factored out of the weights that leave a subset on one label.

use crate::error::FstError;
use crate::semirings::gallic::{
    common_first, first_of, item_option, GallicItem, GallicWeightMin, GallicWeightRestrict, ItemM,
};
use crate::semirings::gallic_union::{items_model, GallicWeight};
use crate::semirings::semiring::{Semiring, WeaklyDivisibleSemiring};
use vstd::prelude::*;

verus! {

/// A way to find a common divisor of two weights.
pub trait CommonDivisor<W: Semiring> {
    /// Whether weights that lead to the same state may be summed before the
    /// divisor is computed.
    spec fn merge_before_divisor_model() -> bool;

    spec fn common_divisor_model(a: W::M, b: W::M) -> Result<W::M, FstError>;

    fn merge_before_divisor() -> (r: bool)
        ensures
            r == Self::merge_before_divisor_model(),
    ;

    fn common_divisor(a: &W, b: &W) -> (r: Result<W, FstError>)
        ensures
            match r {
                Ok(v) => Self::common_divisor_model(a.model(), b.model()) == Ok::<W::M, FstError>(
                    v.model(),
                ),
                Err(e) => Self::common_divisor_model(a.model(), b.model()) == Err::<
                    W::M,
                    FstError,
                >(e),
            },
    ;
}

/// The sum of the two weights.
pub struct DefaultCommonDivisor {}

impl<W: WeaklyDivisibleSemiring> CommonDivisor<W> for DefaultCommonDivisor {
    open spec fn merge_before_divisor_model() -> bool {
        true
    }

    open spec fn common_divisor_model(a: W::M, b: W::M) -> Result<W::M, FstError> {
        W::plus_model(a, b)
    }

    fn merge_before_divisor() -> (r: bool) {
        true
    }

    fn common_divisor(a: &W, b: &W) -> (r: Result<W, FstError>) {
        a.plus(b)
    }
}

/// Of weights that carry strings: the label that both strings begin with, and the
/// sum of the weights.
pub struct GallicCommonDivisor {}

/// The common divisor of an optional item and an item.
pub open spec fn item_divisor<W: Semiring>(a: Option<ItemM<W::M>>, b: ItemM<W::M>) -> Result<
    ItemM<W::M>,
    FstError,
> {
    let (string, first_weight) = match a {
        None => (first_of(b.string), W::zero_model()),
        Some(x) => (common_first(x.string, b.string), x.weight),
    };
    match W::plus_model(first_weight, b.weight) {
        Err(e) => Err(e),
        Ok(weight) => Ok(ItemM { string, weight }),
    }
}

/// The common divisor of two optional items.
pub open spec fn option_divisor<W: Semiring>(
    a: Option<ItemM<W::M>>,
    b: Option<ItemM<W::M>>,
) -> Result<Option<ItemM<W::M>>, FstError> {
    match (a, b) {
        (None, None) => Ok(None),
        (_, Some(y)) => match item_divisor::<W>(a, y) {
            Err(e) => Err(e),
            Ok(item) => Ok(Some(item)),
        },
        (Some(x), None) => match W::plus_model(x.weight, W::zero_model()) {
            Err(e) => Err(e),
            Ok(weight) => Ok(Some(ItemM { string: first_of(x.string), weight })),
        },
    }
}

/// The common divisor of all items of a list.
pub open spec fn list_divisor<W: Semiring>(items: Seq<ItemM<W::M>>) -> Result<
    Option<ItemM<W::M>>,
    FstError,
>
    decreases items.len(),
{
    if items.len() == 0 {
        Ok(None)
    } else {
        match list_divisor::<W>(items.drop_last()) {
            Err(e) => Err(e),
            Ok(d) => match item_divisor::<W>(d, items.last()) {
                Err(e) => Err(e),
                Ok(item) => Ok(Some(item)),
            },
        }
    }
}

/// The list with an optional item.
pub open spec fn option_list<M>(a: Option<ItemM<M>>) -> Seq<ItemM<M>> {
    match a {
        None => Seq::empty(),
        Some(x) => seq![x],
    }
}

fn divide_out_item<W: Semiring>(a: &Option<GallicItem<W>>, b: &GallicItem<W>) -> (r: Result<
    GallicItem<W>,
    FstError,
>)
    ensures
        match r {
            Ok(v) => item_divisor::<W>(item_option(*a), b.model()) == Ok::<ItemM<W::M>, FstError>(
                v.model(),
            ),
            Err(e) => item_divisor::<W>(item_option(*a), b.model()) == Err::<ItemM<W::M>, FstError>(
                e,
            ),
        },
{
    match a {
        None => match W::zero().plus(&b.weight) {
            Ok(weight) => Ok(b.front(weight)),
            Err(e) => Err(e),
        },
        Some(x) => match x.weight.plus(&b.weight) {
            Ok(weight) => Ok(x.common_front(b, weight)),
            Err(e) => Err(e),
        },
    }
}

fn divide_out_option<W: Semiring>(
    a: &Option<GallicItem<W>>,
    b: &Option<GallicItem<W>>,
) -> (r: Result<Option<GallicItem<W>>, FstError>)
    ensures
        match r {
            Ok(v) => option_divisor::<W>(item_option(*a), item_option(*b)) == Ok::<
                Option<ItemM<W::M>>,
                FstError,
            >(item_option(v)),
            Err(e) => option_divisor::<W>(item_option(*a), item_option(*b)) == Err::<
                Option<ItemM<W::M>>,
                FstError,
            >(e),
        },
{
    match (a, b) {
        (None, None) => Ok(None),
        (_, Some(y)) => match divide_out_item(a, y) {
            Ok(item) => Ok(Some(item)),
            Err(e) => Err(e),
        },
        (Some(x), None) => match x.weight.plus(&W::zero()) {
            Ok(weight) => Ok(Some(x.front(weight))),
            Err(e) => Err(e),
        },
    }
}

impl<W: WeaklyDivisibleSemiring> CommonDivisor<GallicWeightRestrict<W>> for GallicCommonDivisor {
    open spec fn merge_before_divisor_model() -> bool {
        false
    }

    open spec fn common_divisor_model(
        a: Option<ItemM<W::M>>,
        b: Option<ItemM<W::M>>,
    ) -> Result<Option<ItemM<W::M>>, FstError> {
        option_divisor::<W>(a, b)
    }

    fn merge_before_divisor() -> (r: bool) {
        false
    }

    fn common_divisor(a: &GallicWeightRestrict<W>, b: &GallicWeightRestrict<W>) -> (r: Result<
        GallicWeightRestrict<W>,
        FstError,
    >) {
        match divide_out_option(&a.item, &b.item) {
            Ok(item) => Ok(GallicWeightRestrict { item }),
            Err(e) => Err(e),
        }
    }
}

impl<W: WeaklyDivisibleSemiring> CommonDivisor<GallicWeightMin<W>> for GallicCommonDivisor {
    open spec fn merge_before_divisor_model() -> bool {
        false
    }

    open spec fn common_divisor_model(
        a: Option<ItemM<W::M>>,
        b: Option<ItemM<W::M>>,
    ) -> Result<Option<ItemM<W::M>>, FstError> {
        option_divisor::<W>(a, b)
    }

    fn merge_before_divisor() -> (r: bool) {
        false
    }

    fn common_divisor(a: &GallicWeightMin<W>, b: &GallicWeightMin<W>) -> (r: Result<
        GallicWeightMin<W>,
        FstError,
    >) {
        match divide_out_option(&a.item, &b.item) {
            Ok(item) => Ok(GallicWeightMin { item }),
            Err(e) => Err(e),
        }
    }
}

proof fn lemma_list_divisor_fails<W: Semiring>(items: Seq<ItemM<W::M>>, i: int)
    requires
        0 <= i <= items.len(),
    ensures
        list_divisor::<W>(items.take(i)) matches Err(e) ==> list_divisor::<W>(items) == Err::<
            Option<ItemM<W::M>>,
            FstError,
        >(e),
    decreases items.len() - i,
{
    if i < items.len() {
        assert(items.take(i + 1).drop_last() =~= items.take(i));
        lemma_list_divisor_fails::<W>(items, i + 1);
    } else {
        assert(items.take(i) =~= items);
    }
}

impl<W: WeaklyDivisibleSemiring> CommonDivisor<GallicWeight<W>> for GallicCommonDivisor {
    open spec fn merge_before_divisor_model() -> bool {
        false
    }

    open spec fn common_divisor_model(a: Seq<ItemM<W::M>>, b: Seq<ItemM<W::M>>) -> Result<
        Seq<ItemM<W::M>>,
        FstError,
    > {
        match list_divisor::<W>(a + b) {
            Err(e) => Err(e),
            Ok(d) => Ok(option_list(d)),
        }
    }

    fn merge_before_divisor() -> (r: bool) {
        false
    }

    fn common_divisor(a: &GallicWeight<W>, b: &GallicWeight<W>) -> (r: Result<
        GallicWeight<W>,
        FstError,
    >) {
        let ghost all = a.model() + b.model();
        let n: usize = a.items.len();
        let mut d: Option<GallicItem<W>> = None;
        let mut i: usize = 0;
        assert(all.take(0) =~= Seq::empty());
        while i < n
            invariant
                i <= n,
                n == a.items.len(),
                all == a.model() + b.model(),
                list_divisor::<W>(all.take(i as int)) == Ok::<Option<ItemM<W::M>>, FstError>(
                    item_option(d),
                ),
            decreases n - i,
        {
            proof {
                assert(all.take(i + 1).drop_last() =~= all.take(i as int));
                assert(all.take(i + 1).last() == a.items@[i as int].model());
                lemma_list_divisor_fails::<W>(all, i + 1);
            }
            d = match divide_out_item(&d, &a.items[i]) {
                Ok(item) => Some(item),
                Err(e) => {
                    return Err(e);
                },
            };
            i += 1;
        }
        let m: usize = b.items.len();
        let mut j: usize = 0;
        while j < m
            invariant
                j <= m,
                m == b.items.len(),
                n == a.items.len(),
                all == a.model() + b.model(),
                list_divisor::<W>(all.take(n + j)) == Ok::<Option<ItemM<W::M>>, FstError>(
                    item_option(d),
                ),
            decreases m - j,
        {
            proof {
                assert(all.take(n + j + 1).drop_last() =~= all.take(n + j));
                assert(all.take(n + j + 1).last() == b.items@[j as int].model());
                lemma_list_divisor_fails::<W>(all, n + j + 1);
            }
            d = match divide_out_item(&d, &b.items[j]) {
                Ok(item) => Some(item),
                Err(e) => {
                    return Err(e);
                },
            };
            j += 1;
        }
        assert(all.take(n + m) =~= all);
        let ghost dm = item_option(d);
        let mut items: Vec<GallicItem<W>> = Vec::new();
        if let Some(item) = d {
            items.push(item);
        }
        assert(items_model(items@) =~= option_list(dm));
        Ok(GallicWeight { items })
    }
}

} // verus!
