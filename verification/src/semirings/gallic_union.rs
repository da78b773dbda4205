//! Sets of output strings, each with a weight.

use crate::error::FstError;
use crate::semirings::gallic::{
    comes_before, gallic_properties, item_divide, item_quantize, item_times, string_less,
    GallicItem, ItemM,
};
use crate::semirings::semiring::{
    DivideType, Semiring, SemiringProperties, WeaklyDivisibleSemiring, WeightQuantize, IDEMPOTENT,
    LEFT_SEMIRING, RIGHT_SEMIRING,
};
use vstd::prelude::*;

verus! {

/// A set of strings, each with a weight, kept as an ordered list. Summing keeps
/// every string.
#[derive(Debug)]
pub struct GallicWeight<W> {
    pub items: Vec<GallicItem<W>>,
}

/// The mathematical value of a list of items.
pub open spec fn items_model<W: Semiring>(items: Seq<GallicItem<W>>) -> Seq<ItemM<W::M>> {
    Seq::new(items.len(), |i: int| items[i].model())
}

/// The list with one more item. One that writes the same as the last is summed
/// with it.
pub open spec fn list_push<W: Semiring>(list: Seq<ItemM<W::M>>, item: ItemM<W::M>) -> Result<
    Seq<ItemM<W::M>>,
    FstError,
> {
    if list.len() == 0 || list.last().string != item.string {
        Ok(list.push(item))
    } else {
        match W::plus_model(list.last().weight, item.weight) {
            Err(e) => Err(e),
            Ok(weight) => Ok(
                list.update(list.len() - 1, ItemM { string: list.last().string, weight }),
            ),
        }
    }
}

/// The list that comes out when the items are put in one after the other.
pub open spec fn list_of<W: Semiring>(items: Seq<ItemM<W::M>>) -> Result<
    Seq<ItemM<W::M>>,
    FstError,
>
    decreases items.len(),
{
    if items.len() == 0 {
        Ok(Seq::empty())
    } else {
        match list_of::<W>(items.drop_last()) {
            Err(e) => Err(e),
            Ok(list) => list_push::<W>(list, items.last()),
        }
    }
}

/// The items of two ordered lists in order; of two that write the same, that of
/// the second list comes first.
pub open spec fn interleave<M>(a: Seq<ItemM<M>>, b: Seq<ItemM<M>>) -> Seq<ItemM<M>>
    decreases a.len() + b.len(),
{
    if a.len() == 0 {
        b
    } else if b.len() == 0 {
        a
    } else if string_less(a[0].string, b[0].string) {
        seq![a[0]] + interleave(a.drop_first(), b)
    } else {
        seq![b[0]] + interleave(a, b.drop_first())
    }
}

/// The sum of two lists.
pub open spec fn list_plus<W: Semiring>(a: Seq<ItemM<W::M>>, b: Seq<ItemM<W::M>>) -> Result<
    Seq<ItemM<W::M>>,
    FstError,
> {
    if a.len() == 0 {
        Ok(b)
    } else if b.len() == 0 {
        Ok(a)
    } else {
        list_of::<W>(interleave(a, b))
    }
}

/// An item times each item of a list.
pub open spec fn row_times<W: Semiring>(x: ItemM<W::M>, b: Seq<ItemM<W::M>>) -> Result<
    Seq<ItemM<W::M>>,
    FstError,
>
    decreases b.len(),
{
    if b.len() == 0 {
        Ok(Seq::empty())
    } else {
        match row_times::<W>(x, b.drop_last()) {
            Err(e) => Err(e),
            Ok(list) => match item_times::<W>(x, b.last()) {
                Err(e) => Err(e),
                Ok(item) => list_push::<W>(list, item),
            },
        }
    }
}

/// The product of two lists: each item of one times each item of the other.
pub open spec fn list_times<W: Semiring>(a: Seq<ItemM<W::M>>, b: Seq<ItemM<W::M>>) -> Result<
    Seq<ItemM<W::M>>,
    FstError,
>
    decreases a.len(),
{
    if a.len() == 0 || b.len() == 0 {
        Ok(Seq::empty())
    } else {
        match list_times::<W>(a.drop_last(), b) {
            Err(e) => Err(e),
            Ok(list) => match row_times::<W>(a.last(), b) {
                Err(e) => Err(e),
                Ok(row) => list_plus::<W>(list, row),
            },
        }
    }
}

/// An item divided by each item of a list.
pub open spec fn one_by_each<W: WeaklyDivisibleSemiring>(
    x: ItemM<W::M>,
    b: Seq<ItemM<W::M>>,
    side: DivideType,
) -> Result<Seq<ItemM<W::M>>, FstError>
    decreases b.len(),
{
    if b.len() == 0 {
        Ok(Seq::empty())
    } else {
        match one_by_each::<W>(x, b.drop_last(), side) {
            Err(e) => Err(e),
            Ok(list) => match item_divide::<W>(x, b.last(), side) {
                Err(e) => Err(e),
                Ok(item) => list_push::<W>(list, item),
            },
        }
    }
}

/// Each item of a list divided by an item.
pub open spec fn each_by_one<W: WeaklyDivisibleSemiring>(
    a: Seq<ItemM<W::M>>,
    y: ItemM<W::M>,
    side: DivideType,
) -> Result<Seq<ItemM<W::M>>, FstError>
    decreases a.len(),
{
    if a.len() == 0 {
        Ok(Seq::empty())
    } else {
        match each_by_one::<W>(a.drop_last(), y, side) {
            Err(e) => Err(e),
            Ok(list) => match item_divide::<W>(a.last(), y, side) {
                Err(e) => Err(e),
                Ok(item) => list_push::<W>(list, item),
            },
        }
    }
}

/// The quotient of two lists, one of which has to hold a single item.
pub open spec fn list_divide<W: WeaklyDivisibleSemiring>(
    a: Seq<ItemM<W::M>>,
    b: Seq<ItemM<W::M>>,
    side: DivideType,
) -> Result<Seq<ItemM<W::M>>, FstError> {
    if a.len() == 0 || b.len() == 0 {
        Ok(Seq::empty())
    } else if a.len() == 1 {
        one_by_each::<W>(a[0], b, side)
    } else if b.len() == 1 {
        each_by_one::<W>(a, b[0], side)
    } else {
        Err(FstError::NoSingleString)
    }
}

/// The list with every weight rounded.
pub open spec fn list_quantize<W: WeightQuantize>(a: Seq<ItemM<W::M>>, delta: W::Delta) -> Result<
    Seq<ItemM<W::M>>,
    FstError,
>
    decreases a.len(),
{
    if a.len() == 0 {
        Ok(Seq::empty())
    } else {
        match list_quantize::<W>(a.drop_last(), delta) {
            Err(e) => Err(e),
            Ok(list) => match item_quantize::<W>(a.last(), delta) {
                Err(e) => Err(e),
                Ok(item) => Ok(list.push(item)),
            },
        }
    }
}

proof fn lemma_list_of_fails<W: Semiring>(items: Seq<ItemM<W::M>>, i: int)
    requires
        0 <= i <= items.len(),
    ensures
        list_of::<W>(items.take(i)) matches Err(e) ==> list_of::<W>(items) == Err::<
            Seq<ItemM<W::M>>,
            FstError,
        >(e),
    decreases items.len() - i,
{
    if i < items.len() {
        assert(items.take(i + 1).drop_last() =~= items.take(i));
        lemma_list_of_fails::<W>(items, i + 1);
    } else {
        assert(items.take(i) =~= items);
    }
}

proof fn lemma_row_times_fails<W: Semiring>(x: ItemM<W::M>, b: Seq<ItemM<W::M>>, i: int)
    requires
        0 <= i <= b.len(),
    ensures
        row_times::<W>(x, b.take(i)) matches Err(e) ==> row_times::<W>(x, b) == Err::<
            Seq<ItemM<W::M>>,
            FstError,
        >(e),
    decreases b.len() - i,
{
    if i < b.len() {
        assert(b.take(i + 1).drop_last() =~= b.take(i));
        lemma_row_times_fails::<W>(x, b, i + 1);
    } else {
        assert(b.take(i) =~= b);
    }
}

proof fn lemma_list_times_fails<W: Semiring>(a: Seq<ItemM<W::M>>, b: Seq<ItemM<W::M>>, i: int)
    requires
        0 <= i <= a.len(),
        b.len() > 0,
    ensures
        list_times::<W>(a.take(i), b) matches Err(e) ==> list_times::<W>(a, b) == Err::<
            Seq<ItemM<W::M>>,
            FstError,
        >(e),
    decreases a.len() - i,
{
    if i < a.len() {
        assert(a.take(i + 1).drop_last() =~= a.take(i));
        lemma_list_times_fails::<W>(a, b, i + 1);
    } else {
        assert(a.take(i) =~= a);
    }
}

proof fn lemma_one_by_each_fails<W: WeaklyDivisibleSemiring>(
    x: ItemM<W::M>,
    b: Seq<ItemM<W::M>>,
    side: DivideType,
    i: int,
)
    requires
        0 <= i <= b.len(),
    ensures
        one_by_each::<W>(x, b.take(i), side) matches Err(e) ==> one_by_each::<W>(x, b, side)
            == Err::<Seq<ItemM<W::M>>, FstError>(e),
    decreases b.len() - i,
{
    if i < b.len() {
        assert(b.take(i + 1).drop_last() =~= b.take(i));
        lemma_one_by_each_fails::<W>(x, b, side, i + 1);
    } else {
        assert(b.take(i) =~= b);
    }
}

proof fn lemma_each_by_one_fails<W: WeaklyDivisibleSemiring>(
    a: Seq<ItemM<W::M>>,
    y: ItemM<W::M>,
    side: DivideType,
    i: int,
)
    requires
        0 <= i <= a.len(),
    ensures
        each_by_one::<W>(a.take(i), y, side) matches Err(e) ==> each_by_one::<W>(a, y, side)
            == Err::<Seq<ItemM<W::M>>, FstError>(e),
    decreases a.len() - i,
{
    if i < a.len() {
        assert(a.take(i + 1).drop_last() =~= a.take(i));
        lemma_each_by_one_fails::<W>(a, y, side, i + 1);
    } else {
        assert(a.take(i) =~= a);
    }
}

proof fn lemma_list_quantize_fails<W: WeightQuantize>(
    a: Seq<ItemM<W::M>>,
    delta: W::Delta,
    i: int,
)
    requires
        0 <= i <= a.len(),
    ensures
        list_quantize::<W>(a.take(i), delta) matches Err(e) ==> list_quantize::<W>(a, delta)
            == Err::<Seq<ItemM<W::M>>, FstError>(e),
    decreases a.len() - i,
{
    if i < a.len() {
        assert(a.take(i + 1).drop_last() =~= a.take(i));
        lemma_list_quantize_fails::<W>(a, delta, i + 1);
    } else {
        assert(a.take(i) =~= a);
    }
}

/// Puts one more item into a list.
fn push_item<W: Semiring>(list: &mut Vec<GallicItem<W>>, item: GallicItem<W>) -> (r: Result<
    (),
    FstError,
>)
    ensures
        match r {
            Ok(_) => list_push::<W>(items_model(old(list)@), item.model()) == Ok::<
                Seq<ItemM<W::M>>,
                FstError,
            >(items_model(final(list)@)),
            Err(e) => list_push::<W>(items_model(old(list)@), item.model()) == Err::<
                Seq<ItemM<W::M>>,
                FstError,
            >(e),
        },
{
    let ghost before = items_model(list@);
    let ghost im = item.model();
    let n: usize = list.len();
    if n == 0 {
        list.push(item);
        assert(items_model(list@) =~= before.push(im));
        return Ok(());
    }
    assert(before.last() == list@[n - 1].model());
    if !list[n - 1].same_string(&item) {
        list.push(item);
        assert(items_model(list@) =~= before.push(im));
        Ok(())
    } else {
        match list[n - 1].weight.plus(&item.weight) {
            Ok(weight) => {
                let ghost wm = weight.model();
                let merged: GallicItem<W> = list[n - 1].with_weight(weight);
                list.set(n - 1, merged);
                assert(items_model(list@) =~= before.update(
                    n - 1,
                    ItemM { string: before.last().string, weight: wm },
                ));
                Ok(())
            },
            Err(e) => Err(e),
        }
    }
}

/// A second list of the same value.
fn duplicate_items<W: Semiring>(items: &Vec<GallicItem<W>>) -> (r: Vec<GallicItem<W>>)
    ensures
        items_model(r@) == items_model(items@),
{
    let mut r: Vec<GallicItem<W>> = Vec::new();
    let n: usize = items.len();
    for i in 0..n
        invariant
            n == items.len(),
            r.len() == i,
            forall|j: int| 0 <= j < i ==> (#[trigger] r@[j]).model() == items@[j].model(),
    {
        r.push(items[i].duplicate());
    }
    assert(items_model(r@) =~= items_model(items@));
    r
}

fn same_items<W: Semiring>(a: &Vec<GallicItem<W>>, b: &Vec<GallicItem<W>>) -> (r: bool)
    ensures
        r == (items_model(a@) == items_model(b@)),
{
    let n: usize = a.len();
    if n != b.len() {
        assert(items_model(a@).len() != items_model(b@).len());
        return false;
    }
    for i in 0..n
        invariant
            n == a.len(),
            n == b.len(),
            forall|j: int| 0 <= j < i ==> (#[trigger] a@[j]).model() == b@[j].model(),
    {
        if !a[i].same(&b[i]) {
            assert(items_model(a@)[i as int] != items_model(b@)[i as int]);
            return false;
        }
    }
    assert(items_model(a@) =~= items_model(b@));
    true
}

/// The sum of two lists.
fn plus_items<W: Semiring>(a: &Vec<GallicItem<W>>, b: &Vec<GallicItem<W>>) -> (r: Result<
    Vec<GallicItem<W>>,
    FstError,
>)
    ensures
        match r {
            Ok(v) => list_plus::<W>(items_model(a@), items_model(b@)) == Ok::<
                Seq<ItemM<W::M>>,
                FstError,
            >(items_model(v@)),
            Err(e) => list_plus::<W>(items_model(a@), items_model(b@)) == Err::<
                Seq<ItemM<W::M>>,
                FstError,
            >(e),
        },
{
    let ghost am = items_model(a@);
    let ghost bm = items_model(b@);
    if a.len() == 0 {
        return Ok(duplicate_items(b));
    }
    if b.len() == 0 {
        return Ok(duplicate_items(a));
    }
    let ghost all = interleave(am, bm);
    let mut list: Vec<GallicItem<W>> = Vec::new();
    let mut i: usize = 0;
    let mut j: usize = 0;
    let ghost mut done: Seq<ItemM<W::M>> = Seq::empty();
    proof {
        assert(items_model(list@) =~= Seq::empty());
        assert(am.skip(0) =~= am);
        assert(bm.skip(0) =~= bm);
        assert(all =~= done + all);
    }
    while i < a.len() || j < b.len()
        invariant
            i <= a.len(),
            j <= b.len(),
            am == items_model(a@),
            bm == items_model(b@),
            am.len() > 0,
            bm.len() > 0,
            all == interleave(am, bm),
            all == done + interleave(am.skip(i as int), bm.skip(j as int)),
            list_of::<W>(done) == Ok::<Seq<ItemM<W::M>>, FstError>(items_model(list@)),
        decreases a.len() - i + b.len() - j,
    {
        let ghost rest = interleave(am.skip(i as int), bm.skip(j as int));
        let from_a: bool = if i >= a.len() {
            false
        } else if j >= b.len() {
            true
        } else {
            comes_before(&a[i].string, &b[j].string)
        };
        let item: GallicItem<W> = if from_a {
            a[i].duplicate()
        } else {
            b[j].duplicate()
        };
        let ghost im = item.model();
        proof {
            if i < a.len() {
                assert(am.skip(i as int)[0] == am[i as int]);
                assert(am.skip(i as int).drop_first() =~= am.skip(i + 1));
            }
            if j < b.len() {
                assert(bm.skip(j as int)[0] == bm[j as int]);
                assert(bm.skip(j as int).drop_first() =~= bm.skip(j + 1));
            }
            if from_a {
                if j < b.len() {
                    assert(rest == seq![im] + interleave(am.skip(i + 1), bm.skip(j as int)));
                } else {
                    assert(bm.skip(j as int).len() == 0);
                    assert(interleave(am.skip(i + 1), bm.skip(j as int)) =~= am.skip(i + 1));
                    assert(rest =~= seq![im] + interleave(am.skip(i + 1), bm.skip(j as int)));
                }
                assert(all =~= done.push(im) + interleave(am.skip(i + 1), bm.skip(j as int)));
            } else {
                if i < a.len() {
                    assert(rest == seq![im] + interleave(am.skip(i as int), bm.skip(j + 1)));
                } else {
                    assert(am.skip(i as int).len() == 0);
                    assert(rest =~= seq![im] + interleave(am.skip(i as int), bm.skip(j + 1)));
                }
                assert(all =~= done.push(im) + interleave(am.skip(i as int), bm.skip(j + 1)));
            }
            assert(all.take(done.len() as int + 1) =~= done.push(im));
            assert(done.push(im).drop_last() =~= done);
            lemma_list_of_fails::<W>(all, done.len() as int + 1);
            done = done.push(im);
        }
        match push_item(&mut list, item) {
            Ok(_) => {},
            Err(e) => {
                return Err(e);
            },
        }
        if from_a {
            i += 1;
        } else {
            j += 1;
        }
    }
    proof {
        assert(am.skip(i as int) =~= Seq::empty());
        assert(bm.skip(j as int) =~= Seq::empty());
        assert(done =~= all);
    }
    Ok(list)
}

/// An item times each item of a list.
fn times_row<W: Semiring>(x: &GallicItem<W>, b: &Vec<GallicItem<W>>) -> (r: Result<
    Vec<GallicItem<W>>,
    FstError,
>)
    ensures
        match r {
            Ok(v) => row_times::<W>(x.model(), items_model(b@)) == Ok::<
                Seq<ItemM<W::M>>,
                FstError,
            >(items_model(v@)),
            Err(e) => row_times::<W>(x.model(), items_model(b@)) == Err::<
                Seq<ItemM<W::M>>,
                FstError,
            >(e),
        },
{
    let ghost bm = items_model(b@);
    let mut list: Vec<GallicItem<W>> = Vec::new();
    let n: usize = b.len();
    proof {
        assert(items_model(list@) =~= Seq::empty());
        assert(bm.take(0) =~= Seq::empty());
    }
    for j in 0..n
        invariant
            n == b.len(),
            bm == items_model(b@),
            row_times::<W>(x.model(), bm.take(j as int)) == Ok::<Seq<ItemM<W::M>>, FstError>(
                items_model(list@),
            ),
    {
        proof {
            assert(bm.take(j + 1).drop_last() =~= bm.take(j as int));
            assert(bm.take(j + 1).last() == b@[j as int].model());
            lemma_row_times_fails::<W>(x.model(), bm, j + 1);
        }
        let item: GallicItem<W> = match x.times(&b[j]) {
            Ok(item) => item,
            Err(e) => {
                return Err(e);
            },
        };
        match push_item(&mut list, item) {
            Ok(_) => {},
            Err(e) => {
                return Err(e);
            },
        }
    }
    assert(bm.take(n as int) =~= bm);
    Ok(list)
}

impl<W: Semiring> Semiring for GallicWeight<W> {
    type M = Seq<ItemM<W::M>>;

    open spec fn model(&self) -> Seq<ItemM<W::M>> {
        items_model(self.items@)
    }

    open spec fn zero_model() -> Seq<ItemM<W::M>> {
        Seq::empty()
    }

    open spec fn one_model() -> Seq<ItemM<W::M>> {
        seq![ItemM { string: Seq::empty(), weight: W::one_model() }]
    }

    open spec fn plus_model(a: Seq<ItemM<W::M>>, b: Seq<ItemM<W::M>>) -> Result<
        Seq<ItemM<W::M>>,
        FstError,
    > {
        list_plus::<W>(a, b)
    }

    open spec fn times_model(a: Seq<ItemM<W::M>>, b: Seq<ItemM<W::M>>) -> Result<
        Seq<ItemM<W::M>>,
        FstError,
    > {
        list_times::<W>(a, b)
    }

    open spec fn properties_model() -> SemiringProperties {
        gallic_properties(W::properties_model())
    }

    fn zero() -> (r: Self) {
        let r = GallicWeight { items: Vec::new() };
        assert(r.model() =~= Seq::empty());
        r
    }

    fn one() -> (r: Self) {
        let mut items: Vec<GallicItem<W>> = Vec::new();
        items.push(GallicItem::one());
        let r = GallicWeight { items };
        assert(r.model() =~= seq![ItemM { string: Seq::empty(), weight: W::one_model() }]);
        r
    }

    fn plus(&self, rhs: &Self) -> (r: Result<Self, FstError>) {
        match plus_items(&self.items, &rhs.items) {
            Ok(items) => Ok(GallicWeight { items }),
            Err(e) => Err(e),
        }
    }

    fn times(&self, rhs: &Self) -> (r: Result<Self, FstError>) {
        let ghost am = self.model();
        let ghost bm = rhs.model();
        let mut list: Vec<GallicItem<W>> = Vec::new();
        assert(items_model(list@) =~= Seq::empty());
        if rhs.items.len() == 0 {
            return Ok(GallicWeight { items: list });
        }
        let n: usize = self.items.len();
        assert(am.take(0) =~= Seq::empty());
        for i in 0..n
            invariant
                n == self.items.len(),
                am == self.model(),
                bm == rhs.model(),
                bm.len() > 0,
                list_times::<W>(am.take(i as int), bm) == Ok::<Seq<ItemM<W::M>>, FstError>(
                    items_model(list@),
                ),
        {
            proof {
                assert(am.take(i + 1).drop_last() =~= am.take(i as int));
                assert(am.take(i + 1).last() == self.items@[i as int].model());
                lemma_list_times_fails::<W>(am, bm, i + 1);
            }
            let row: Vec<GallicItem<W>> = match times_row(&self.items[i], &rhs.items) {
                Ok(row) => row,
                Err(e) => {
                    return Err(e);
                },
            };
            list = match plus_items(&list, &row) {
                Ok(list) => list,
                Err(e) => {
                    return Err(e);
                },
            };
        }
        assert(am.take(n as int) =~= am);
        Ok(GallicWeight { items: list })
    }

    fn properties() -> (r: SemiringProperties) {
        SemiringProperties {
            bits: W::properties().bits & (LEFT_SEMIRING | RIGHT_SEMIRING | IDEMPOTENT),
        }
    }

    fn same(&self, other: &Self) -> (b: bool) {
        same_items(&self.items, &other.items)
    }

    fn duplicate(&self) -> (r: Self) {
        GallicWeight { items: duplicate_items(&self.items) }
    }
}

impl<W: WeaklyDivisibleSemiring> WeaklyDivisibleSemiring for GallicWeight<W> {
    open spec fn divide_model(
        a: Seq<ItemM<W::M>>,
        b: Seq<ItemM<W::M>>,
        side: DivideType,
    ) -> Result<Seq<ItemM<W::M>>, FstError> {
        list_divide::<W>(a, b, side)
    }

    fn divide(&self, rhs: &Self, side: DivideType) -> (r: Result<Self, FstError>) {
        let ghost am = self.model();
        let ghost bm = rhs.model();
        let mut list: Vec<GallicItem<W>> = Vec::new();
        proof {
            assert(items_model(list@) =~= Seq::empty());
            assert(am.take(0) =~= Seq::empty());
            assert(bm.take(0) =~= Seq::empty());
        }
        let n: usize = self.items.len();
        let m: usize = rhs.items.len();
        if n == 0 || m == 0 {
            return Ok(GallicWeight { items: list });
        }
        if n == 1 {
            assert(am[0] == self.items@[0].model());
            for j in 0..m
                invariant
                    m == rhs.items.len(),
                    n == 1,
                    n == self.items.len(),
                    m > 0,
                    am == self.model(),
                    bm == rhs.model(),
                    am[0] == self.items@[0].model(),
                    one_by_each::<W>(am[0], bm.take(j as int), side) == Ok::<
                        Seq<ItemM<W::M>>,
                        FstError,
                    >(items_model(list@)),
            {
                proof {
                    assert(bm.take(j + 1).drop_last() =~= bm.take(j as int));
                    assert(bm.take(j + 1).last() == rhs.items@[j as int].model());
                    lemma_one_by_each_fails::<W>(am[0], bm, side, j + 1);
                }
                let item: GallicItem<W> = match self.items[0].divide(&rhs.items[j], side) {
                    Ok(item) => item,
                    Err(e) => {
                        return Err(e);
                    },
                };
                match push_item(&mut list, item) {
                    Ok(_) => {},
                    Err(e) => {
                        return Err(e);
                    },
                }
            }
            assert(bm.take(m as int) =~= bm);
            Ok(GallicWeight { items: list })
        } else if m == 1 {
            assert(bm[0] == rhs.items@[0].model());
            for i in 0..n
                invariant
                    n == self.items.len(),
                    n > 1,
                    m == 1,
                    m == rhs.items.len(),
                    am == self.model(),
                    bm == rhs.model(),
                    bm[0] == rhs.items@[0].model(),
                    each_by_one::<W>(am.take(i as int), bm[0], side) == Ok::<
                        Seq<ItemM<W::M>>,
                        FstError,
                    >(items_model(list@)),
            {
                proof {
                    assert(am.take(i + 1).drop_last() =~= am.take(i as int));
                    assert(am.take(i + 1).last() == self.items@[i as int].model());
                    lemma_each_by_one_fails::<W>(am, bm[0], side, i + 1);
                }
                let item: GallicItem<W> = match self.items[i].divide(&rhs.items[0], side) {
                    Ok(item) => item,
                    Err(e) => {
                        return Err(e);
                    },
                };
                match push_item(&mut list, item) {
                    Ok(_) => {},
                    Err(e) => {
                        return Err(e);
                    },
                }
            }
            assert(am.take(n as int) =~= am);
            Ok(GallicWeight { items: list })
        } else {
            Err(FstError::NoSingleString)
        }
    }
}

impl<W: WeightQuantize> WeightQuantize for GallicWeight<W> {
    type Delta = W::Delta;

    open spec fn quantize_model(a: Seq<ItemM<W::M>>, delta: W::Delta) -> Result<
        Seq<ItemM<W::M>>,
        FstError,
    > {
        list_quantize::<W>(a, delta)
    }

    fn quantize(&self, delta: W::Delta) -> (r: Result<Self, FstError>) {
        let ghost am = self.model();
        let mut list: Vec<GallicItem<W>> = Vec::new();
        let n: usize = self.items.len();
        proof {
            assert(items_model(list@) =~= Seq::empty());
            assert(am.take(0) =~= Seq::empty());
        }
        for i in 0..n
            invariant
                n == self.items.len(),
                am == self.model(),
                list_quantize::<W>(am.take(i as int), delta) == Ok::<Seq<ItemM<W::M>>, FstError>(
                    items_model(list@),
                ),
        {
            let ghost before = items_model(list@);
            proof {
                assert(am.take(i + 1).drop_last() =~= am.take(i as int));
                assert(am.take(i + 1).last() == self.items@[i as int].model());
                lemma_list_quantize_fails::<W>(am, delta, i + 1);
            }
            match self.items[i].quantize(delta) {
                Ok(item) => {
                    let ghost im = item.model();
                    list.push(item);
                    assert(items_model(list@) =~= before.push(im));
                },
                Err(e) => {
                    return Err(e);
                },
            }
        }
        assert(am.take(n as int) =~= am);
        Ok(GallicWeight { items: list })
    }
}

} // verus!
