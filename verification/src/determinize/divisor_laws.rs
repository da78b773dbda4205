//! Divisors that divide.

use crate::determinize::divisors::{
    item_divisor, list_divisor, option_divisor, option_list, CommonDivisor, DefaultCommonDivisor,
    GallicCommonDivisor,
};
use crate::error::FstError;
use crate::fst::tr::Label;
use crate::semirings::gallic::{
    common_first, first_of, item_divide, string_less, GallicWeightMin, GallicWeightRestrict, ItemM,
};
use crate::semirings::gallic_laws::{
    item_value, lemma_list_push_value, lemma_list_value_one, list_value, option_value,
};
use crate::semirings::gallic_union::{
    each_by_one, interleave, list_of, list_push, one_by_each, GallicWeight,
};
use crate::semirings::laws::{ExactDivision, ExactWeights, SelectiveSum};
use crate::semirings::semiring::{DivideType, Semiring};
use crate::semirings::series::{
    lemma_monomial_times, lemma_series_distributive, lemma_series_product_zero, series_product,
};
use vstd::prelude::*;

verus! {

/// A common divisor that divides, so that the quotients give the weights back.
pub trait ExactDivisor<W: ExactWeights>: CommonDivisor<W> {
    /// `d` can be taken out of `a` without loss.
    spec fn divides(d: W::M, a: W::M) -> bool;

    /// A common divisor divides the second weight, and whatever the first divides.
    proof fn law_common_divisor(a: W::M, b: W::M)
        ensures
            Self::common_divisor_model(a, b) matches Ok(d) ==> Self::divides(d, b) && forall|
                x: W::M,
            | #[trigger]
                Self::divides(a, x) ==> Self::divides(d, x),
    ;

    /// What divides two weights divides their sum.
    proof fn law_divides_sum(d: W::M, a: W::M, b: W::M)
        ensures
            Self::divides(d, a) && Self::divides(d, b) ==> (W::plus_model(a, b) matches Ok(c)
                ==> Self::divides(d, c)),
    ;

    /// A divisor times the quotient is the dividend.
    proof fn law_divides(a: W::M, d: W::M)
        ensures
            Self::divides(d, a) ==> (W::divide_model(a, d, DivideType::DivideLeft) matches Ok(c)
                ==> W::product(W::value(d), W::value(c)) == W::value(a)),
    ;
}

impl<W: ExactDivision> ExactDivisor<W> for DefaultCommonDivisor {
    open spec fn divides(d: W::M, a: W::M) -> bool {
        true
    }

    proof fn law_common_divisor(a: W::M, b: W::M) {
    }

    proof fn law_divides_sum(d: W::M, a: W::M, b: W::M) {
    }

    proof fn law_divides(a: W::M, d: W::M) {
        W::law_divide(a, d);
    }
}

/// `s` begins with `t`.
pub open spec fn begins_with(s: Seq<Label>, t: Seq<Label>) -> bool {
    t.len() <= s.len() && s.take(t.len() as int) == t
}

proof fn lemma_begins_trans(s: Seq<Label>, t: Seq<Label>, u: Seq<Label>)
    requires
        begins_with(s, t),
        begins_with(t, u),
    ensures
        begins_with(s, u),
{
    assert(s.take(u.len() as int) =~= s.take(t.len() as int).take(u.len() as int));
}

proof fn lemma_first_of(s: Seq<Label>, t: Seq<Label>)
    ensures
        begins_with(s, first_of(s)),
        begins_with(s, common_first(s, t)),
        begins_with(t, common_first(s, t)),
{
    assert(s.len() > 0 ==> s.take(1) =~= seq![s[0]]);
    assert(t.len() > 0 ==> t.take(1) =~= seq![t[0]]);
    assert(s.take(0) =~= Seq::empty());
    assert(t.take(0) =~= Seq::empty());
    assert(s.len() == 0 ==> s =~= Seq::empty());
}

/// Taking a divisor out of an item and putting it in front again.
proof fn lemma_item_divide<W: ExactDivision>(a: ItemM<W::M>, d: ItemM<W::M>)
    requires
        begins_with(a.string, d.string),
    ensures
        item_divide::<W>(a, d, DivideType::DivideLeft) matches Ok(c) ==> series_product::<W>(
            item_value::<W>(d),
            item_value::<W>(c),
        ) == item_value::<W>(a),
{
    if let Ok(c) = item_divide::<W>(a, d, DivideType::DivideLeft) {
        W::law_divide(a.weight, d.weight);
        lemma_monomial_times::<W>(
            d.string,
            W::value(d.weight),
            c.string,
            W::value(c.weight),
        );
        assert(d.string + c.string =~= a.string);
    }
}

/// The string of the divisor is at the front of that of the optional item.
pub open spec fn option_divides<M>(d: Option<ItemM<M>>, a: Option<ItemM<M>>) -> bool {
    match (d, a) {
        (_, None) => true,
        (None, Some(_)) => false,
        (Some(x), Some(y)) => begins_with(y.string, x.string),
    }
}

proof fn lemma_option_divides_trans<M>(
    d: Option<ItemM<M>>,
    a: Option<ItemM<M>>,
    x: Option<ItemM<M>>,
)
    requires
        option_divides(d, a),
        option_divides(a, x),
    ensures
        option_divides(d, x),
{
    if let (Some(p), Some(q), Some(r)) = (d, a, x) {
        lemma_begins_trans(r.string, q.string, p.string);
    }
}

proof fn lemma_item_divisor<W: Semiring>(a: Option<ItemM<W::M>>, b: ItemM<W::M>)
    ensures
        item_divisor::<W>(a, b) matches Ok(d) ==> option_divides(Some(d), a) && option_divides(
            Some(d),
            Some(b),
        ),
{
    match a {
        None => {
            lemma_first_of(b.string, b.string);
        },
        Some(x) => {
            lemma_first_of(x.string, b.string);
        },
    }
}

proof fn lemma_option_divisor<W: Semiring>(a: Option<ItemM<W::M>>, b: Option<ItemM<W::M>>)
    ensures
        option_divisor::<W>(a, b) matches Ok(d) ==> option_divides(d, b) && forall|
            x: Option<ItemM<W::M>>,
        | #[trigger]
            option_divides(a, x) ==> option_divides(d, x),
{
    if let Ok(d) = option_divisor::<W>(a, b) {
        match (a, b) {
            (None, None) => {},
            (_, Some(y)) => {
                lemma_item_divisor::<W>(a, y);
            },
            (Some(x), None) => {
                lemma_first_of(x.string, x.string);
            },
        }
        assert(option_divides(d, a));
        assert forall|x: Option<ItemM<W::M>>| #[trigger] option_divides(a, x) implies option_divides(
            d,
            x,
        ) by {
            lemma_option_divides_trans(d, a, x);
        }
    }
}

impl<W: ExactDivision> ExactDivisor<GallicWeightRestrict<W>> for GallicCommonDivisor {
    open spec fn divides(d: Option<ItemM<W::M>>, a: Option<ItemM<W::M>>) -> bool {
        option_divides(d, a)
    }

    proof fn law_common_divisor(a: Option<ItemM<W::M>>, b: Option<ItemM<W::M>>) {
        lemma_option_divisor::<W>(a, b);
    }

    proof fn law_divides_sum(
        d: Option<ItemM<W::M>>,
        a: Option<ItemM<W::M>>,
        b: Option<ItemM<W::M>>,
    ) {
    }

    proof fn law_divides(a: Option<ItemM<W::M>>, d: Option<ItemM<W::M>>) {
        match (a, d) {
            (Some(x), Some(y)) => {
                if option_divides(d, a) {
                    lemma_item_divide::<W>(x, y);
                }
            },
            _ => {
                lemma_series_product_zero::<W>(option_value::<W>(d));
            },
        }
    }
}

impl<W: ExactDivision + SelectiveSum> ExactDivisor<GallicWeightMin<W>> for GallicCommonDivisor {
    open spec fn divides(d: Option<ItemM<W::M>>, a: Option<ItemM<W::M>>) -> bool {
        option_divides(d, a)
    }

    proof fn law_common_divisor(a: Option<ItemM<W::M>>, b: Option<ItemM<W::M>>) {
        lemma_option_divisor::<W>(a, b);
    }

    proof fn law_divides_sum(
        d: Option<ItemM<W::M>>,
        a: Option<ItemM<W::M>>,
        b: Option<ItemM<W::M>>,
    ) {
    }

    proof fn law_divides(a: Option<ItemM<W::M>>, d: Option<ItemM<W::M>>) {
        match (a, d) {
            (Some(x), Some(y)) => {
                W::law_divide(x.weight, y.weight);
            },
            (None, Some(y)) => {
                W::law_product_zero(W::value(y.weight));
            },
            _ => {},
        }
    }
}

/// The string of the divisor is at the front of every string of the list.
pub open spec fn list_divides<M>(d: Seq<ItemM<M>>, a: Seq<ItemM<M>>) -> bool {
    if d.len() == 0 {
        a.len() == 0
    } else {
        d.len() == 1 && all_begin(a, d[0].string)
    }
}

/// Every string of the list begins with `t`.
pub open spec fn all_begin<M>(a: Seq<ItemM<M>>, t: Seq<Label>) -> bool {
    forall|i: int| 0 <= i < a.len() ==> begins_with((#[trigger] a[i]).string, t)
}

proof fn lemma_list_divisor<W: Semiring>(items: Seq<ItemM<W::M>>)
    ensures
        list_divisor::<W>(items) matches Ok(d) ==> {
            &&& d is None ==> items.len() == 0
            &&& d matches Some(x) ==> all_begin(items, x.string)
        },
    decreases items.len(),
{
    if items.len() > 0 {
        lemma_list_divisor::<W>(items.drop_last());
        if let Ok(before) = list_divisor::<W>(items.drop_last()) {
            lemma_item_divisor::<W>(before, items.last());
            if let Ok(d) = item_divisor::<W>(before, items.last()) {
                assert forall|i: int| 0 <= i < items.len() implies begins_with(
                    (#[trigger] items[i]).string,
                    d.string,
                ) by {
                    if i < items.len() - 1 {
                        assert(items.drop_last()[i] == items[i]);
                        lemma_begins_trans(items[i].string, before->0.string, d.string);
                    }
                }
            }
        }
    }
}

proof fn lemma_list_push_begins<W: Semiring>(
    list: Seq<ItemM<W::M>>,
    item: ItemM<W::M>,
    t: Seq<Label>,
)
    requires
        all_begin(list, t),
        begins_with(item.string, t),
    ensures
        list_push::<W>(list, item) matches Ok(after) ==> all_begin(after, t),
{
    if let Ok(after) = list_push::<W>(list, item) {
        assert forall|i: int| 0 <= i < after.len() implies begins_with(
            (#[trigger] after[i]).string,
            t,
        ) by {
            if i < list.len() {
                assert(begins_with(list[i].string, t));
            }
        }
    }
}

proof fn lemma_list_of_begins<W: Semiring>(items: Seq<ItemM<W::M>>, t: Seq<Label>)
    requires
        all_begin(items, t),
    ensures
        list_of::<W>(items) matches Ok(list) ==> all_begin(list, t),
    decreases items.len(),
{
    if items.len() > 0 {
        assert forall|i: int| 0 <= i < items.drop_last().len() implies begins_with(
            (#[trigger] items.drop_last()[i]).string,
            t,
        ) by {
            assert(begins_with(items[i].string, t));
        }
        lemma_list_of_begins::<W>(items.drop_last(), t);
        assert(begins_with(items[items.len() - 1].string, t));
        if let Ok(list) = list_of::<W>(items.drop_last()) {
            lemma_list_push_begins::<W>(list, items.last(), t);
        }
    }
}

proof fn lemma_interleave_begins<M>(a: Seq<ItemM<M>>, b: Seq<ItemM<M>>, t: Seq<Label>)
    requires
        all_begin(a, t),
        all_begin(b, t),
    ensures
        all_begin(interleave(a, b), t),
    decreases a.len() + b.len(),
{
    if a.len() > 0 && b.len() > 0 {
        assert forall|i: int| 0 <= i < a.drop_first().len() implies begins_with(
            (#[trigger] a.drop_first()[i]).string,
            t,
        ) by {
            assert(begins_with(a[i + 1].string, t));
        }
        assert forall|i: int| 0 <= i < b.drop_first().len() implies begins_with(
            (#[trigger] b.drop_first()[i]).string,
            t,
        ) by {
            assert(begins_with(b[i + 1].string, t));
        }
        assert(begins_with(a[0].string, t));
        assert(begins_with(b[0].string, t));
        let all = interleave(a, b);
        let rest = if string_less(a[0].string, b[0].string) {
            lemma_interleave_begins(a.drop_first(), b, t);
            interleave(a.drop_first(), b)
        } else {
            lemma_interleave_begins(a, b.drop_first(), t);
            interleave(a, b.drop_first())
        };
        assert forall|i: int| 0 <= i < all.len() implies begins_with(
            (#[trigger] all[i]).string,
            t,
        ) by {
            if i > 0 {
                assert(all[i] == rest[i - 1]);
            }
        }
    }
}

/// Each item of a list divided by an item that is at its front.
proof fn lemma_each_by_one<W: ExactDivision>(a: Seq<ItemM<W::M>>, d: ItemM<W::M>)
    requires
        all_begin(a, d.string),
    ensures
        each_by_one::<W>(a, d, DivideType::DivideLeft) matches Ok(c) ==> series_product::<W>(
            item_value::<W>(d),
            list_value::<W>(c),
        ) == list_value::<W>(a),
    decreases a.len(),
{
    let f = item_value::<W>(d);
    if a.len() == 0 {
        lemma_series_product_zero::<W>(f);
    } else {
        assert forall|i: int| 0 <= i < a.drop_last().len() implies begins_with(
            (#[trigger] a.drop_last()[i]).string,
            d.string,
        ) by {
            assert(begins_with(a[i].string, d.string));
        }
        assert(begins_with(a[a.len() - 1].string, d.string));
        lemma_each_by_one::<W>(a.drop_last(), d);
        if let Ok(list) = each_by_one::<W>(a.drop_last(), d, DivideType::DivideLeft) {
            lemma_item_divide::<W>(a.last(), d);
            if let Ok(item) = item_divide::<W>(a.last(), d, DivideType::DivideLeft) {
                lemma_list_push_value::<W>(list, item);
                lemma_series_distributive::<W>(
                    f,
                    list_value::<W>(list),
                    item_value::<W>(item),
                );
            }
        }
    }
}

impl<W: ExactDivision> ExactDivisor<GallicWeight<W>> for GallicCommonDivisor {
    open spec fn divides(d: Seq<ItemM<W::M>>, a: Seq<ItemM<W::M>>) -> bool {
        list_divides(d, a)
    }

    proof fn law_common_divisor(a: Seq<ItemM<W::M>>, b: Seq<ItemM<W::M>>) {
        lemma_list_divisor::<W>(a + b);
        if let Ok(o) = list_divisor::<W>(a + b) {
            let d = option_list(o);
            assert(list_divides(d, b)) by {
                if let Some(x) = o {
                    assert forall|i: int| 0 <= i < b.len() implies begins_with(
                        (#[trigger] b[i]).string,
                        x.string,
                    ) by {
                        assert((a + b)[a.len() + i] == b[i]);
                    }
                }
            }
            assert forall|x: Seq<ItemM<W::M>>| #[trigger] list_divides(a, x) implies list_divides(
                d,
                x,
            ) by {
                if let Some(y) = o {
                    if a.len() == 1 {
                        assert((a + b)[0] == a[0]);
                        assert forall|i: int| 0 <= i < x.len() implies begins_with(
                            (#[trigger] x[i]).string,
                            y.string,
                        ) by {
                            lemma_begins_trans(x[i].string, a[0].string, y.string);
                        }
                    }
                }
            }
        }
    }

    proof fn law_divides_sum(d: Seq<ItemM<W::M>>, a: Seq<ItemM<W::M>>, b: Seq<ItemM<W::M>>) {
        if list_divides(d, a) && list_divides(d, b) && d.len() == 1 {
            lemma_interleave_begins(a, b, d[0].string);
            lemma_list_of_begins::<W>(interleave(a, b), d[0].string);
        }
    }

    proof fn law_divides(a: Seq<ItemM<W::M>>, d: Seq<ItemM<W::M>>) {
        if list_divides(d, a) {
            if d.len() == 0 || a.len() == 0 {
                lemma_series_product_zero::<W>(list_value::<W>(d));
            } else {
                assert(d =~= seq![d[0]]);
                lemma_list_value_one::<W>(d[0]);
                lemma_each_by_one::<W>(a, d[0]);
                if a.len() == 1 {
                    lemma_one_by_one::<W>(a[0], d[0]);
                    assert(a =~= seq![a[0]]);
                }
            }
        }
    }
}

/// With one item on either side it does not matter which side is taken apart.
proof fn lemma_one_by_one<W: ExactDivision>(x: ItemM<W::M>, y: ItemM<W::M>)
    ensures
        one_by_each::<W>(x, seq![y], DivideType::DivideLeft) == each_by_one::<W>(
            seq![x],
            y,
            DivideType::DivideLeft,
        ),
{
    assert(seq![x].drop_last() =~= Seq::<ItemM<W::M>>::empty());
    assert(seq![y].drop_last() =~= Seq::<ItemM<W::M>>::empty());
    assert(seq![x].last() == x);
    assert(seq![y].last() == y);
    assert(one_by_each::<W>(x, Seq::empty(), DivideType::DivideLeft) == Ok::<
        Seq<ItemM<W::M>>,
        FstError,
    >(Seq::empty()));
    assert(each_by_one::<W>(Seq::empty(), y, DivideType::DivideLeft) == Ok::<
        Seq<ItemM<W::M>>,
        FstError,
    >(Seq::empty()));
}

} // verus!
