//! What the operations on weights with output strings compute, and when they fail.

use crate::error::FstError;
use crate::fst::tr::Label;
use crate::semirings::gallic::{after_first, first_of, GallicWeightMin, GallicWeightRestrict, ItemM};
use crate::semirings::gallic_union::{list_times, one_by_each, row_times, GallicWeight};
use crate::semirings::semiring::{DivideType, Semiring, WeaklyDivisibleSemiring};
use crate::weight_convert::Gallic;
use vstd::prelude::*;

verus! {

/// Products join strings and multiply weights; they fail exactly when the product of the
/// weights does. Nothing times anything is nothing.
pub proof fn law_gallic_products<W: Semiring>(
    a: ItemM<W::M>,
    b: ItemM<W::M>,
    c: Option<ItemM<W::M>>,
)
    ensures
        match W::times_model(a.weight, b.weight) {
            Ok(weight) => {
                let both = ItemM { string: a.string + b.string, weight };
                &&& GallicWeightRestrict::<W>::times_model(Some(a), Some(b)) == Ok::<
                    Option<ItemM<W::M>>,
                    FstError,
                >(Some(both))
                &&& GallicWeightMin::<W>::times_model(Some(a), Some(b)) == Ok::<
                    Option<ItemM<W::M>>,
                    FstError,
                >(Some(both))
                &&& GallicWeight::<W>::times_model(seq![a], seq![b]) == Ok::<
                    Seq<ItemM<W::M>>,
                    FstError,
                >(seq![both])
            },
            Err(e) => {
                &&& GallicWeightRestrict::<W>::times_model(Some(a), Some(b)) == Err::<
                    Option<ItemM<W::M>>,
                    FstError,
                >(e)
                &&& GallicWeightMin::<W>::times_model(Some(a), Some(b)) == Err::<
                    Option<ItemM<W::M>>,
                    FstError,
                >(e)
                &&& GallicWeight::<W>::times_model(seq![a], seq![b]) == Err::<
                    Seq<ItemM<W::M>>,
                    FstError,
                >(e)
            },
        },
        GallicWeightRestrict::<W>::times_model(None, c) == Ok::<Option<ItemM<W::M>>, FstError>(
            None,
        ),
        GallicWeightRestrict::<W>::times_model(c, None) == Ok::<Option<ItemM<W::M>>, FstError>(
            None,
        ),
        GallicWeightMin::<W>::times_model(None, c) == Ok::<Option<ItemM<W::M>>, FstError>(None),
        GallicWeightMin::<W>::times_model(c, None) == Ok::<Option<ItemM<W::M>>, FstError>(None),
{
    reveal_with_fuel(list_times, 2);
    reveal_with_fuel(row_times, 2);
    let (x, y) = (seq![a], seq![b]);
    assert(x.drop_last() =~= Seq::empty());
    assert(y.drop_last() =~= Seq::empty());
    assert(x.last() == a && y.last() == b);
    if let Ok(weight) = W::times_model(a.weight, b.weight) {
        let both = ItemM { string: a.string + b.string, weight };
        assert(Seq::<ItemM<W::M>>::empty().push(both) =~= seq![both]);
    }
}

/// Where a transducer has to be functional, only items that write the same can be summed:
/// the sum of their weights goes with the string. Items that write something else have no
/// sum, and nothing adds nothing.
pub proof fn law_restricted_sums<W: Semiring>(
    a: ItemM<W::M>,
    b: ItemM<W::M>,
    c: Option<ItemM<W::M>>,
)
    ensures
        a.string != b.string ==> GallicWeightRestrict::<W>::plus_model(Some(a), Some(b)) == Err::<
            Option<ItemM<W::M>>,
            FstError,
        >(FstError::NonFunctional),
        a.string == b.string ==> GallicWeightRestrict::<W>::plus_model(Some(a), Some(b)) == match
            W::plus_model(a.weight, b.weight) {
            Ok(weight) => Ok::<Option<ItemM<W::M>>, FstError>(
                Some(ItemM { string: a.string, weight }),
            ),
            Err(e) => Err(e),
        },
        GallicWeightRestrict::<W>::plus_model(None, c) == Ok::<Option<ItemM<W::M>>, FstError>(c),
        GallicWeightRestrict::<W>::plus_model(c, None) == Ok::<Option<ItemM<W::M>>, FstError>(c),
{
}

/// An item from whose left another is taken writes the rest: if it begins with what the
/// other writes, the other and the quotient together write the same again. Division fails
/// exactly when that of the weights does, or when something else than the left side is
/// asked for.
pub proof fn law_gallic_quotients<W: WeaklyDivisibleSemiring>(
    x: Seq<Label>,
    y: Seq<Label>,
    v: W::M,
    w: W::M,
    side: DivideType,
)
    ensures
        ({
            let a = ItemM { string: x + y, weight: v };
            let b = ItemM { string: x, weight: w };
            if side == DivideType::DivideLeft {
                match W::divide_model(v, w, side) {
                    Ok(weight) => {
                        let rest = ItemM { string: y, weight };
                        &&& GallicWeightRestrict::<W>::divide_model(Some(a), Some(b), side) == Ok::<
                            Option<ItemM<W::M>>,
                            FstError,
                        >(Some(rest))
                        &&& GallicWeightMin::<W>::divide_model(Some(a), Some(b), side) == Ok::<
                            Option<ItemM<W::M>>,
                            FstError,
                        >(Some(rest))
                        &&& GallicWeight::<W>::divide_model(seq![a], seq![b], side) == Ok::<
                            Seq<ItemM<W::M>>,
                            FstError,
                        >(seq![rest])
                    },
                    Err(e) => {
                        &&& GallicWeightRestrict::<W>::divide_model(Some(a), Some(b), side)
                            == Err::<Option<ItemM<W::M>>, FstError>(e)
                        &&& GallicWeightMin::<W>::divide_model(Some(a), Some(b), side) == Err::<
                            Option<ItemM<W::M>>,
                            FstError,
                        >(e)
                        &&& GallicWeight::<W>::divide_model(seq![a], seq![b], side) == Err::<
                            Seq<ItemM<W::M>>,
                            FstError,
                        >(e)
                    },
                }
            } else {
                &&& GallicWeightRestrict::<W>::divide_model(Some(a), Some(b), side) == Err::<
                    Option<ItemM<W::M>>,
                    FstError,
                >(FstError::NotLeftDivision)
                &&& GallicWeightMin::<W>::divide_model(Some(a), Some(b), side) == Err::<
                    Option<ItemM<W::M>>,
                    FstError,
                >(FstError::NotLeftDivision)
                &&& GallicWeight::<W>::divide_model(seq![a], seq![b], side) == Err::<
                    Seq<ItemM<W::M>>,
                    FstError,
                >(FstError::NotLeftDivision)
            }
        }),
{
    reveal_with_fuel(one_by_each, 2);
    assert(after_first(x + y, x.len()) =~= y);
    let a = ItemM { string: x + y, weight: v };
    let b = ItemM { string: x, weight: w };
    let (l, m) = (seq![a], seq![b]);
    assert(m.drop_last() =~= Seq::empty());
    assert(m.last() == b && l[0] == a);
    if let Ok(weight) = W::divide_model(v, w, side) {
        let rest = ItemM { string: y, weight };
        assert(Seq::<ItemM<W::M>>::empty().push(rest) =~= seq![rest]);
    }
}

/// What was made from a label and a weight gives both back, the empty label included.
pub proof fn law_label_round_trips<W: Semiring>(label: Label, weight: W::M)
    ensures
        GallicWeightRestrict::<W>::extract_model(
            GallicWeightRestrict::<W>::of_label_model(label, weight),
        ) == Ok::<(Label, W::M), FstError>((label, weight)),
        GallicWeightMin::<W>::extract_model(GallicWeightMin::<W>::of_label_model(label, weight))
            == Ok::<(Label, W::M), FstError>((label, weight)),
        GallicWeight::<W>::extract_model(GallicWeight::<W>::of_label_model(label, weight)) == Ok::<
            (Label, W::M),
            FstError,
        >((label, weight)),
{
}

/// An item of more than one label splits into its first label, which takes the weight, and
/// the others, in their order and without weight. One of at most one label does not split.
pub proof fn law_factors_join<W: Semiring>(a: ItemM<W::M>)
    ensures
        a.string.len() <= 1 ==> GallicWeightRestrict::<W>::factors_model(Some(a)).len() == 0
            && GallicWeightMin::<W>::factors_model(Some(a)).len() == 0
            && GallicWeight::<W>::factors_model(seq![a]).len() == 0,
        a.string.len() > 1 ==> {
            let first = ItemM { string: seq![a.string[0]], weight: a.weight };
            let rest = ItemM { string: a.string.drop_first(), weight: W::one_model() };
            &&& GallicWeightRestrict::<W>::factors_model(Some(a)) == seq![(Some(first), Some(rest))]
            &&& GallicWeightMin::<W>::factors_model(Some(a)) == seq![(Some(first), Some(rest))]
            &&& GallicWeight::<W>::factors_model(seq![a]) == seq![(seq![first], seq![rest])]
            &&& first.string + rest.string == a.string
        },
{
    if a.string.len() > 1 {
        assert(after_first(a.string, 1) =~= a.string.drop_first());
        assert(first_of(a.string) =~= seq![a.string[0]]);
        let first = ItemM { string: seq![a.string[0]], weight: a.weight };
        let rest = ItemM { string: a.string.drop_first(), weight: W::one_model() };
        assert(first.string + rest.string =~= a.string);
        assert(GallicWeight::<W>::factors_model(seq![a]) =~= seq![(seq![first], seq![rest])]);
    }
}

/// The better of two items is kept, with its string: that of the smaller weight, and the
/// second where the weights are equal. There is no other reason to fail than that the
/// weights have no sum.
pub proof fn law_better_item_is_kept<W: Semiring>(a: ItemM<W::M>, b: ItemM<W::M>)
    requires
        W::plus_model(a.weight, b.weight) matches Ok(c) && (c == a.weight || c == b.weight),
    ensures
        GallicWeightMin::<W>::plus_model(Some(a), Some(b)) == Ok::<Option<ItemM<W::M>>, FstError>(
            Some(
                if W::plus_model(a.weight, b.weight)->Ok_0 != b.weight {
                    a
                } else {
                    b
                },
            ),
        ),
{
}

} // verus!
