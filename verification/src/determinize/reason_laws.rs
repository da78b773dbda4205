//! For what reasons a determinization fails, and for no others.

use crate::determinize::ambiguity_laws::{
    law_refused_automaton_has_two_ways, two_ways, weights_write_nothing,
};
use crate::determinize::determinize_fsa::{det_begin, det_compute};
use crate::determinize::determinize_fsa_op::DeterminizeFsaOp;
use crate::determinize::determinize_static::{
    determinize_model, determinize_via_model, DeterminizeConfig, DeterminizeType,
};
use crate::determinize::divisors::{
    item_divisor, list_divisor, CommonDivisor, DefaultCommonDivisor, GallicCommonDivisor,
};
use crate::determinize::laws::{law_determinize_fsa_is_deterministic, lemma_det_expansion};
use crate::determinize::lean_laws::{
    gives, law_lean_automaton_determinizes, lean_machine, stays_lean,
};
use crate::determinize::success_laws::{law_tropical_unit_is_stable, unit_is_stable};
use crate::error::FstError;
use crate::factor_success_laws::{
    clean_list, clean_option, law_factoring_succeeds, law_strings_split_cleanly, no_empty_label,
    ready, splits_cleanly,
};
use crate::fst::properties::{ACCEPTOR, NULL_PROPERTIES};
use crate::fst::tr::{Label, EPS_LABEL};
use crate::fst::vector_fst::FstM;
use crate::lazy::laws::{closed_machine, law_output_keeps_bounds};
use crate::lazy::null_cache::NullCache;
use crate::semirings::gallic::{
    after_first, item_divide, item_quantize, item_times, GallicWeightMin, GallicWeightRestrict,
    ItemM,
};
use crate::semirings::gallic_union::{
    each_by_one, interleave, list_of, list_push, list_quantize, list_times, one_by_each, row_times,
    GallicWeight,
};
use crate::semirings::semiring::{
    DivideType, QuantizationStep, Semiring, WeaklyDivisibleSemiring, WeightQuantize, COMMUTATIVE,
    IDEMPOTENT, LEFT_SEMIRING, PATH, RIGHT_SEMIRING,
};
use crate::semirings::tropical::{TickDelta, TropicalWeight};
use crate::semirings::tropical_laws::fits;
use crate::weight_convert::{plain_tr, to_gallic_model, Gallic};
use vstd::prelude::*;

verus! {

/// What is computed from fine weights is fine, or fails with an error that is allowed; one
/// and zero go with them as they should, and zero is not fine.
pub open spec fn fine_weights<W: WeaklyDivisibleSemiring + WeightQuantize>(
    fine: spec_fn(W::M) -> bool,
    allowed: spec_fn(FstError) -> bool,
    delta: W::Delta,
) -> bool {
    &&& stays_lean::<W, DefaultCommonDivisor>(fine, fine, allowed, delta)
    &&& W::quantize_model(W::one_model(), W::Delta::kdelta_model()) == Ok::<W::M, FstError>(
        W::one_model(),
    )
    &&& forall|a: W::M| #[trigger]
        fine(a) ==> a != W::zero_model() && W::times_model(W::one_model(), a) == Ok::<
            W::M,
            FstError,
        >(a)
}

/// The item has a fine weight, and a string without the empty label.
spec fn light<W: Semiring>(fine: spec_fn(W::M) -> bool, x: ItemM<W::M>) -> bool {
    fine(x.weight) && no_empty_label(x.string)
}

/// A light item that writes at most one label.
spec fn short<W: Semiring>(fine: spec_fn(W::M) -> bool, x: ItemM<W::M>) -> bool {
    light::<W>(fine, x) && x.string.len() <= 1
}

spec fn light_option<W: Semiring>(fine: spec_fn(W::M) -> bool) -> spec_fn(
    Option<ItemM<W::M>>,
) -> bool {
    |a: Option<ItemM<W::M>>| a matches Some(x) && light::<W>(fine, x)
}

spec fn short_option<W: Semiring>(fine: spec_fn(W::M) -> bool) -> spec_fn(
    Option<ItemM<W::M>>,
) -> bool {
    |a: Option<ItemM<W::M>>| a matches Some(x) && short::<W>(fine, x)
}

/// Every item is light, and no two neighbours write the same.
spec fn light_items<W: Semiring>(fine: spec_fn(W::M) -> bool, a: Seq<ItemM<W::M>>) -> bool {
    &&& forall|i: int| 0 <= i < a.len() ==> light::<W>(fine, #[trigger] a[i])
    &&& forall|i: int, j: int|
        0 <= i < a.len() && 0 <= j < a.len() && j == i + 1 ==> (#[trigger] a[i]).string != (
        #[trigger] a[j]).string
}

spec fn light_list<W: Semiring>(fine: spec_fn(W::M) -> bool) -> spec_fn(Seq<ItemM<W::M>>) -> bool {
    |a: Seq<ItemM<W::M>>| a.len() > 0 && light_items::<W>(fine, a)
}

spec fn short_list<W: Semiring>(fine: spec_fn(W::M) -> bool) -> spec_fn(Seq<ItemM<W::M>>) -> bool {
    |a: Seq<ItemM<W::M>>| a.len() == 1 && short::<W>(fine, a[0])
}

/// The list is light, and not empty where `some` holds.
spec fn filled<W: Semiring>(fine: spec_fn(W::M) -> bool, some: bool) -> spec_fn(
    Seq<ItemM<W::M>>,
) -> bool {
    |a: Seq<ItemM<W::M>>| light_items::<W>(fine, a) && (some ==> a.len() > 0)
}

/// The errors that are allowed, and that of a machine that writes two strings for one.
spec fn or_not_functional(allowed: spec_fn(FstError) -> bool) -> spec_fn(FstError) -> bool {
    |e: FstError| allowed(e) || e == FstError::NonFunctional
}

proof fn lemma_light_ops<W: WeaklyDivisibleSemiring + WeightQuantize>(
    fine: spec_fn(W::M) -> bool,
    allowed: spec_fn(FstError) -> bool,
    delta: W::Delta,
    a: ItemM<W::M>,
    b: ItemM<W::M>,
)
    requires
        fine_weights::<W>(fine, allowed, delta),
        light::<W>(fine, a),
        light::<W>(fine, b),
    ensures
        match item_times::<W>(a, b) {
            Ok(c) => light::<W>(fine, c) && c.string == a.string + b.string,
            Err(e) => allowed(e),
        },
        match item_divide::<W>(a, b, DivideType::DivideLeft) {
            Ok(c) => light::<W>(fine, c),
            Err(e) => allowed(e),
        },
        match item_quantize::<W>(a, delta) {
            Ok(c) => light::<W>(fine, c) && c.string == a.string,
            Err(e) => allowed(e),
        },
        match item_divisor::<W>(None, a) {
            Ok(c) => short::<W>(fine, c),
            Err(e) => allowed(e),
        },
        match item_divisor::<W>(Some(a), b) {
            Ok(c) => short::<W>(fine, c),
            Err(e) => allowed(e),
        },
{
    let joined = a.string + b.string;
    assert forall|i: int| 0 <= i < joined.len() implies #[trigger] joined[i] != EPS_LABEL by {
        if i < a.string.len() {
            assert(joined[i] == a.string[i]);
        } else {
            assert(joined[i] == b.string[i - a.string.len()]);
        }
    }
    let rest = after_first(a.string, b.string.len());
    assert forall|i: int| 0 <= i < rest.len() implies #[trigger] rest[i] != EPS_LABEL by {
        assert(rest[i] == a.string[i + b.string.len()]);
    }
    assert(gives(W::times_model(a.weight, b.weight), fine, allowed));
    assert(gives(W::divide_model(a.weight, b.weight, DivideType::DivideLeft), fine, allowed));
    assert(gives(W::quantize_model(a.weight, delta), fine, allowed));
    assert(W::plus_model(W::zero_model(), a.weight) == Ok::<W::M, FstError>(a.weight));
    assert(gives(W::plus_model(a.weight, b.weight), fine, allowed));
}

proof fn lemma_light_restricted<W: WeaklyDivisibleSemiring + WeightQuantize>(
    fine: spec_fn(W::M) -> bool,
    allowed: spec_fn(FstError) -> bool,
    delta: W::Delta,
)
    requires
        fine_weights::<W>(fine, allowed, delta),
    ensures
        stays_lean::<GallicWeightRestrict<W>, GallicCommonDivisor>(
            light_option::<W>(fine),
            short_option::<W>(fine),
            or_not_functional(allowed),
            delta,
        ),
{
    let lean = light_option::<W>(fine);
    let divisor = short_option::<W>(fine);
    let failure = or_not_functional(allowed);
    let zero = GallicWeightRestrict::<W>::zero_model();
    assert(lean(GallicWeightRestrict::<W>::one_model()));
    assert forall|a: Option<ItemM<W::M>>| lean(a) implies #[trigger] GallicWeightRestrict::<
        W,
    >::plus_model(zero, a) == Ok::<Option<ItemM<W::M>>, FstError>(a) by {
        assert(fine(a->0.weight));
        assert(W::plus_model(W::zero_model(), a->0.weight) == Ok::<W::M, FstError>(a->0.weight));
    }
    assert forall|a: Option<ItemM<W::M>>| lean(a) implies #[trigger] GallicWeightRestrict::<
        W,
    >::plus_model(a, zero) == Ok::<Option<ItemM<W::M>>, FstError>(a) by {
        assert(fine(a->0.weight));
        assert(W::plus_model(a->0.weight, W::zero_model()) == Ok::<W::M, FstError>(a->0.weight));
    }
    assert forall|a: Option<ItemM<W::M>>, b: Option<ItemM<W::M>>| lean(a) && lean(b) implies gives(
        #[trigger] GallicWeightRestrict::<W>::plus_model(a, b),
        lean,
        failure,
    ) by {
        assert(gives(W::plus_model(a->0.weight, b->0.weight), fine, allowed));
    }
    assert forall|a: Option<ItemM<W::M>>, b: Option<ItemM<W::M>>| lean(a) && lean(b) implies gives(
        #[trigger] GallicWeightRestrict::<W>::times_model(a, b),
        lean,
        failure,
    ) by {
        lemma_light_ops::<W>(fine, allowed, delta, a->0, b->0);
    }
    assert forall|a: Option<ItemM<W::M>>| lean(a) implies gives(
        #[trigger] GallicWeightRestrict::<W>::quantize_model(a, delta),
        lean,
        failure,
    ) by {
        lemma_light_ops::<W>(fine, allowed, delta, a->0, a->0);
    }
    assert forall|a: Option<ItemM<W::M>>| lean(a) implies gives(
        #[trigger] <GallicCommonDivisor as CommonDivisor<GallicWeightRestrict<W>>>::common_divisor_model(
            zero,
            a,
        ),
        divisor,
        failure,
    ) by {
        lemma_light_ops::<W>(fine, allowed, delta, a->0, a->0);
    }
    assert forall|d: Option<ItemM<W::M>>, a: Option<ItemM<W::M>>| divisor(d) && lean(a) implies gives(
        #[trigger] <GallicCommonDivisor as CommonDivisor<GallicWeightRestrict<W>>>::common_divisor_model(
            d,
            a,
        ),
        divisor,
        failure,
    ) by {
        lemma_light_ops::<W>(fine, allowed, delta, d->0, a->0);
    }
    assert forall|d: Option<ItemM<W::M>>, a: Option<ItemM<W::M>>| divisor(d) && lean(a) implies gives(
        #[trigger] GallicWeightRestrict::<W>::divide_model(a, d, DivideType::DivideLeft),
        lean,
        failure,
    ) by {
        lemma_light_ops::<W>(fine, allowed, delta, a->0, d->0);
    }
}

proof fn lemma_light_best<W: WeaklyDivisibleSemiring + WeightQuantize>(
    fine: spec_fn(W::M) -> bool,
    allowed: spec_fn(FstError) -> bool,
    delta: W::Delta,
)
    requires
        fine_weights::<W>(fine, allowed, delta),
    ensures
        stays_lean::<GallicWeightMin<W>, GallicCommonDivisor>(
            light_option::<W>(fine),
            short_option::<W>(fine),
            allowed,
            delta,
        ),
{
    let lean = light_option::<W>(fine);
    let divisor = short_option::<W>(fine);
    let failure = allowed;
    let zero = GallicWeightMin::<W>::zero_model();
    assert(lean(GallicWeightMin::<W>::one_model()));
    assert forall|a: Option<ItemM<W::M>>| lean(a) implies #[trigger] GallicWeightMin::<
        W,
    >::plus_model(zero, a) == Ok::<Option<ItemM<W::M>>, FstError>(a) by {
        assert(fine(a->0.weight));
        assert(W::plus_model(W::zero_model(), a->0.weight) == Ok::<W::M, FstError>(a->0.weight));
    }
    assert forall|a: Option<ItemM<W::M>>| lean(a) implies #[trigger] GallicWeightMin::<
        W,
    >::plus_model(a, zero) == Ok::<Option<ItemM<W::M>>, FstError>(a) by {
        assert(fine(a->0.weight));
        assert(W::plus_model(a->0.weight, W::zero_model()) == Ok::<W::M, FstError>(a->0.weight));
    }
    assert forall|a: Option<ItemM<W::M>>, b: Option<ItemM<W::M>>| lean(a) && lean(b) implies gives(
        #[trigger] GallicWeightMin::<W>::plus_model(a, b),
        lean,
        failure,
    ) by {
        assert(gives(W::plus_model(a->0.weight, b->0.weight), fine, allowed));
    }
    assert forall|a: Option<ItemM<W::M>>, b: Option<ItemM<W::M>>| lean(a) && lean(b) implies gives(
        #[trigger] GallicWeightMin::<W>::times_model(a, b),
        lean,
        failure,
    ) by {
        lemma_light_ops::<W>(fine, allowed, delta, a->0, b->0);
    }
    assert forall|a: Option<ItemM<W::M>>| lean(a) implies gives(
        #[trigger] GallicWeightMin::<W>::quantize_model(a, delta),
        lean,
        failure,
    ) by {
        lemma_light_ops::<W>(fine, allowed, delta, a->0, a->0);
    }
    assert forall|a: Option<ItemM<W::M>>| lean(a) implies gives(
        #[trigger] <GallicCommonDivisor as CommonDivisor<GallicWeightMin<W>>>::common_divisor_model(
            zero,
            a,
        ),
        divisor,
        failure,
    ) by {
        lemma_light_ops::<W>(fine, allowed, delta, a->0, a->0);
    }
    assert forall|d: Option<ItemM<W::M>>, a: Option<ItemM<W::M>>| divisor(d) && lean(a) implies gives(
        #[trigger] <GallicCommonDivisor as CommonDivisor<GallicWeightMin<W>>>::common_divisor_model(
            d,
            a,
        ),
        divisor,
        failure,
    ) by {
        lemma_light_ops::<W>(fine, allowed, delta, d->0, a->0);
    }
    assert forall|d: Option<ItemM<W::M>>, a: Option<ItemM<W::M>>| divisor(d) && lean(a) implies gives(
        #[trigger] GallicWeightMin::<W>::divide_model(a, d, DivideType::DivideLeft),
        lean,
        failure,
    ) by {
        lemma_light_ops::<W>(fine, allowed, delta, a->0, d->0);
    }
}

proof fn lemma_light_push<W: WeaklyDivisibleSemiring + WeightQuantize>(
    fine: spec_fn(W::M) -> bool,
    allowed: spec_fn(FstError) -> bool,
    delta: W::Delta,
    list: Seq<ItemM<W::M>>,
    x: ItemM<W::M>,
)
    requires
        fine_weights::<W>(fine, allowed, delta),
        light_items::<W>(fine, list),
        light::<W>(fine, x),
    ensures
        gives(list_push::<W>(list, x), filled::<W>(fine, true), allowed),
{
    if list.len() > 0 {
        assert(light::<W>(fine, list[list.len() - 1]));
        assert(list.last() == list[list.len() - 1]);
        assert(gives(W::plus_model(list.last().weight, x.weight), fine, allowed));
    }
}

proof fn lemma_light_of<W: WeaklyDivisibleSemiring + WeightQuantize>(
    fine: spec_fn(W::M) -> bool,
    allowed: spec_fn(FstError) -> bool,
    delta: W::Delta,
    items: Seq<ItemM<W::M>>,
)
    requires
        fine_weights::<W>(fine, allowed, delta),
        forall|i: int| 0 <= i < items.len() ==> light::<W>(fine, #[trigger] items[i]),
    ensures
        gives(list_of::<W>(items), filled::<W>(fine, items.len() > 0), allowed),
    decreases items.len(),
{
    if items.len() > 0 {
        let init = items.drop_last();
        assert(forall|i: int| 0 <= i < init.len() ==> #[trigger] init[i] == items[i]);
        lemma_light_of::<W>(fine, allowed, delta, init);
        assert(items.last() == items[items.len() - 1]);
        if let Ok(list) = list_of::<W>(init) {
            lemma_light_push::<W>(fine, allowed, delta, list, items.last());
        }
    }
}

proof fn lemma_light_interleave<W: Semiring>(
    fine: spec_fn(W::M) -> bool,
    a: Seq<ItemM<W::M>>,
    b: Seq<ItemM<W::M>>,
)
    requires
        forall|i: int| 0 <= i < a.len() ==> light::<W>(fine, #[trigger] a[i]),
        forall|i: int| 0 <= i < b.len() ==> light::<W>(fine, #[trigger] b[i]),
    ensures
        interleave(a, b).len() == a.len() + b.len(),
        forall|i: int|
            0 <= i < interleave(a, b).len() ==> light::<W>(fine, #[trigger] interleave(a, b)[i]),
    decreases a.len() + b.len(),
{
    if a.len() > 0 && b.len() > 0 {
        let (a1, b1) = (a.drop_first(), b.drop_first());
        assert(forall|i: int| 0 <= i < a1.len() ==> #[trigger] a1[i] == a[i + 1]);
        assert(forall|i: int| 0 <= i < b1.len() ==> #[trigger] b1[i] == b[i + 1]);
        lemma_light_interleave::<W>(fine, a1, b);
        lemma_light_interleave::<W>(fine, a, b1);
        assert(light::<W>(fine, a[0]) && light::<W>(fine, b[0]));
    }
}

proof fn lemma_light_plus<W: WeaklyDivisibleSemiring + WeightQuantize>(
    fine: spec_fn(W::M) -> bool,
    allowed: spec_fn(FstError) -> bool,
    delta: W::Delta,
    a: Seq<ItemM<W::M>>,
    b: Seq<ItemM<W::M>>,
)
    requires
        fine_weights::<W>(fine, allowed, delta),
        light_items::<W>(fine, a),
        light_items::<W>(fine, b),
    ensures
        gives(
            GallicWeight::<W>::plus_model(a, b),
            filled::<W>(fine, a.len() + b.len() > 0),
            allowed,
        ),
{
    lemma_light_interleave::<W>(fine, a, b);
    lemma_light_of::<W>(fine, allowed, delta, interleave(a, b));
}

proof fn lemma_light_row<W: WeaklyDivisibleSemiring + WeightQuantize>(
    fine: spec_fn(W::M) -> bool,
    allowed: spec_fn(FstError) -> bool,
    delta: W::Delta,
    x: ItemM<W::M>,
    b: Seq<ItemM<W::M>>,
)
    requires
        fine_weights::<W>(fine, allowed, delta),
        light::<W>(fine, x),
        light_items::<W>(fine, b),
    ensures
        gives(row_times::<W>(x, b), filled::<W>(fine, b.len() > 0), allowed),
        x.string.len() == 0 && x.weight == W::one_model() ==> row_times::<W>(x, b) == Ok::<
            Seq<ItemM<W::M>>,
            FstError,
        >(b),
    decreases b.len(),
{
    if b.len() > 0 {
        let init = b.drop_last();
        assert(forall|i: int| 0 <= i < init.len() ==> #[trigger] init[i] == b[i]);
        lemma_light_row::<W>(fine, allowed, delta, x, init);
        let last = b.last();
        assert(last == b[b.len() - 1]);
        lemma_light_ops::<W>(fine, allowed, delta, x, last);
        if let Ok(list) = row_times::<W>(x, init) {
            if let Ok(c) = item_times::<W>(x, last) {
                lemma_light_push::<W>(fine, allowed, delta, list, c);
            }
        }
        if x.string.len() == 0 && x.weight == W::one_model() {
            assert(fine(last.weight));
            assert(x.string + last.string =~= last.string);
            assert(item_times::<W>(x, last) == Ok::<ItemM<W::M>, FstError>(last));
            if init.len() > 0 {
                assert(init.last() == b[b.len() - 2]);
                assert(b[b.len() - 2].string != b[b.len() - 1].string);
            }
            assert(init.push(last) =~= b);
        }
    } else {
        assert(b =~= Seq::empty());
    }
}

proof fn lemma_light_times<W: WeaklyDivisibleSemiring + WeightQuantize>(
    fine: spec_fn(W::M) -> bool,
    allowed: spec_fn(FstError) -> bool,
    delta: W::Delta,
    a: Seq<ItemM<W::M>>,
    b: Seq<ItemM<W::M>>,
)
    requires
        fine_weights::<W>(fine, allowed, delta),
        light_items::<W>(fine, a),
        light_items::<W>(fine, b),
    ensures
        gives(
            list_times::<W>(a, b),
            filled::<W>(fine, a.len() > 0 && b.len() > 0),
            allowed,
        ),
    decreases a.len(),
{
    if a.len() > 0 && b.len() > 0 {
        let init = a.drop_last();
        assert(forall|i: int| 0 <= i < init.len() ==> #[trigger] init[i] == a[i]);
        lemma_light_times::<W>(fine, allowed, delta, init, b);
        assert(a.last() == a[a.len() - 1]);
        lemma_light_row::<W>(fine, allowed, delta, a.last(), b);
        if let Ok(list) = list_times::<W>(init, b) {
            if let Ok(row) = row_times::<W>(a.last(), b) {
                lemma_light_plus::<W>(fine, allowed, delta, list, row);
            }
        }
    }
}

proof fn lemma_light_quotient<W: WeaklyDivisibleSemiring + WeightQuantize>(
    fine: spec_fn(W::M) -> bool,
    allowed: spec_fn(FstError) -> bool,
    delta: W::Delta,
    a: Seq<ItemM<W::M>>,
    y: ItemM<W::M>,
)
    requires
        fine_weights::<W>(fine, allowed, delta),
        light_items::<W>(fine, a),
        light::<W>(fine, y),
    ensures
        gives(
            each_by_one::<W>(a, y, DivideType::DivideLeft),
            filled::<W>(fine, a.len() > 0),
            allowed,
        ),
    decreases a.len(),
{
    if a.len() > 0 {
        let init = a.drop_last();
        assert(forall|i: int| 0 <= i < init.len() ==> #[trigger] init[i] == a[i]);
        lemma_light_quotient::<W>(fine, allowed, delta, init, y);
        assert(a.last() == a[a.len() - 1]);
        lemma_light_ops::<W>(fine, allowed, delta, a.last(), y);
        if let Ok(list) = each_by_one::<W>(init, y, DivideType::DivideLeft) {
            if let Ok(c) = item_divide::<W>(a.last(), y, DivideType::DivideLeft) {
                lemma_light_push::<W>(fine, allowed, delta, list, c);
            }
        }
    }
}

proof fn lemma_light_rounded<W: WeaklyDivisibleSemiring + WeightQuantize>(
    fine: spec_fn(W::M) -> bool,
    allowed: spec_fn(FstError) -> bool,
    delta: W::Delta,
    a: Seq<ItemM<W::M>>,
)
    requires
        fine_weights::<W>(fine, allowed, delta),
        light_items::<W>(fine, a),
    ensures
        match list_quantize::<W>(a, delta) {
            Ok(r) => {
                &&& r.len() == a.len()
                &&& forall|i: int|
                    0 <= i < a.len() ==> light::<W>(fine, #[trigger] r[i]) && r[i].string
                        == a[i].string
            },
            Err(e) => allowed(e),
        },
    decreases a.len(),
{
    if a.len() > 0 {
        let init = a.drop_last();
        assert(forall|i: int| 0 <= i < init.len() ==> #[trigger] init[i] == a[i]);
        lemma_light_rounded::<W>(fine, allowed, delta, init);
        assert(a.last() == a[a.len() - 1]);
        lemma_light_ops::<W>(fine, allowed, delta, a.last(), a.last());
    }
}

proof fn lemma_light_divisor<W: WeaklyDivisibleSemiring + WeightQuantize>(
    fine: spec_fn(W::M) -> bool,
    allowed: spec_fn(FstError) -> bool,
    delta: W::Delta,
    a: Seq<ItemM<W::M>>,
)
    requires
        fine_weights::<W>(fine, allowed, delta),
        a.len() > 0,
        forall|i: int| 0 <= i < a.len() ==> light::<W>(fine, #[trigger] a[i]),
    ensures
        match list_divisor::<W>(a) {
            Ok(d) => d matches Some(x) && short::<W>(fine, x),
            Err(e) => allowed(e),
        },
    decreases a.len(),
{
    let init = a.drop_last();
    assert(forall|i: int| 0 <= i < init.len() ==> #[trigger] init[i] == a[i]);
    assert(a.last() == a[a.len() - 1]);
    lemma_light_ops::<W>(fine, allowed, delta, a.last(), a.last());
    if init.len() > 0 {
        lemma_light_divisor::<W>(fine, allowed, delta, init);
        if let Ok(d) = list_divisor::<W>(init) {
            lemma_light_ops::<W>(fine, allowed, delta, d->0, a.last());
        }
    } else {
        assert(list_divisor::<W>(init) == Ok::<Option<ItemM<W::M>>, FstError>(None));
    }
}

proof fn lemma_light_by_short<W: WeaklyDivisibleSemiring + WeightQuantize>(
    fine: spec_fn(W::M) -> bool,
    allowed: spec_fn(FstError) -> bool,
    delta: W::Delta,
    a: Seq<ItemM<W::M>>,
    d: Seq<ItemM<W::M>>,
)
    requires
        fine_weights::<W>(fine, allowed, delta),
        light_list::<W>(fine)(a),
        short_list::<W>(fine)(d),
    ensures
        gives(
            GallicWeight::<W>::divide_model(a, d, DivideType::DivideLeft),
            light_list::<W>(fine),
            allowed,
        ),
{
    lemma_light_quotient::<W>(fine, allowed, delta, a, d[0]);
    lemma_light_ops::<W>(fine, allowed, delta, a[0], d[0]);
    reveal_with_fuel(one_by_each, 2);
    assert(d.drop_last() =~= Seq::empty());
    assert(d.last() == d[0]);
    if let Ok(c) = item_divide::<W>(a[0], d[0], DivideType::DivideLeft) {
        lemma_light_push::<W>(fine, allowed, delta, Seq::empty(), c);
    }
}

proof fn lemma_light_lists<W: WeaklyDivisibleSemiring + WeightQuantize>(
    fine: spec_fn(W::M) -> bool,
    allowed: spec_fn(FstError) -> bool,
    delta: W::Delta,
)
    requires
        fine_weights::<W>(fine, allowed, delta),
    ensures
        stays_lean::<GallicWeight<W>, GallicCommonDivisor>(
            light_list::<W>(fine),
            short_list::<W>(fine),
            allowed,
            delta,
        ),
{
    let lean = light_list::<W>(fine);
    let divisor = short_list::<W>(fine);
    let zero = GallicWeight::<W>::zero_model();
    assert(lean(GallicWeight::<W>::one_model()));
    assert forall|a: Seq<ItemM<W::M>>, b: Seq<ItemM<W::M>>| lean(a) && lean(b) implies gives(
        #[trigger] GallicWeight::<W>::times_model(a, b),
        lean,
        allowed,
    ) by {
        lemma_light_times::<W>(fine, allowed, delta, a, b);
    }
    assert forall|a: Seq<ItemM<W::M>>, b: Seq<ItemM<W::M>>| lean(a) && lean(b) implies gives(
        #[trigger] GallicWeight::<W>::plus_model(a, b),
        lean,
        allowed,
    ) by {
        lemma_light_plus::<W>(fine, allowed, delta, a, b);
    }
    assert forall|a: Seq<ItemM<W::M>>| lean(a) implies gives(
        #[trigger] GallicWeight::<W>::quantize_model(a, delta),
        lean,
        allowed,
    ) by {
        lemma_light_rounded::<W>(fine, allowed, delta, a);
    }
    assert forall|a: Seq<ItemM<W::M>>| lean(a) implies gives(
        #[trigger] <GallicCommonDivisor as CommonDivisor<GallicWeight<W>>>::common_divisor_model(
            zero,
            a,
        ),
        divisor,
        allowed,
    ) by {
        assert(zero + a =~= a);
        lemma_light_divisor::<W>(fine, allowed, delta, a);
    }
    assert forall|d: Seq<ItemM<W::M>>, a: Seq<ItemM<W::M>>| divisor(d) && lean(a) implies gives(
        #[trigger] <GallicCommonDivisor as CommonDivisor<GallicWeight<W>>>::common_divisor_model(
            d,
            a,
        ),
        divisor,
        allowed,
    ) by {
        let both = d + a;
        assert forall|i: int| 0 <= i < both.len() implies light::<W>(fine, #[trigger] both[i]) by {
            if i >= d.len() {
                assert(both[i] == a[i - d.len()]);
            } else {
                assert(both[i] == d[0]);
            }
        }
        lemma_light_divisor::<W>(fine, allowed, delta, both);
    }
    assert forall|d: Seq<ItemM<W::M>>, a: Seq<ItemM<W::M>>| divisor(d) && lean(a) implies gives(
        #[trigger] GallicWeight::<W>::divide_model(a, d, DivideType::DivideLeft),
        lean,
        allowed,
    ) by {
        lemma_light_by_short::<W>(fine, allowed, delta, a, d);
    }
}

/// Whatever comes from the determinized automaton fails for no further reason than want of
/// ids.
proof fn lemma_light_via<
    W: WeaklyDivisibleSemiring + WeightQuantize,
    G: Gallic<W> + WeaklyDivisibleSemiring + WeightQuantize,
    CD: CommonDivisor<G>,
>(
    fst: FstM<W::M>,
    delta: G::Delta,
    max_states: Option<usize>,
    lean: spec_fn(G::M) -> bool,
    divisor: spec_fn(G::M) -> bool,
    allowed: spec_fn(FstError) -> bool,
    clean: spec_fn(G::M) -> bool,
)
    requires
        closed_machine(to_gallic_model::<W, G>(fst)),
        lean_machine(to_gallic_model::<W, G>(fst), lean),
        stays_lean::<G, CD>(lean, divisor, allowed, delta),
        splits_cleanly::<W, G>(clean, G::Delta::kdelta_model()),
        G::properties_model().has(LEFT_SEMIRING),
        to_gallic_model::<W, G>(fst).properties.has(ACCEPTOR),
        forall|w: G::M| #[trigger]
            divisor(w) ==> G::extract_model(w) is Ok && G::times_model(G::one_model(), w) == Ok::<
                G::M,
                FstError,
            >(w),
        forall|w: G::M| #[trigger]
            lean(w) ==> clean(w) && G::times_model(G::one_model(), w) == Ok::<G::M, FstError>(w),
    ensures
        determinize_via_model::<W, G, CD>(fst, delta, max_states) matches Err(e) ==> allowed(e) || e
            == FstError::TooManyStates || (e matches FstError::StateBudgetExceeded { limit }
            && max_states == Some(limit)),
        det_compute::<G, CD>(to_gallic_model::<W, G>(fst), None, delta, max_states).1 is Ok ==> (
        determinize_via_model::<W, G, CD>(fst, delta, max_states) matches Err(e) ==> e
            == FstError::TooManyStates),
{
    let a = to_gallic_model::<W, G>(fst);
    law_lean_automaton_determinizes::<G, CD>(a, delta, max_states, lean, divisor, allowed);
    if let Ok(out) = det_compute::<G, CD>(a, None, delta, max_states).1 {
        law_determinize_fsa_is_deterministic::<G, CD>(a, None, delta, max_states);
        let begin = det_begin::<G>(a, None, delta);
        lemma_det_expansion::<G, CD>(begin.op);
        law_output_keeps_bounds::<G, DeterminizeFsaOp<'_, G, CD>, NullCache<G>>(
            begin,
            a.isymt,
            a.osymt,
            max_states,
            None,
        );
        assert(ready::<W, G>(out, clean)) by {
            assert forall|v: int, j: int|
                0 <= v < out.states.len() && 0 <= j < out.states[v].trs.len() implies plain_tr::<
                W,
                G,
            >(#[trigger] out.states[v].trs[j]) && G::times_model(
                G::one_model(),
                out.states[v].trs[j].weight,
            ) == Ok::<G::M, FstError>(out.states[v].trs[j].weight) by {
                assert(divisor(out.states[v].trs[j].weight));
            }
            assert forall|v: int| 0 <= v < out.states.len() implies match (
            #[trigger] out.states[v]).final_weight {
                Some(w) => clean(w) && G::times_model(G::one_model(), w) == Ok::<G::M, FstError>(w),
                None => true,
            } by {
                if let Some(w) = out.states[v].final_weight {
                    assert(lean(w));
                }
            }
        }
        law_factoring_succeeds::<W, G>(out, G::Delta::kdelta_model(), clean);
    }
}

proof fn lemma_left_kept(bits: u32)
    by (bit_vector)
    requires
        bits & LEFT_SEMIRING == LEFT_SEMIRING,
    ensures
        (bits & (LEFT_SEMIRING | RIGHT_SEMIRING | IDEMPOTENT)) & LEFT_SEMIRING == LEFT_SEMIRING,
        NULL_PROPERTIES & ACCEPTOR == ACCEPTOR,
        ACCEPTOR & ACCEPTOR == ACCEPTOR,
{
}

proof fn lemma_tropical_bits()
    by (bit_vector)
    ensures
        (LEFT_SEMIRING | RIGHT_SEMIRING | COMMUTATIVE | IDEMPOTENT | PATH) & LEFT_SEMIRING
            == LEFT_SEMIRING,
        (LEFT_SEMIRING | RIGHT_SEMIRING | COMMUTATIVE | IDEMPOTENT | PATH) & PATH == PATH,
{
}

/// The machine that carries what is written in its weights has light weights.
proof fn lemma_light_machines<W: WeaklyDivisibleSemiring + WeightQuantize>(
    fine: spec_fn(W::M) -> bool,
    fst: FstM<W::M>,
)
    requires
        lean_machine(fst, fine),
        closed_machine(fst),
    ensures
        lean_machine(
            to_gallic_model::<W, GallicWeightRestrict<W>>(fst),
            light_option::<W>(fine),
        ),
        lean_machine(to_gallic_model::<W, GallicWeightMin<W>>(fst), light_option::<W>(fine)),
        lean_machine(to_gallic_model::<W, GallicWeight<W>>(fst), light_list::<W>(fine)),
        closed_machine(to_gallic_model::<W, GallicWeightRestrict<W>>(fst)),
        closed_machine(to_gallic_model::<W, GallicWeightMin<W>>(fst)),
        closed_machine(to_gallic_model::<W, GallicWeight<W>>(fst)),
{
    assert forall|v: int, j: int|
        0 <= v < fst.states.len() && 0 <= j < fst.states[v].trs.len() implies fine(
        (#[trigger] fst.states[v].trs[j]).weight,
    ) by {}
    assert forall|v: int| 0 <= v < fst.states.len() implies match (
    #[trigger] fst.states[v]).final_weight {
        Some(w) => fine(w),
        None => true,
    } by {}
}

/// An acceptor whose weights are fine can be determinized, unless computing with them fails
/// with an error that is allowed, there are more subsets than ids, or than the bound allows.
pub proof fn law_acceptor_fails_for_a_reason<W: WeaklyDivisibleSemiring + WeightQuantize>(
    fst: FstM<W::M>,
    config: DeterminizeConfig<W::Delta>,
    fine: spec_fn(W::M) -> bool,
    allowed: spec_fn(FstError) -> bool,
)
    requires
        fst.properties.has(ACCEPTOR),
        W::properties_model().has(LEFT_SEMIRING),
        closed_machine(fst),
        lean_machine(fst, fine),
        fine_weights::<W>(fine, allowed, config.delta),
    ensures
        determinize_model::<W>(fst, config) matches Err(e) ==> allowed(e) || e
            == FstError::TooManyStates || (e matches FstError::StateBudgetExceeded { limit }
            && config.max_states == Some(limit)),
{
    law_lean_automaton_determinizes::<W, DefaultCommonDivisor>(
        fst,
        config.delta,
        config.max_states,
        fine,
        fine,
        allowed,
    );
}

/// A transducer whose weights are fine can be determinized, unless computing with them
/// fails with an error that is allowed, there are more subsets than ids, or than the bound
/// allows, or it is to be treated as functional and is found to write two strings for one.
/// Where several strings are asked for, or the best of them, that it writes several is no
/// reason to fail. Where it is refused as not functional, it has two ways: two paths that
/// read the same and write something different, and lead to the same state, or both to
/// final states.
pub proof fn law_transducer_fails_for_a_reason<W: WeaklyDivisibleSemiring + WeightQuantize>(
    fst: FstM<W::M>,
    config: DeterminizeConfig<W::Delta>,
    fine: spec_fn(W::M) -> bool,
    allowed: spec_fn(FstError) -> bool,
)
    requires
        !fst.properties.has(ACCEPTOR),
        W::properties_model().has(LEFT_SEMIRING),
        config.det_type == DeterminizeType::DeterminizeDisambiguate ==> W::properties_model().has(
            PATH,
        ),
        closed_machine(fst),
        lean_machine(fst, fine),
        fine_weights::<W>(fine, allowed, config.delta),
    ensures
        determinize_model::<W>(fst, config) matches Err(e) ==> allowed(e) || e
            == FstError::TooManyStates || (e matches FstError::StateBudgetExceeded { limit }
            && config.max_states == Some(limit)) || (e == FstError::NonFunctional
            && config.det_type == DeterminizeType::DeterminizeFunctional),
        weights_write_nothing::<W>() && !allowed(FstError::NonFunctional) && determinize_model::<W>(
            fst,
            config,
        ) == Err::<FstM<W::M>, FstError>(FstError::NonFunctional) ==> two_ways(fst),
{
    let (delta, bound) = (config.delta, config.max_states);
    if weights_write_nothing::<W>() {
        law_refused_automaton_has_two_ways::<W>(fst, delta, bound);
    }
    law_strings_split_cleanly::<W>(W::Delta::kdelta_model());
    lemma_left_kept(W::properties_model().bits);
    lemma_light_restricted::<W>(fine, allowed, delta);
    lemma_light_best::<W>(fine, allowed, delta);
    lemma_light_lists::<W>(fine, allowed, delta);
    lemma_light_machines::<W>(fine, fst);
    assert forall|a: Option<ItemM<W::M>>| #[trigger] light_option::<W>(fine)(a) implies
        GallicWeightRestrict::<W>::times_model(GallicWeightRestrict::<W>::one_model(), a) == Ok::<
        Option<ItemM<W::M>>,
        FstError,
    >(a) && GallicWeightMin::<W>::times_model(GallicWeightMin::<W>::one_model(), a) == Ok::<
        Option<ItemM<W::M>>,
        FstError,
    >(a) by {
        assert(fine(a->0.weight));
        assert(Seq::<Label>::empty() + a->0.string =~= a->0.string);
    }
    assert forall|a: Option<ItemM<W::M>>| #[trigger] short_option::<W>(fine)(a) implies
        light_option::<W>(fine)(a) && GallicWeightRestrict::<W>::extract_model(a) is Ok
        && GallicWeightMin::<W>::extract_model(a) is Ok by {
        let x = a->0;
        if x.string.len() == 1 {
            assert(x.string[0] != EPS_LABEL);
        }
    }
    assert forall|a: Seq<ItemM<W::M>>| #[trigger] light_list::<W>(fine)(a) implies clean_list::<
        W::M,
    >()(a) && GallicWeight::<W>::times_model(GallicWeight::<W>::one_model(), a) == Ok::<
        Seq<ItemM<W::M>>,
        FstError,
    >(a) by {
        let one = GallicWeight::<W>::one_model();
        lemma_light_row::<W>(fine, allowed, delta, one[0], a);
        reveal_with_fuel(list_times, 2);
        assert(one.drop_last() =~= Seq::empty());
        assert(one.last() == one[0]);
        assert forall|i: int| 0 <= i < a.len() implies no_empty_label((#[trigger] a[i]).string) by {
            assert(light::<W>(fine, a[i]));
        }
    }
    assert forall|a: Seq<ItemM<W::M>>| #[trigger] short_list::<W>(fine)(a) implies light_list::<W>(
        fine,
    )(a) && GallicWeight::<W>::extract_model(a) is Ok by {
        if a[0].string.len() == 1 {
            assert(a[0].string[0] != EPS_LABEL);
        }
    }
    match config.det_type {
        DeterminizeType::DeterminizeDisambiguate => {
            lemma_light_via::<W, GallicWeightMin<W>, GallicCommonDivisor>(
                fst,
                delta,
                bound,
                light_option::<W>(fine),
                short_option::<W>(fine),
                allowed,
                clean_option::<W::M>(),
            );
        },
        DeterminizeType::DeterminizeFunctional => {
            lemma_light_via::<W, GallicWeightRestrict<W>, GallicCommonDivisor>(
                fst,
                delta,
                bound,
                light_option::<W>(fine),
                short_option::<W>(fine),
                or_not_functional(allowed),
                clean_option::<W::M>(),
            );
        },
        DeterminizeType::DeterminizeNonFunctional => {
            lemma_light_via::<W, GallicWeight<W>, GallicCommonDivisor>(
                fst,
                delta,
                bound,
                light_list::<W>(fine),
                short_list::<W>(fine),
                allowed,
                clean_list::<W::M>(),
            );
        },
    }
}

/// Every weight of the machine is one.
pub open spec fn unweighted<W: Semiring>(fst: FstM<W::M>) -> bool {
    lean_machine(fst, |w: W::M| w == W::one_model())
}

/// A transducer without weights can be determinized, unless there are more subsets than
/// ids, or than the bound allows, or it is to be treated as functional and is found to
/// write two strings for one.
pub proof fn law_unweighted_transducer_determinizes<W: WeaklyDivisibleSemiring + WeightQuantize>(
    fst: FstM<W::M>,
    config: DeterminizeConfig<W::Delta>,
)
    requires
        !fst.properties.has(ACCEPTOR),
        W::properties_model().has(LEFT_SEMIRING),
        config.det_type == DeterminizeType::DeterminizeDisambiguate ==> W::properties_model().has(
            PATH,
        ),
        closed_machine(fst),
        unweighted::<W>(fst),
        unit_is_stable::<W>(config.delta),
        W::quantize_model(W::one_model(), W::Delta::kdelta_model()) == Ok::<W::M, FstError>(
            W::one_model(),
        ),
        W::one_model() != W::zero_model(),
    ensures
        determinize_model::<W>(fst, config) matches Err(e) ==> e == FstError::TooManyStates || (
        e matches FstError::StateBudgetExceeded { limit } && config.max_states == Some(limit)) || (
        e == FstError::NonFunctional && config.det_type == DeterminizeType::DeterminizeFunctional),
{
    law_transducer_fails_for_a_reason::<W>(
        fst,
        config,
        |w: W::M| w == W::one_model(),
        |e: FstError| false,
    );
}

/// Every cost of the machine is finite and lies within the representation.
pub open spec fn finite_costs(fst: FstM<Option<int>>) -> bool {
    lean_machine(fst, |w: Option<int>| w matches Some(x) && fits(x))
}

/// A machine with finite costs can be determinized, unless a cost does not fit, there are
/// more subsets than ids, or than the bound allows, or a transducer is to be treated as
/// functional and has two ways: two paths that read the same and write something different,
/// and lead to the same state, or both to final states.
pub proof fn law_tropical_determinization_fails_for_a_reason(
    fst: FstM<Option<int>>,
    config: DeterminizeConfig<TickDelta>,
)
    requires
        closed_machine(fst),
        finite_costs(fst),
    ensures
        determinize_model::<TropicalWeight>(fst, config) matches Err(e) ==> e
            == FstError::WeightOverflow || e == FstError::TooManyStates || (
        e matches FstError::StateBudgetExceeded { limit } && config.max_states == Some(limit)) || (
        e == FstError::NonFunctional && config.det_type == DeterminizeType::DeterminizeFunctional
            && !fst.properties.has(ACCEPTOR) && two_ways(fst)),
{
    let fine = |w: Option<int>| w matches Some(x) && fits(x);
    let allowed = |e: FstError| e == FstError::WeightOverflow;
    law_tropical_unit_is_stable(config.delta);
    law_tropical_unit_is_stable(TickDelta::kdelta_model());
    lemma_tropical_bits();
    assert(fine_weights::<TropicalWeight>(fine, allowed, config.delta));
    if fst.properties.has(ACCEPTOR) {
        law_acceptor_fails_for_a_reason::<TropicalWeight>(fst, config, fine, allowed);
    } else {
        law_transducer_fails_for_a_reason::<TropicalWeight>(fst, config, fine, allowed);
    }
}

} // verus!
