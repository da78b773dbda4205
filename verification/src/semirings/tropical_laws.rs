//! What the operations on tropical weights compute, and when they fail.

use crate::error::FstError;
use crate::semirings::semiring::{
    DivideType, Semiring, WeaklyDivisibleSemiring, WeightQuantize, COMMUTATIVE, IDEMPOTENT,
    LEFT_SEMIRING, PATH, RIGHT_SEMIRING,
};
use crate::semirings::tropical::{nearest_multiple, TickDelta, TropicalWeight};
use vstd::prelude::*;

verus! {

/// The number lies within the representation.
pub open spec fn fits(x: int) -> bool {
    i64::MIN <= x <= i64::MAX
}

/// A sum always exists. It is one of its parts, and the smaller one: nothing is larger
/// than infinity.
pub proof fn law_tropical_sum_is_smaller(a: Option<int>, b: Option<int>)
    ensures
        TropicalWeight::plus_model(a, b) matches Ok(c) && (c == a || c == b) && (a matches Some(x)
            ==> c is Some && c->Some_0 <= x) && (b matches Some(y) ==> c is Some && c->Some_0
            <= y),
{
}

proof fn lemma_five_bits(bits: u32)
    by (bit_vector)
    requires
        bits == LEFT_SEMIRING | RIGHT_SEMIRING | COMMUTATIVE | IDEMPOTENT | PATH,
    ensures
        bits & LEFT_SEMIRING == LEFT_SEMIRING,
        bits & RIGHT_SEMIRING == RIGHT_SEMIRING,
        bits & COMMUTATIVE == COMMUTATIVE,
        bits & IDEMPOTENT == IDEMPOTENT,
        bits & PATH == PATH,
{
}

/// What is said of tropical weights is said, and holds of them: products distribute over
/// sums from both sides, as far as they fit, and can be taken in any order; the sum of a
/// weight with itself is that weight; and a sum is one of its parts.
pub proof fn law_tropical_properties_hold(a: Option<int>, b: Option<int>, c: Option<int>)
    ensures
        TropicalWeight::properties_model().has(LEFT_SEMIRING),
        TropicalWeight::properties_model().has(RIGHT_SEMIRING),
        TropicalWeight::properties_model().has(COMMUTATIVE),
        TropicalWeight::properties_model().has(IDEMPOTENT),
        TropicalWeight::properties_model().has(PATH),
        ({
            let sum = TropicalWeight::plus_model(a, b)->Ok_0;
            let (left, right) = (
                TropicalWeight::times_model(c, a),
                TropicalWeight::times_model(c, b),
            );
            left is Ok && right is Ok ==> TropicalWeight::times_model(c, sum)
                == TropicalWeight::plus_model(left->Ok_0, right->Ok_0)
                && TropicalWeight::times_model(sum, c) == TropicalWeight::plus_model(
                left->Ok_0,
                right->Ok_0,
            )
        }),
        TropicalWeight::times_model(a, b) == TropicalWeight::times_model(b, a),
        TropicalWeight::plus_model(a, b) == TropicalWeight::plus_model(b, a),
        TropicalWeight::plus_model(a, a) == Ok::<Option<int>, FstError>(a),
        TropicalWeight::plus_model(a, b) == Ok::<Option<int>, FstError>(a)
            || TropicalWeight::plus_model(a, b) == Ok::<Option<int>, FstError>(b),
{
    lemma_five_bits(TropicalWeight::properties_model().bits);
}

/// A product adds finite costs, and fails exactly when the sum does not fit. Whatever is
/// multiplied with infinity is infinite.
pub proof fn law_tropical_product_adds(x: int, y: int, a: Option<int>)
    ensures
        fits(x + y) ==> TropicalWeight::times_model(Some(x), Some(y)) == Ok::<
            Option<int>,
            FstError,
        >(Some(x + y)),
        !fits(x + y) ==> TropicalWeight::times_model(Some(x), Some(y)) == Err::<
            Option<int>,
            FstError,
        >(FstError::WeightOverflow),
        TropicalWeight::times_model(None, a) == Ok::<Option<int>, FstError>(None),
        TropicalWeight::times_model(a, None) == Ok::<Option<int>, FstError>(None),
{
}

/// A quotient subtracts finite costs, and fails exactly when the difference does not fit.
/// Infinity divided by a finite cost is infinite; nothing can be divided by infinity.
pub proof fn law_tropical_quotient_subtracts(x: int, y: int, a: Option<int>, side: DivideType)
    ensures
        fits(x - y) ==> TropicalWeight::divide_model(Some(x), Some(y), side) == Ok::<
            Option<int>,
            FstError,
        >(Some(x - y)),
        !fits(x - y) ==> TropicalWeight::divide_model(Some(x), Some(y), side) == Err::<
            Option<int>,
            FstError,
        >(FstError::WeightOverflow),
        TropicalWeight::divide_model(None, Some(y), side) == Ok::<Option<int>, FstError>(None),
        TropicalWeight::divide_model(a, None, side) == Err::<Option<int>, FstError>(
            FstError::DivisionByZero,
        ),
{
}

/// Division takes back what multiplication did, as long as the product fits.
pub proof fn law_tropical_division_undoes_product(x: int, y: int, side: DivideType)
    requires
        fits(x),
        fits(y),
        fits(x + y),
    ensures
        TropicalWeight::divide_model(
            TropicalWeight::times_model(Some(x), Some(y))->Ok_0,
            Some(x),
            side,
        ) == Ok::<Option<int>, FstError>(Some(y)),
{
}

/// Rounding goes to a multiple of the step, no further than half a step away, and upwards
/// where two are equally near. It fails exactly when that does not fit. Infinity stays
/// infinite, and without a step nothing is rounded.
pub proof fn law_tropical_rounding_is_nearest(x: int, delta: TickDelta)
    requires
        fits(x),
    ensures
        delta.ticks == 0 ==> TropicalWeight::quantize_model(Some(x), delta) == Ok::<
            Option<int>,
            FstError,
        >(Some(x)),
        delta.ticks > 0 ==> exists|k: int| {
            let near = #[trigger] (k * delta.ticks);
            &&& -delta.ticks < 2 * (near - x) <= delta.ticks
            &&& TropicalWeight::quantize_model(Some(x), delta) == if fits(near) {
                Ok::<Option<int>, FstError>(Some(near))
            } else {
                Err::<Option<int>, FstError>(FstError::WeightOverflow)
            }
        },
        TropicalWeight::quantize_model(None, delta) == Ok::<Option<int>, FstError>(None),
{
    let step = delta.ticks as int;
    if step > 0 {
        let k = (2 * x + step) / (2 * step);
        vstd::arithmetic::div_mod::lemma_fundamental_div_mod(2 * x + step, 2 * step);
        vstd::arithmetic::div_mod::lemma_mod_bound(2 * x + step, 2 * step);
        assert((2 * step) * k == 2 * (k * step)) by (nonlinear_arith);
        let near = k * delta.ticks;
        assert(near == nearest_multiple(x, step));
        assert(-step < 2 * (near - x) <= step);
    }
}

/// What has been rounded stays as it is when it is rounded again.
pub proof fn law_tropical_rounding_is_stable(a: Option<int>, delta: TickDelta)
    ensures
        TropicalWeight::quantize_model(a, delta) matches Ok(b) ==> TropicalWeight::quantize_model(
            b,
            delta,
        ) == Ok::<Option<int>, FstError>(b),
{
    let step = delta.ticks as int;
    if step > 0 {
        if let Some(x) = a {
            let k = (2 * x + step) / (2 * step);
            let near = k * step;
            assert((2 * near + step) / (2 * step) == k) by {
                assert(2 * (k * step) + step == k * (2 * step) + step) by (nonlinear_arith);
                vstd::arithmetic::div_mod::lemma_fundamental_div_mod_converse(
                    2 * near + step,
                    2 * step,
                    k,
                    step,
                );
            }
        }
    }
}

} // verus!
