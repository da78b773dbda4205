//! The algebra behind a semiring.

use crate::semirings::semiring::{DivideType, Semiring, WeaklyDivisibleSemiring, WeightQuantize};
use crate::semirings::tropical::{
    nearest_multiple, tropical_add, tropical_min, TickDelta, TropicalWeight,
};
use vstd::prelude::*;

verus! {

/// A semiring whose sum and product are those of an algebra, as long as they do
/// not fail.
pub trait SemiringLaws: Semiring {
    /// The values of the algebra.
    type V;

    /// The value that a weight stands for.
    spec fn value(a: Self::M) -> Self::V;

    /// The sum of the algebra.
    spec fn sum(a: Self::V, b: Self::V) -> Self::V;

    /// The product of the algebra.
    spec fn product(a: Self::V, b: Self::V) -> Self::V;

    proof fn law_plus(a: Self::M, b: Self::M)
        ensures
            Self::plus_model(a, b) matches Ok(c) ==> Self::value(c) == Self::sum(
                Self::value(a),
                Self::value(b),
            ),
    ;

    proof fn law_times(a: Self::M, b: Self::M)
        ensures
            Self::times_model(a, b) matches Ok(c) ==> Self::value(c) == Self::product(
                Self::value(a),
                Self::value(b),
            ),
    ;

    proof fn law_sum_associative(a: Self::V, b: Self::V, c: Self::V)
        ensures
            Self::sum(Self::sum(a, b), c) == Self::sum(a, Self::sum(b, c)),
    ;

    proof fn law_sum_commutative(a: Self::V, b: Self::V)
        ensures
            Self::sum(a, b) == Self::sum(b, a),
    ;

    proof fn law_sum_zero(a: Self::V)
        ensures
            Self::sum(Self::value(Self::zero_model()), a) == a,
    ;

    proof fn law_product_associative(a: Self::V, b: Self::V, c: Self::V)
        ensures
            Self::product(Self::product(a, b), c) == Self::product(a, Self::product(b, c)),
    ;

    proof fn law_product_one(a: Self::V)
        ensures
            Self::product(Self::value(Self::one_model()), a) == a,
            Self::product(a, Self::value(Self::one_model())) == a,
    ;

    proof fn law_product_zero(a: Self::V)
        ensures
            Self::product(a, Self::value(Self::zero_model())) == Self::value(Self::zero_model()),
            Self::product(Self::value(Self::zero_model()), a) == Self::value(Self::zero_model()),
    ;

    /// The product distributes over the sum on both sides.
    proof fn law_distributive(a: Self::V, b: Self::V, c: Self::V)
        ensures
            Self::product(a, Self::sum(b, c)) == Self::sum(
                Self::product(a, b),
                Self::product(a, c),
            ),
            Self::product(Self::sum(a, b), c) == Self::sum(
                Self::product(a, c),
                Self::product(b, c),
            ),
    ;
}

/// A semiring with an algebra behind it, in which weights can be divided and
/// rounded.
pub trait ExactWeights: SemiringLaws + WeaklyDivisibleSemiring + WeightQuantize {

}

/// A semiring in which a quotient, where there is one, gives the dividend back.
pub trait ExactDivision: ExactWeights {
    proof fn law_divide(a: Self::M, b: Self::M)
        ensures
            Self::divide_model(a, b, DivideType::DivideLeft) matches Ok(c) ==> Self::product(
                Self::value(b),
                Self::value(c),
            ) == Self::value(a),
    ;
}

/// A semiring in which a sum is one of its two parts.
pub trait SelectiveSum: SemiringLaws {
    proof fn law_selects(a: Self::M, b: Self::M)
        ensures
            Self::plus_model(a, b) matches Ok(c) ==> c == a || c == b,
    ;

    proof fn law_sum_selects(a: Self::V, b: Self::V)
        ensures
            Self::sum(a, b) == a || Self::sum(a, b) == b,
    ;
}

/// Rounding to `delta` changes nothing.
pub open spec fn exact_step<W: WeightQuantize>(delta: W::Delta) -> bool {
    forall|a: W::M|
        (#[trigger] W::quantize_model(a, delta)) matches Ok(b) ==> b == a
}

impl SemiringLaws for TropicalWeight {
    type V = Option<int>;

    open spec fn value(a: Option<int>) -> Option<int> {
        a
    }

    open spec fn sum(a: Option<int>, b: Option<int>) -> Option<int> {
        tropical_min(a, b)
    }

    open spec fn product(a: Option<int>, b: Option<int>) -> Option<int> {
        tropical_add(a, b)
    }

    proof fn law_plus(a: Option<int>, b: Option<int>) {
    }

    proof fn law_times(a: Option<int>, b: Option<int>) {
    }

    proof fn law_sum_associative(a: Option<int>, b: Option<int>, c: Option<int>) {
    }

    proof fn law_sum_commutative(a: Option<int>, b: Option<int>) {
    }

    proof fn law_sum_zero(a: Option<int>) {
    }

    proof fn law_product_associative(a: Option<int>, b: Option<int>, c: Option<int>) {
    }

    proof fn law_product_one(a: Option<int>) {
    }

    proof fn law_product_zero(a: Option<int>) {
    }

    proof fn law_distributive(a: Option<int>, b: Option<int>, c: Option<int>) {
    }
}

impl ExactWeights for TropicalWeight {

}

impl ExactDivision for TropicalWeight {
    proof fn law_divide(a: Option<int>, b: Option<int>) {
    }
}

impl SelectiveSum for TropicalWeight {
    proof fn law_selects(a: Option<int>, b: Option<int>) {
    }

    proof fn law_sum_selects(a: Option<int>, b: Option<int>) {
    }
}

/// Rounding a tropical weight to single ticks, which is what happens unless the
/// caller chooses otherwise, changes nothing.
pub proof fn law_tropical_default_step_is_exact()
    ensures
        exact_step::<TropicalWeight>(TickDelta { ticks: 1 }),
        exact_step::<TropicalWeight>(TickDelta { ticks: 0 }),
{
    assert forall|x: int| #[trigger] nearest_multiple(x, 1) == x by {
        assert((2 * x + 1) / 2 == x);
    }
}

} // verus!
