//! Weights with the path property: of two weights one is the better.

use crate::prune::natural_less_model;
use crate::semirings::laws::{SelectiveSum, SemiringLaws};
use crate::semirings::series::no_value;
use crate::semirings::tropical::TropicalWeight;
use vstd::prelude::*;

verus! {

/// A semiring with the path property: any two weights have a sum, which is one of them,
/// and different weights have different values.
pub trait PathWeights: SelectiveSum {
    proof fn law_sum_exists(a: Self::M, b: Self::M)
        ensures
            Self::plus_model(a, b) is Ok,
    ;

    proof fn law_same(a: Self::M, b: Self::M)
        ensures
            Self::value(a) == Self::value(b) ==> a == b,
    ;
}

impl PathWeights for TropicalWeight {
    proof fn law_sum_exists(a: Option<int>, b: Option<int>) {
    }

    proof fn law_same(a: Option<int>, b: Option<int>) {
    }
}

/// `a` is at least as good as `b`.
pub open spec fn at_most<W: SemiringLaws>(a: W::V, b: W::V) -> bool {
    W::sum(a, b) == a
}

pub proof fn lemma_at_most_self<W: PathWeights>(a: W::V)
    ensures
        at_most::<W>(a, a),
{
    W::law_sum_selects(a, a);
}

pub proof fn lemma_at_most_chain<W: PathWeights>(a: W::V, b: W::V, c: W::V)
    requires
        at_most::<W>(a, b),
        at_most::<W>(b, c),
    ensures
        at_most::<W>(a, c),
{
    W::law_sum_associative(a, b, c);
}

pub proof fn lemma_at_most_both<W: PathWeights>(a: W::V, b: W::V)
    requires
        at_most::<W>(a, b),
        at_most::<W>(b, a),
    ensures
        a == b,
{
    W::law_sum_commutative(a, b);
}

/// Nothing is worse than what is no way at all.
pub proof fn lemma_at_most_nothing<W: PathWeights>(a: W::V)
    ensures
        at_most::<W>(a, no_value::<W>()),
        at_most::<W>(no_value::<W>(), a) ==> a == no_value::<W>(),
{
    W::law_sum_zero(a);
    W::law_sum_commutative(a, no_value::<W>());
}

/// What is better stays better with the same before it, or after it.
pub proof fn lemma_at_most_product<W: PathWeights>(a: W::V, b: W::V, c: W::V)
    requires
        at_most::<W>(a, b),
    ensures
        at_most::<W>(W::product(c, a), W::product(c, b)),
        at_most::<W>(W::product(a, c), W::product(b, c)),
{
    W::law_distributive(c, a, b);
    W::law_distributive(a, b, c);
}

/// A sum is at least as good as its parts.
pub proof fn lemma_at_most_sum<W: PathWeights>(a: W::V, b: W::V)
    ensures
        at_most::<W>(W::sum(a, b), a),
        at_most::<W>(W::sum(a, b), b),
{
    W::law_sum_selects(a, b);
    W::law_sum_commutative(a, b);
    W::law_sum_selects(a, a);
    W::law_sum_selects(b, b);
}

/// What the natural order says is what the sum says.
pub proof fn lemma_natural_order<W: PathWeights>(limit: W::M, x: W::M)
    ensures
        !natural_less_model::<W>(limit, x) <==> at_most::<W>(W::value(x), W::value(limit)),
{
    W::law_sum_exists(limit, x);
    W::law_selects(limit, x);
    W::law_plus(limit, x);
    W::law_same(limit, x);
    W::law_sum_commutative(W::value(limit), W::value(x));
    lemma_at_most_self::<W>(W::value(x));
    let c = W::plus_model(limit, x)->Ok_0;
    W::law_same(c, limit);
}

} // verus!
