//! How far apart rounding moves weights.

use crate::error::FstError;
use crate::semirings::gallic::{option_quantize, GallicWeightMin, GallicWeightRestrict, ItemM};
use crate::semirings::gallic_laws::{item_value, list_value};
use crate::semirings::gallic_union::{list_quantize, GallicWeight};
use crate::semirings::laws::{ExactWeights, SelectiveSum, SemiringLaws};
use crate::semirings::series::{cut, no_value, series_product, series_sum, terms, Series};
use crate::semirings::tropical::{nearest_multiple, TickDelta, TropicalWeight};
use vstd::prelude::*;

verus! {

/// A semiring with an algebra behind it in which rounding moves a weight by no more
/// than half a step.
pub trait RoundedWeights: ExactWeights {
    /// The two values differ by no more than half of `steps`.
    spec fn near(a: Self::V, b: Self::V, steps: int) -> bool;

    /// How large the steps are that rounding goes by.
    spec fn step(delta: Self::Delta) -> int;

    proof fn law_step(delta: Self::Delta)
        ensures
            Self::step(delta) >= 0,
    ;

    proof fn law_near_self(a: Self::V, steps: int)
        ensures
            steps >= 0 ==> Self::near(a, a, steps),
    ;

    proof fn law_near_chain(a: Self::V, b: Self::V, c: Self::V, m: int, n: int)
        ensures
            Self::near(a, b, m) && Self::near(b, c, n) ==> Self::near(a, c, m + n),
    ;

    proof fn law_near_sum(a: Self::V, b: Self::V, c: Self::V, d: Self::V, steps: int)
        ensures
            Self::near(a, b, steps) && Self::near(c, d, steps) ==> Self::near(
                Self::sum(a, c),
                Self::sum(b, d),
                steps,
            ),
    ;

    proof fn law_near_product(a: Self::V, b: Self::V, c: Self::V, steps: int)
        ensures
            Self::near(a, b, steps) ==> Self::near(
                Self::product(c, a),
                Self::product(c, b),
                steps,
            ) && Self::near(Self::product(a, c), Self::product(b, c), steps),
    ;

    proof fn law_quantize(a: Self::M, delta: Self::Delta)
        ensures
            Self::quantize_model(a, delta) matches Ok(b) ==> Self::near(
                Self::value(b),
                Self::value(a),
                Self::step(delta),
            ),
    ;
}

/// The two costs are both infinite, or they differ by no more than half of `steps`
/// ticks.
pub open spec fn within_half(a: Option<int>, b: Option<int>, steps: int) -> bool {
    match (a, b) {
        (None, None) => steps >= 0,
        (Some(x), Some(y)) => -steps <= 2 * (x - y) <= steps,
        _ => false,
    }
}

/// Rounding goes to a nearest multiple.
proof fn lemma_nearest(x: int, step: int)
    requires
        step >= 0,
    ensures
        -step <= 2 * (nearest_multiple(x, step) - x) <= step,
{
    if step > 0 {
        let q = (2 * x + step) / (2 * step);
        vstd::arithmetic::div_mod::lemma_fundamental_div_mod(2 * x + step, 2 * step);
        vstd::arithmetic::div_mod::lemma_mod_bound(2 * x + step, 2 * step);
        assert((2 * step) * q == 2 * (q * step)) by (nonlinear_arith);
    }
}

impl RoundedWeights for TropicalWeight {
    open spec fn near(a: Option<int>, b: Option<int>, steps: int) -> bool {
        within_half(a, b, steps)
    }

    open spec fn step(delta: TickDelta) -> int {
        delta.ticks as int
    }

    proof fn law_step(delta: TickDelta) {
    }

    proof fn law_near_self(a: Option<int>, steps: int) {
    }

    proof fn law_near_chain(a: Option<int>, b: Option<int>, c: Option<int>, m: int, n: int) {
    }

    proof fn law_near_sum(
        a: Option<int>,
        b: Option<int>,
        c: Option<int>,
        d: Option<int>,
        steps: int,
    ) {
    }

    proof fn law_near_product(a: Option<int>, b: Option<int>, c: Option<int>, steps: int) {
    }

    proof fn law_quantize(a: Option<int>, delta: TickDelta) {
        if let Some(x) = a {
            lemma_nearest(x, delta.ticks as int);
        }
    }
}

/// The coefficients of the two series are near each other, string by string.
pub open spec fn series_near<W: RoundedWeights>(
    f: Series<W::V>,
    g: Series<W::V>,
    steps: int,
) -> bool {
    forall|y| W::near(#[trigger] f(y), g(y), steps)
}

proof fn lemma_series_near_self<W: RoundedWeights>(f: Series<W::V>, steps: int)
    requires
        steps >= 0,
    ensures
        series_near::<W>(f, f, steps),
{
    assert forall|y| W::near(#[trigger] f(y), f(y), steps) by {
        W::law_near_self(f(y), steps);
    }
}

proof fn lemma_series_near_chain<W: RoundedWeights>(
    f: Series<W::V>,
    g: Series<W::V>,
    h: Series<W::V>,
    m: int,
    n: int,
)
    requires
        series_near::<W>(f, g, m),
        series_near::<W>(g, h, n),
    ensures
        series_near::<W>(f, h, m + n),
{
    assert forall|y| W::near(#[trigger] f(y), h(y), m + n) by {
        assert(W::near(f(y), g(y), m));
        assert(W::near(g(y), h(y), n));
        W::law_near_chain(f(y), g(y), h(y), m, n);
    }
}

proof fn lemma_series_near_sum<W: RoundedWeights>(
    f: Series<W::V>,
    g: Series<W::V>,
    h: Series<W::V>,
    k: Series<W::V>,
    steps: int,
)
    requires
        series_near::<W>(f, g, steps),
        series_near::<W>(h, k, steps),
    ensures
        series_near::<W>(series_sum::<W>(f, h), series_sum::<W>(g, k), steps),
{
    let (a, b) = (series_sum::<W>(f, h), series_sum::<W>(g, k));
    assert forall|y| W::near(#[trigger] a(y), b(y), steps) by {
        assert(W::near(f(y), g(y), steps));
        assert(W::near(h(y), k(y), steps));
        W::law_near_sum(f(y), g(y), h(y), k(y), steps);
    }
}

/// Sums of terms that are near each other are near each other.
proof fn lemma_terms_near<W: RoundedWeights>(
    f: spec_fn(int) -> W::V,
    g: spec_fn(int) -> W::V,
    a: int,
    b: int,
    steps: int,
)
    requires
        steps >= 0,
        forall|i: int| a <= i < b ==> W::near(#[trigger] f(i), g(i), steps),
    ensures
        W::near(terms::<W>(f, a, b), terms::<W>(g, a, b), steps),
    decreases b - a,
{
    if b <= a {
        W::law_near_self(terms::<W>(f, a, b), steps);
    } else {
        lemma_terms_near::<W>(f, g, a, b - 1, steps);
        assert(W::near(f(b - 1), g(b - 1), steps));
        W::law_near_sum(
            terms::<W>(f, a, b - 1),
            terms::<W>(g, a, b - 1),
            f(b - 1),
            g(b - 1),
            steps,
        );
    }
}

proof fn lemma_series_near_product<W: RoundedWeights>(
    f: Series<W::V>,
    g: Series<W::V>,
    h: Series<W::V>,
    steps: int,
)
    requires
        series_near::<W>(f, g, steps),
        steps >= 0,
    ensures
        series_near::<W>(series_product::<W>(h, f), series_product::<W>(h, g), steps),
        series_near::<W>(series_product::<W>(f, h), series_product::<W>(g, h), steps),
{
    let (a, b) = (series_product::<W>(h, f), series_product::<W>(h, g));
    assert forall|y| W::near(#[trigger] a(y), b(y), steps) by {
        let (p, q) = (cut::<W>(h, f, y), cut::<W>(h, g, y));
        assert forall|i: int| 0 <= i < y.len() + 1 implies W::near(#[trigger] p(i), q(i), steps) by {
            assert(W::near(f(y.skip(i)), g(y.skip(i)), steps));
            W::law_near_product(f(y.skip(i)), g(y.skip(i)), h(y.take(i)), steps);
        }
        lemma_terms_near::<W>(p, q, 0, y.len() as int + 1, steps);
    }
    let (c, d) = (series_product::<W>(f, h), series_product::<W>(g, h));
    assert forall|y| W::near(#[trigger] c(y), d(y), steps) by {
        let (p, q) = (cut::<W>(f, h, y), cut::<W>(g, h, y));
        assert forall|i: int| 0 <= i < y.len() + 1 implies W::near(#[trigger] p(i), q(i), steps) by {
            assert(W::near(f(y.take(i)), g(y.take(i)), steps));
            W::law_near_product(f(y.take(i)), g(y.take(i)), h(y.skip(i)), steps);
        }
        lemma_terms_near::<W>(p, q, 0, y.len() as int + 1, steps);
    }
}

/// Rounding an item moves its coefficient by no more than half a step.
proof fn lemma_item_near<W: RoundedWeights>(a: ItemM<W::M>, weight: W::M, delta: W::Delta)
    requires
        W::quantize_model(a.weight, delta) == Ok::<W::M, FstError>(weight),
    ensures
        series_near::<W>(
            item_value::<W>(ItemM { string: a.string, weight }),
            item_value::<W>(a),
            W::step(delta),
        ),
{
    let (f, g) = (item_value::<W>(ItemM { string: a.string, weight }), item_value::<W>(a));
    W::law_quantize(a.weight, delta);
    W::law_step(delta);
    assert forall|y| W::near(#[trigger] f(y), g(y), W::step(delta)) by {
        W::law_near_self(g(y), W::step(delta));
    }
}

proof fn lemma_list_near<W: RoundedWeights>(a: Seq<ItemM<W::M>>, delta: W::Delta)
    ensures
        list_quantize::<W>(a, delta) matches Ok(b) ==> series_near::<W>(
            list_value::<W>(b),
            list_value::<W>(a),
            W::step(delta),
        ),
    decreases a.len(),
{
    W::law_step(delta);
    if a.len() == 0 {
        lemma_series_near_self::<W>(list_value::<W>(a), W::step(delta));
    } else {
        lemma_list_near::<W>(a.drop_last(), delta);
        if let Ok(b) = list_quantize::<W>(a, delta) {
            let before = list_quantize::<W>(a.drop_last(), delta)->Ok_0;
            assert(b.drop_last() =~= before);
            lemma_item_near::<W>(a.last(), b.last().weight, delta);
            lemma_series_near_sum::<W>(
                list_value::<W>(before),
                list_value::<W>(a.drop_last()),
                item_value::<W>(b.last()),
                item_value::<W>(a.last()),
                W::step(delta),
            );
        }
    }
}

impl<W: RoundedWeights> RoundedWeights for GallicWeightRestrict<W> {
    open spec fn near(a: Series<W::V>, b: Series<W::V>, steps: int) -> bool {
        steps >= 0 && series_near::<W>(a, b, steps)
    }

    open spec fn step(delta: W::Delta) -> int {
        W::step(delta)
    }

    proof fn law_step(delta: W::Delta) {
        W::law_step(delta);
    }

    proof fn law_near_self(a: Series<W::V>, steps: int) {
        if steps >= 0 {
            lemma_series_near_self::<W>(a, steps);
        }
    }

    proof fn law_near_chain(
        a: Series<W::V>,
        b: Series<W::V>,
        c: Series<W::V>,
        m: int,
        n: int,
    ) {
        if Self::near(a, b, m) && Self::near(b, c, n) {
            lemma_series_near_chain::<W>(a, b, c, m, n);
        }
    }

    proof fn law_near_sum(
        a: Series<W::V>,
        b: Series<W::V>,
        c: Series<W::V>,
        d: Series<W::V>,
        steps: int,
    ) {
        if Self::near(a, b, steps) && Self::near(c, d, steps) {
            lemma_series_near_sum::<W>(a, b, c, d, steps);
        }
    }

    proof fn law_near_product(a: Series<W::V>, b: Series<W::V>, c: Series<W::V>, steps: int) {
        if Self::near(a, b, steps) {
            lemma_series_near_product::<W>(a, b, c, steps);
        }
    }

    proof fn law_quantize(a: Option<ItemM<W::M>>, delta: W::Delta) {
        W::law_step(delta);
        if let Ok(b) = option_quantize::<W>(a, delta) {
            match a {
                None => {
                    lemma_series_near_self::<W>(Self::value(a), W::step(delta));
                },
                Some(x) => {
                    lemma_item_near::<W>(x, (b->0).weight, delta);
                },
            }
        }
    }
}

impl<W: RoundedWeights> RoundedWeights for GallicWeight<W> {
    open spec fn near(a: Series<W::V>, b: Series<W::V>, steps: int) -> bool {
        steps >= 0 && series_near::<W>(a, b, steps)
    }

    open spec fn step(delta: W::Delta) -> int {
        W::step(delta)
    }

    proof fn law_step(delta: W::Delta) {
        W::law_step(delta);
    }

    proof fn law_near_self(a: Series<W::V>, steps: int) {
        if steps >= 0 {
            lemma_series_near_self::<W>(a, steps);
        }
    }

    proof fn law_near_chain(
        a: Series<W::V>,
        b: Series<W::V>,
        c: Series<W::V>,
        m: int,
        n: int,
    ) {
        if Self::near(a, b, m) && Self::near(b, c, n) {
            lemma_series_near_chain::<W>(a, b, c, m, n);
        }
    }

    proof fn law_near_sum(
        a: Series<W::V>,
        b: Series<W::V>,
        c: Series<W::V>,
        d: Series<W::V>,
        steps: int,
    ) {
        if Self::near(a, b, steps) && Self::near(c, d, steps) {
            lemma_series_near_sum::<W>(a, b, c, d, steps);
        }
    }

    proof fn law_near_product(a: Series<W::V>, b: Series<W::V>, c: Series<W::V>, steps: int) {
        if Self::near(a, b, steps) {
            lemma_series_near_product::<W>(a, b, c, steps);
        }
    }

    proof fn law_quantize(a: Seq<ItemM<W::M>>, delta: W::Delta) {
        W::law_step(delta);
        lemma_list_near::<W>(a, delta);
    }
}

/// Weights of which the better one is their sum, and rounding keeps apart what is a
/// weight and what is none.
pub trait RoundedOrder: RoundedWeights + SelectiveSum {
    proof fn law_near_nothing(a: Self::V, steps: int)
        ensures
            Self::near(no_value::<Self>(), a, steps) ==> a == no_value::<Self>(),
    ;

    /// What lies between two values that are near lies near.
    proof fn law_near_between(a: Self::V, low: Self::V, mid: Self::V, high: Self::V, steps: int)
        ensures
            Self::near(a, low, steps) && Self::near(a, high, steps) && Self::sum(low, mid) == low
                && Self::sum(mid, high) == mid ==> Self::near(a, mid, steps),
    ;
}

impl RoundedOrder for TropicalWeight {
    proof fn law_near_nothing(a: Option<int>, steps: int) {
    }

    proof fn law_near_between(
        a: Option<int>,
        low: Option<int>,
        mid: Option<int>,
        high: Option<int>,
        steps: int,
    ) {
    }
}

impl<W: RoundedWeights + SelectiveSum> RoundedWeights for GallicWeightMin<W> {
    open spec fn near(a: W::V, b: W::V, steps: int) -> bool {
        W::near(a, b, steps)
    }

    open spec fn step(delta: W::Delta) -> int {
        W::step(delta)
    }

    proof fn law_step(delta: W::Delta) {
        W::law_step(delta);
    }

    proof fn law_near_self(a: W::V, steps: int) {
        W::law_near_self(a, steps);
    }

    proof fn law_near_chain(a: W::V, b: W::V, c: W::V, m: int, n: int) {
        W::law_near_chain(a, b, c, m, n);
    }

    proof fn law_near_sum(a: W::V, b: W::V, c: W::V, d: W::V, steps: int) {
        W::law_near_sum(a, b, c, d, steps);
    }

    proof fn law_near_product(a: W::V, b: W::V, c: W::V, steps: int) {
        W::law_near_product(a, b, c, steps);
    }

    proof fn law_quantize(a: Option<ItemM<W::M>>, delta: W::Delta) {
        W::law_step(delta);
        match a {
            None => {
                W::law_near_self(Self::value(a), W::step(delta));
            },
            Some(x) => {
                W::law_quantize(x.weight, delta);
            },
        }
    }
}

} // verus!
