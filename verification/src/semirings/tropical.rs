//! The tropical semiring: minimum as sum, addition as product.

use crate::error::FstError;
use crate::semirings::semiring::{
    DivideType, QuantizationStep, Semiring, SemiringProperties, WeaklyDivisibleSemiring,
    WeightQuantize, COMMUTATIVE, IDEMPOTENT, LEFT_SEMIRING, PATH, RIGHT_SEMIRING,
};
use vstd::prelude::*;

verus! {

/// How many steps of the weight grid make up one unit.
pub const TICKS_PER_UNIT: i64 = 1024;

/// A tropical weight: a cost counted in ticks of a fixed grid, or infinity.
#[derive(Clone, Copy, Debug, PartialEq, Eq, Structural)]
pub struct TropicalWeight {
    value: Option<i64>,
}

/// A rounding step, counted in ticks.
#[derive(Clone, Copy, Debug, PartialEq, Eq, Structural)]
pub struct TickDelta {
    pub ticks: u32,
}

impl QuantizationStep for TickDelta {
    open spec fn kdelta_model() -> Self {
        TickDelta { ticks: 1 }
    }

    fn kdelta() -> (r: Self) {
        TickDelta { ticks: 1 }
    }
}

/// The smaller of two costs, where `None` is infinity.
pub open spec fn tropical_min(a: Option<int>, b: Option<int>) -> Option<int> {
    match (a, b) {
        (None, _) => b,
        (_, None) => a,
        (Some(x), Some(y)) => if x <= y {
            a
        } else {
            b
        },
    }
}

/// The sum of two costs, where `None` is infinity.
pub open spec fn tropical_add(a: Option<int>, b: Option<int>) -> Option<int> {
    match (a, b) {
        (Some(x), Some(y)) => Some(x + y),
        _ => None,
    }
}

/// A cost, as long as it fits the representation.
pub open spec fn tropical_fit(a: Option<int>) -> Result<Option<int>, FstError> {
    match a {
        None => Ok(None),
        Some(x) => if i64::MIN <= x <= i64::MAX {
            Ok(a)
        } else {
            Err(FstError::WeightOverflow)
        },
    }
}

/// The multiple of `step` nearest to `x`; halfway between two, the larger.
pub open spec fn nearest_multiple(x: int, step: int) -> int {
    if step == 0 {
        x
    } else {
        ((2 * x + step) / (2 * step)) * step
    }
}

impl TropicalWeight {
    /// The cost in ticks; `None` is infinity.
    pub closed spec fn cost(&self) -> Option<int> {
        match self.value {
            Some(v) => Some(v as int),
            None => None,
        }
    }

    /// The weight of the given cost in ticks.
    pub fn new(ticks: i64) -> (r: Self)
        ensures
            r.model() == Some(ticks as int),
    {
        TropicalWeight { value: Some(ticks) }
    }

    /// The weight of the given cost in whole units.
    pub fn from_units(units: i32) -> (r: Self)
        ensures
            r.model() == Some(units * TICKS_PER_UNIT),
    {
        TropicalWeight { value: Some(units as i64 * TICKS_PER_UNIT) }
    }

    /// The cost in ticks, or `None` for infinity.
    pub fn ticks(&self) -> (r: Option<i64>)
        ensures
            match r {
                Some(v) => self.model() == Some(v as int),
                None => self.model() == None::<int>,
            },
    {
        self.value
    }
}

/// A cost lies within the representation.
pub proof fn lemma_cost_fits(w: TropicalWeight)
    ensures
        w.model() matches Some(x) ==> i64::MIN <= x <= i64::MAX,
{
}

impl Semiring for TropicalWeight {
    type M = Option<int>;

    open spec fn model(&self) -> Option<int> {
        self.cost()
    }

    open spec fn zero_model() -> Option<int> {
        None
    }

    open spec fn one_model() -> Option<int> {
        Some(0)
    }

    open spec fn plus_model(a: Option<int>, b: Option<int>) -> Result<Option<int>, FstError> {
        Ok(tropical_min(a, b))
    }

    open spec fn times_model(a: Option<int>, b: Option<int>) -> Result<Option<int>, FstError> {
        tropical_fit(tropical_add(a, b))
    }

    open spec fn properties_model() -> SemiringProperties {
        SemiringProperties {
            bits: LEFT_SEMIRING | RIGHT_SEMIRING | COMMUTATIVE | IDEMPOTENT | PATH,
        }
    }

    fn zero() -> (r: Self) {
        TropicalWeight { value: None }
    }

    fn one() -> (r: Self) {
        TropicalWeight { value: Some(0) }
    }

    fn plus(&self, rhs: &Self) -> (r: Result<Self, FstError>) {
        match (self.value, rhs.value) {
            (None, _) => Ok(*rhs),
            (_, None) => Ok(*self),
            (Some(x), Some(y)) => if x <= y {
                Ok(*self)
            } else {
                Ok(*rhs)
            },
        }
    }

    fn times(&self, rhs: &Self) -> (r: Result<Self, FstError>) {
        match (self.value, rhs.value) {
            (Some(x), Some(y)) => match x.checked_add(y) {
                Some(v) => Ok(TropicalWeight { value: Some(v) }),
                None => Err(FstError::WeightOverflow),
            },
            _ => Ok(TropicalWeight { value: None }),
        }
    }

    fn properties() -> (r: SemiringProperties) {
        SemiringProperties {
            bits: LEFT_SEMIRING | RIGHT_SEMIRING | COMMUTATIVE | IDEMPOTENT | PATH,
        }
    }

    fn same(&self, other: &Self) -> (b: bool) {
        self.value == other.value
    }

    fn duplicate(&self) -> (r: Self) {
        *self
    }
}

impl WeaklyDivisibleSemiring for TropicalWeight {
    open spec fn divide_model(a: Option<int>, b: Option<int>, side: DivideType) -> Result<
        Option<int>,
        FstError,
    > {
        match (a, b) {
            (_, None) => Err(FstError::DivisionByZero),
            (None, Some(_)) => Ok(None),
            (Some(x), Some(y)) => tropical_fit(Some(x - y)),
        }
    }

    fn divide(&self, rhs: &Self, side: DivideType) -> (r: Result<Self, FstError>) {
        match (self.value, rhs.value) {
            (_, None) => Err(FstError::DivisionByZero),
            (None, Some(_)) => Ok(TropicalWeight { value: None }),
            (Some(x), Some(y)) => match x.checked_sub(y) {
                Some(v) => Ok(TropicalWeight { value: Some(v) }),
                None => Err(FstError::WeightOverflow),
            },
        }
    }
}

/// Added, times the divisor, to a dividend to make it non-negative.
const SHIFT: i128 = 0x1_0000_0000_0000_0000;

proof fn lemma_shifted_division(x: int, d: int)
    requires
        2 <= d <= 0x2_0000_0000,
        -0x1_0000_0000_0000_0001 <= x <= 0x1_0000_0001_0000_0000,
    ensures
        0 <= SHIFT * d <= 0x4_0000_0000_0000_0000_0000_0000,
        0 <= x + SHIFT * d,
        (x + SHIFT * d) / d == x / d + SHIFT,
{
    assert(0 <= SHIFT * d <= SHIFT * 0x2_0000_0000) by (nonlinear_arith)
        requires
            0 < d <= 0x2_0000_0000,
    ;
    assert(SHIFT * d >= 2 * SHIFT) by (nonlinear_arith)
        requires
            2 <= d,
    ;
    vstd::arithmetic::div_mod::lemma_hoist_over_denominator(x, SHIFT as int, d as nat);
}

proof fn lemma_quotient_bound(x: int, d: int, step: int)
    requires
        0 < step <= 0xffff_ffff,
        d == 2 * step,
        -0x1_0000_0000_0000_0001 <= x <= 0x1_0000_0001_0000_0000,
    ensures
        -0x8_0000_0000_0000_0000 <= (x / d) * step <= 0x8_0000_0000_0000_0000,
        -0x8_0000_0000_0000_0000 <= x / d <= 0x8_0000_0000_0000_0000,
{
    let q = x / d;
    vstd::arithmetic::div_mod::lemma_fundamental_div_mod(x, d);
    vstd::arithmetic::div_mod::lemma_mod_bound(x, d);
    assert(-0x8_0000_0000_0000_0000 <= q * step <= 0x8_0000_0000_0000_0000 && -0x8_0000_0000_0000_0000 <= q
        <= 0x8_0000_0000_0000_0000) by (nonlinear_arith)
        requires
            x == (2 * step) * q + x % d,
            0 <= x % d < 2 * step,
            0 < step <= 0xffff_ffff,
            -0x1_0000_0000_0000_0001 <= x <= 0x1_0000_0001_0000_0000,
    ;
}

impl WeightQuantize for TropicalWeight {
    type Delta = TickDelta;

    open spec fn quantize_model(a: Option<int>, delta: TickDelta) -> Result<Option<int>, FstError> {
        match a {
            None => Ok(None),
            Some(x) => tropical_fit(Some(nearest_multiple(x, delta.ticks as int))),
        }
    }

    fn quantize(&self, delta: TickDelta) -> (r: Result<Self, FstError>) {
        match self.value {
            None => Ok(TropicalWeight { value: None }),
            Some(x) => {
                if delta.ticks == 0 {
                    return Ok(*self);
                }
                let step: i128 = delta.ticks as i128;
                let double_step: i128 = 2 * step;
                let doubled: i128 = 2 * (x as i128) + step;
                proof {
                    lemma_shifted_division(doubled as int, double_step as int);
                    lemma_quotient_bound(doubled as int, double_step as int, step as int);
                }
                let shifted: i128 = doubled + SHIFT * double_step;
                let quotient: i128 = shifted / double_step - SHIFT;
                let rounded: i128 = quotient * step;
                if rounded < i64::MIN as i128 || rounded > i64::MAX as i128 {
                    return Err(FstError::WeightOverflow);
                }
                Ok(TropicalWeight { value: Some(rounded as i64) })
            },
        }
    }
}

} // verus!
