//! The algebraic interface every weight type offers.

use crate::error::FstError;
use vstd::prelude::*;

verus! {

/// Which algebraic properties a semiring has.
#[derive(Clone, Copy, Debug, PartialEq, Eq, Structural)]
pub struct SemiringProperties {
    pub bits: u32,
}

/// `a (b + c) = ab + ac` for all weights.
pub const LEFT_SEMIRING: u32 = 1;

/// `(a + b) c = ac + bc` for all weights.
pub const RIGHT_SEMIRING: u32 = 2;

/// `ab = ba` for all weights.
pub const COMMUTATIVE: u32 = 4;

/// `a + a = a` for all weights.
pub const IDEMPOTENT: u32 = 8;

/// `a + b` is `a` or `b` for all weights.
pub const PATH: u32 = 16;

impl SemiringProperties {
    /// Whether every flag of `flags` is set.
    pub open spec fn has(self, flags: u32) -> bool {
        self.bits & flags == flags
    }

    /// Whether every flag of `flags` is set.
    pub fn contains(&self, flags: u32) -> (b: bool)
        ensures
            b == self.has(flags),
    {
        self.bits & flags == flags
    }
}

/// On which side a division takes place.
#[derive(Clone, Copy, Debug, PartialEq, Eq, Structural)]
pub enum DivideType {
    DivideLeft,
    DivideRight,
    DivideAny,
}

/// A weight type with a sum and a product.
///
/// `M` is the mathematical value that a weight stands for; every operation is
/// stated over it. Sums and products can fail (a value that does not fit, a sum
/// that the semiring does not define), and the error is part of the statement.
pub trait Semiring: Sized {
    type M;

    /// The mathematical value of a weight.
    spec fn model(&self) -> Self::M;

    /// The neutral element of the sum.
    spec fn zero_model() -> Self::M;

    /// The neutral element of the product.
    spec fn one_model() -> Self::M;

    /// The sum.
    spec fn plus_model(a: Self::M, b: Self::M) -> Result<Self::M, FstError>;

    /// The product.
    spec fn times_model(a: Self::M, b: Self::M) -> Result<Self::M, FstError>;

    /// The declared algebraic properties.
    spec fn properties_model() -> SemiringProperties;

    fn zero() -> (r: Self)
        ensures
            r.model() == Self::zero_model(),
    ;

    fn one() -> (r: Self)
        ensures
            r.model() == Self::one_model(),
    ;

    fn plus(&self, rhs: &Self) -> (r: Result<Self, FstError>)
        ensures
            match r {
                Ok(v) => Self::plus_model(self.model(), rhs.model()) == Ok::<Self::M, FstError>(
                    v.model(),
                ),
                Err(e) => Self::plus_model(self.model(), rhs.model()) == Err::<Self::M, FstError>(
                    e,
                ),
            },
    ;

    fn times(&self, rhs: &Self) -> (r: Result<Self, FstError>)
        ensures
            match r {
                Ok(v) => Self::times_model(self.model(), rhs.model()) == Ok::<Self::M, FstError>(
                    v.model(),
                ),
                Err(e) => Self::times_model(self.model(), rhs.model()) == Err::<Self::M, FstError>(
                    e,
                ),
            },
    ;

    fn properties() -> (r: SemiringProperties)
        ensures
            r == Self::properties_model(),
    ;

    /// Whether the two weights have the same value.
    fn same(&self, other: &Self) -> (b: bool)
        ensures
            b == (self.model() == other.model()),
    ;

    /// A second weight of the same value.
    fn duplicate(&self) -> (r: Self)
        ensures
            r.model() == self.model(),
    ;

    /// Whether this is the neutral element of the sum.
    fn is_zero(&self) -> (b: bool)
        ensures
            b == (self.model() == Self::zero_model()),
    {
        self.same(&Self::zero())
    }

    /// Whether this is the neutral element of the product.
    fn is_one(&self) -> (b: bool)
        ensures
            b == (self.model() == Self::one_model()),
    {
        self.same(&Self::one())
    }
}

/// A semiring in which a weight can be divided by a divisor of it.
pub trait WeaklyDivisibleSemiring: Semiring {
    /// The quotient.
    spec fn divide_model(a: Self::M, b: Self::M, side: DivideType) -> Result<Self::M, FstError>;

    fn divide(&self, rhs: &Self, side: DivideType) -> (r: Result<Self, FstError>)
        ensures
            match r {
                Ok(v) => Self::divide_model(self.model(), rhs.model(), side) == Ok::<
                    Self::M,
                    FstError,
                >(v.model()),
                Err(e) => Self::divide_model(self.model(), rhs.model(), side) == Err::<
                    Self::M,
                    FstError,
                >(e),
            },
    ;
}

/// The size of the grid that weights are rounded to.
pub trait QuantizationStep: Sized + Copy {
    /// The step that is used unless the caller chooses another.
    spec fn kdelta_model() -> Self;

    fn kdelta() -> (r: Self)
        ensures
            r == Self::kdelta_model(),
    ;
}

/// A semiring whose weights can be rounded to a grid.
pub trait WeightQuantize: Semiring {
    type Delta: QuantizationStep;

    /// The rounded weight.
    spec fn quantize_model(a: Self::M, delta: Self::Delta) -> Result<Self::M, FstError>;

    fn quantize(&self, delta: Self::Delta) -> (r: Result<Self, FstError>)
        ensures
            match r {
                Ok(v) => Self::quantize_model(self.model(), delta) == Ok::<Self::M, FstError>(
                    v.model(),
                ),
                Err(e) => Self::quantize_model(self.model(), delta) == Err::<Self::M, FstError>(e),
            },
    ;
}

} // verus!
