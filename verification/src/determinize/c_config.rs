//! How a caller without enums and options says how to determinize.

use crate::determinize::determinize_static::{DeterminizeConfig, DeterminizeType};
use vstd::prelude::*;

verus! {

/// No value of an enum has the number.
#[derive(Clone, Copy, Debug, PartialEq, Eq, Structural)]
pub struct EnumConversionError {}

/// A way to determinize, as a number.
#[derive(Clone, Copy, Debug, PartialEq, Eq, Structural)]
pub struct CDeterminizeType(pub usize);

/// The number of a way to determinize.
pub open spec fn type_number(det_type: DeterminizeType) -> usize {
    match det_type {
        DeterminizeType::DeterminizeFunctional => 0,
        DeterminizeType::DeterminizeNonFunctional => 1,
        DeterminizeType::DeterminizeDisambiguate => 2,
    }
}

impl CDeterminizeType {
    /// The way to determinize that has the number.
    pub fn as_rust(&self) -> (r: Result<DeterminizeType, EnumConversionError>)
        ensures
            match r {
                Ok(det_type) => type_number(det_type) == self.0,
                Err(_) => self.0 > 2,
            },
    {
        match self.0 {
            0 => Ok(DeterminizeType::DeterminizeFunctional),
            1 => Ok(DeterminizeType::DeterminizeNonFunctional),
            2 => Ok(DeterminizeType::DeterminizeDisambiguate),
            _ => Err(EnumConversionError {  }),
        }
    }

    /// The number of a way to determinize.
    pub fn c_repr_of(value: DeterminizeType) -> (r: Self)
        ensures
            r.0 == type_number(value),
    {
        CDeterminizeType(
            match value {
                DeterminizeType::DeterminizeFunctional => 0,
                DeterminizeType::DeterminizeNonFunctional => 1,
                DeterminizeType::DeterminizeDisambiguate => 2,
            },
        )
    }
}

/// How to determinize, with the way to do so as a number.
#[derive(Clone, Copy, Debug)]
pub struct CDeterminizeConfig<D> {
    pub delta: D,
    pub det_type: CDeterminizeType,
    pub max_states: Option<usize>,
}

impl<D: Copy> CDeterminizeConfig<D> {
    /// A configuration from numbers. A bound of no states is meaningless, and zero
    /// stands for no bound.
    pub fn new(delta: D, det_type: usize, max_states: usize) -> (r: Self)
        ensures
            r == (CDeterminizeConfig {
                delta,
                det_type: CDeterminizeType(det_type),
                max_states: if max_states == 0 {
                    None
                } else {
                    Some(max_states)
                },
            }),
    {
        CDeterminizeConfig {
            delta,
            det_type: CDeterminizeType(det_type),
            max_states: if max_states == 0 {
                None
            } else {
                Some(max_states)
            },
        }
    }

    pub fn as_rust(&self) -> (r: Result<DeterminizeConfig<D>, EnumConversionError>)
        ensures
            match r {
                Ok(config) => type_number(config.det_type) == self.det_type.0 && config.delta
                    == self.delta && config.max_states == self.max_states,
                Err(_) => self.det_type.0 > 2,
            },
    {
        match self.det_type.as_rust() {
            Ok(det_type) => Ok(
                DeterminizeConfig { delta: self.delta, det_type, max_states: self.max_states },
            ),
            Err(e) => Err(e),
        }
    }

    pub fn c_repr_of(value: DeterminizeConfig<D>) -> (r: Self)
        ensures
            r == (CDeterminizeConfig {
                delta: value.delta,
                det_type: CDeterminizeType(type_number(value.det_type)),
                max_states: value.max_states,
            }),
    {
        CDeterminizeConfig {
            delta: value.delta,
            det_type: CDeterminizeType::c_repr_of(value.det_type),
            max_states: value.max_states,
        }
    }
}

/// Different ways to determinize have different numbers, so a number stands for
/// the way it was made from.
pub proof fn law_type_numbers_round_trip(a: DeterminizeType, b: DeterminizeType)
    ensures
        type_number(a) <= 2,
        type_number(a) == type_number(b) ==> a == b,
{
}

} // verus!
