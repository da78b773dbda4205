//! Errors reported by the operations of this crate.

use vstd::prelude::*;

verus! {

/// Lazy materialization stopped before writing more transitions than the caller
/// allowed.
///
/// Distinct from the state budget: one state of a materialized machine can carry
/// an unbounded number of transitions, so a state count is not a memory bound.
/// A caller that hits this limit learns that the operation's *output* is too
/// large, not that its search failed to converge.
#[derive(Clone, Copy, Debug, PartialEq, Eq, Structural)]
pub struct ComputeTrLimitExceeded {
    /// Maximum number of transitions the caller allowed.
    pub limit: usize,
    /// Number the materialization had already produced when it stopped.
    pub attempted: usize,
}

/// Determinization stopped before retaining or constructing more weighted
/// subset elements than the caller allowed.
///
/// The state-count limit controls the number of output states. This separate
/// limit controls the data *inside* those states: one output state can contain a
/// very large weighted subset, so a state count alone is not a memory bound.
#[derive(Clone, Copy, Debug, PartialEq, Eq, Structural)]
pub struct DeterminizeSubsetLimitExceeded {
    /// Maximum number of logical subset elements allowed.
    pub limit: usize,
    /// Number the operation would have retained or constructed.
    pub attempted: usize,
}

/// Everything that can go wrong in the algorithms of this crate.
#[derive(Clone, Copy, Debug, PartialEq, Eq, Structural)]
pub enum FstError {
    /// A weight does not fit its representation.
    WeightOverflow,
    /// A weight was divided by the zero of its semiring.
    DivisionByZero,
    /// Two different non-zero strings were added: the transducer is not functional.
    NonFunctional,
    /// A string weight with more than one label stands where one label is expected.
    UnexpectedString,
    /// A string was divided on another side than the left.
    NotLeftDivision,
    /// Neither of two sets of strings that were divided has a single member.
    NoSingleString,
    /// The state does not exist in the machine.
    StateNotFound { state: u32 },
    /// A state id that is not below the reserved one would be needed.
    TooManyStates,
    /// Materialization discovered more states than the caller allowed.
    StateBudgetExceeded { limit: usize },
    /// Materialization produced more transitions than the caller allowed.
    TrBudgetExceeded(ComputeTrLimitExceeded),
    /// Determinization would retain more subset elements than the caller allowed.
    SubsetBudgetExceeded(DeterminizeSubsetLimitExceeded),
    /// Determinization of an automaton was asked for a transducer.
    NotAcceptor,
    /// The semiring is not left distributive.
    NotLeftDistributive,
    /// The semiring lacks the path property.
    NoPathProperty,
    /// No distance was recorded for the output state.
    OutDistanceMissing { index: usize },
}

} // verus!
