//! Errors in words.

use crate::compose::failure::{ScratchStep, StoreError, StoreFailure};
use crate::error::{ComputeTrLimitExceeded, DeterminizeSubsetLimitExceeded, FstError};
use vstd::prelude::*;
use vstd::string::StringExecFns;

verus! {

/// A digit.
pub open spec fn digit(n: nat) -> char {
    if n == 0 {
        '0'
    } else if n == 1 {
        '1'
    } else if n == 2 {
        '2'
    } else if n == 3 {
        '3'
    } else if n == 4 {
        '4'
    } else if n == 5 {
        '5'
    } else if n == 6 {
        '6'
    } else if n == 7 {
        '7'
    } else if n == 8 {
        '8'
    } else {
        '9'
    }
}

/// A number in decimal.
pub open spec fn decimal(n: nat) -> Seq<char>
    decreases n,
{
    if n < 10 {
        seq![digit(n)]
    } else {
        decimal(n / 10).push(digit(n % 10))
    }
}

fn push_digit(out: &mut String, n: u64)
    requires
        n < 10,
    ensures
        final(out)@ == old(out)@.push(digit(n as nat)),
{
    proof {
        reveal_strlit("0");
        reveal_strlit("1");
        reveal_strlit("2");
        reveal_strlit("3");
        reveal_strlit("4");
        reveal_strlit("5");
        reveal_strlit("6");
        reveal_strlit("7");
        reveal_strlit("8");
        reveal_strlit("9");
    }
    let text: &str = match n {
        0 => "0",
        1 => "1",
        2 => "2",
        3 => "3",
        4 => "4",
        5 => "5",
        6 => "6",
        7 => "7",
        8 => "8",
        _ => "9",
    };
    let ghost before = out@;
    out.append(text);
    assert(out@ =~= before.push(digit(n as nat)));
}

/// Appends a number in decimal.
fn push_decimal(out: &mut String, n: u64)
    ensures
        final(out)@ == old(out)@ + decimal(n as nat),
    decreases n,
{
    let ghost before = out@;
    if n < 10 {
        push_digit(out, n);
        assert(out@ =~= before + decimal(n as nat));
    } else {
        push_decimal(out, n / 10);
        push_digit(out, n % 10);
        assert(out@ =~= before + decimal(n as nat));
    }
}

/// The text with two numbers in it.
fn with_two_numbers(a: &str, m: u64, b: &str, n: u64, c: &str) -> (r: String)
    ensures
        r@ == a@ + decimal(m as nat) + b@ + decimal(n as nat) + c@,
{
    let mut r: String = String::from_str(a);
    push_decimal(&mut r, m);
    r.append(b);
    push_decimal(&mut r, n);
    r.append(c);
    r
}

/// The text with a number in it.
fn with_number(a: &str, n: u64, b: &str) -> (r: String)
    ensures
        r@ == a@ + decimal(n as nat) + b@,
{
    let mut r: String = String::from_str(a);
    push_decimal(&mut r, n);
    r.append(b);
    r
}

impl ComputeTrLimitExceeded {
    pub open spec fn text(self) -> Seq<char> {
        "compute_bounded: transition budget of "@ + decimal(self.limit as nat)
            + " exceeded (attempted "@ + decimal(self.attempted as nat) + ")"@
    }

    /// The error in words.
    pub fn message(&self) -> (r: String)
        ensures
            r@ == self.text(),
    {
        with_two_numbers(
            "compute_bounded: transition budget of ",
            self.limit as u64,
            " exceeded (attempted ",
            self.attempted as u64,
            ")",
        )
    }
}

impl DeterminizeSubsetLimitExceeded {
    pub open spec fn text(self) -> Seq<char> {
        "determinize: weighted-subset element budget of "@ + decimal(self.limit as nat)
            + " exceeded (attempted "@ + decimal(self.attempted as nat) + ")"@
    }

    /// The error in words.
    pub fn message(&self) -> (r: String)
        ensures
            r@ == self.text(),
    {
        with_two_numbers(
            "determinize: weighted-subset element budget of ",
            self.limit as u64,
            " exceeded (attempted ",
            self.attempted as u64,
            ")",
        )
    }
}

impl FstError {
    pub open spec fn text(self) -> Seq<char> {
        match self {
            FstError::WeightOverflow => "a weight does not fit its representation"@,
            FstError::DivisionByZero => "a weight was divided by zero"@,
            FstError::NonFunctional => "unequal strings were summed: non-functional transducer"@,
            FstError::UnexpectedString => "a string stands where one label is expected"@,
            FstError::NotLeftDivision => "strings can only be divided on the left"@,
            FstError::NoSingleString => "neither of two sets of strings has a single member"@,
            FstError::StateNotFound { state } => "State "@ + decimal(state as nat)
                + " doesn't exist"@,
            FstError::TooManyStates => "more states are needed than there are state ids"@,
            FstError::StateBudgetExceeded { limit } => "compute_bounded: state budget of "@
                + decimal(limit as nat) + " exceeded (lazy FST did not converge)"@,
            FstError::TrBudgetExceeded(e) => e.text(),
            FstError::SubsetBudgetExceeded(e) => e.text(),
            FstError::NotAcceptor => "DeterminizeFsaImpl : expected acceptor as argument"@,
            FstError::NotLeftDistributive =>
                "determinize_fsa : weight must be left distributive"@,
            FstError::NoPathProperty =>
                "determinize : weight needs to have the path property to disambiguate output"@,
            FstError::OutDistanceMissing { index } => "Outdist for state "@ + decimal(
                index as nat,
            ) + " has not been computed"@,
        }
    }

    /// The error in words.
    pub fn message(&self) -> (r: String)
        ensures
            r@ == self.text(),
    {
        match self {
            FstError::WeightOverflow => String::from_str(
                "a weight does not fit its representation",
            ),
            FstError::DivisionByZero => String::from_str("a weight was divided by zero"),
            FstError::NonFunctional => String::from_str(
                "unequal strings were summed: non-functional transducer",
            ),
            FstError::UnexpectedString => String::from_str(
                "a string stands where one label is expected",
            ),
            FstError::NotLeftDivision => String::from_str(
                "strings can only be divided on the left",
            ),
            FstError::NoSingleString => String::from_str(
                "neither of two sets of strings has a single member",
            ),
            FstError::StateNotFound { state } => with_number(
                "State ",
                *state as u64,
                " doesn't exist",
            ),
            FstError::TooManyStates => String::from_str(
                "more states are needed than there are state ids",
            ),
            FstError::StateBudgetExceeded { limit } => with_number(
                "compute_bounded: state budget of ",
                *limit as u64,
                " exceeded (lazy FST did not converge)",
            ),
            FstError::TrBudgetExceeded(e) => e.message(),
            FstError::SubsetBudgetExceeded(e) => e.message(),
            FstError::NotAcceptor => String::from_str(
                "DeterminizeFsaImpl : expected acceptor as argument",
            ),
            FstError::NotLeftDistributive => String::from_str(
                "determinize_fsa : weight must be left distributive",
            ),
            FstError::NoPathProperty => String::from_str(
                "determinize : weight needs to have the path property to disambiguate output",
            ),
            FstError::OutDistanceMissing { index } => with_number(
                "Outdist for state ",
                *index as u64,
                " has not been computed",
            ),
        }
    }
}

impl ScratchStep {
    pub open spec fn text(self) -> Seq<char> {
        match self {
            ScratchStep::CreatingScratch => "creating rustfst compose state scratch"@,
            ScratchStep::CreatingFile => "creating compose state scratch file"@,
            ScratchStep::SizingSlots => "sizing compose hash slots"@,
            ScratchStep::ReadingSlot => "reading compose hash slot"@,
            ScratchStep::ReadingOffset => "reading compose tuple offset"@,
            ScratchStep::ReadingLength => "reading compose tuple length"@,
            ScratchStep::ReadingTuple => "reading compose tuple"@,
            ScratchStep::SeekingTuples => "seeking compose tuples"@,
            ScratchStep::WritingOffset => "writing compose offsets"@,
            ScratchStep::WritingTuple => "writing compose tuple"@,
            ScratchStep::WritingSlot => "writing compose hash slots"@,
            ScratchStep::SyncingSlots => "flushing compose hash slots"@,
            ScratchStep::RemovingSlots => "removing old compose hash slots"@,
            ScratchStep::Flushing => "flushing compose state scratch"@,
        }
    }

    /// The step in words.
    pub fn message(&self) -> (r: String)
        ensures
            r@ == self.text(),
    {
        String::from_str(
            match self {
                ScratchStep::CreatingScratch => "creating rustfst compose state scratch",
                ScratchStep::CreatingFile => "creating compose state scratch file",
                ScratchStep::SizingSlots => "sizing compose hash slots",
                ScratchStep::ReadingSlot => "reading compose hash slot",
                ScratchStep::ReadingOffset => "reading compose tuple offset",
                ScratchStep::ReadingLength => "reading compose tuple length",
                ScratchStep::ReadingTuple => "reading compose tuple",
                ScratchStep::SeekingTuples => "seeking compose tuples",
                ScratchStep::WritingOffset => "writing compose offsets",
                ScratchStep::WritingTuple => "writing compose tuple",
                ScratchStep::WritingSlot => "writing compose hash slots",
                ScratchStep::SyncingSlots => "flushing compose hash slots",
                ScratchStep::RemovingSlots => "removing old compose hash slots",
                ScratchStep::Flushing => "flushing compose state scratch",
            },
        )
    }
}

impl StoreFailure {
    pub open spec fn text(self) -> Seq<char> {
        match self {
            StoreFailure::ScratchIo(step) => step.text(),
            StoreFailure::Encoding => "encoding compose state tuple"@,
            StoreFailure::Decoding => "decoding compose state tuple"@,
            StoreFailure::TrailingBytes { count } => "compose state tuple decoder left "@
                + decimal(count as nat) + " trailing bytes"@,
            StoreFailure::StateCountExceedsIds =>
                "compose state count exceeds StateId capacity"@,
            StoreFailure::StateCountReachedReserved =>
                "compose state count reached NO_STATE_ID"@,
            StoreFailure::StateAbsent { state } => "compose state id "@ + decimal(state as nat)
                + " is absent"@,
            StoreFailure::TupleTooLarge => "compose tuple is too large"@,
            StoreFailure::PositionOverflow => "compose scratch position overflow"@,
            StoreFailure::SlotCountOverflow => "compose hash slot count overflow"@,
            StoreFailure::GenerationOverflow => "compose hash generation overflow"@,
            StoreFailure::LoadOverflow => "compose hash load accounting overflow"@,
            StoreFailure::AccountingOverflow => "compose pair memory accounting overflow"@,
            StoreFailure::Reservation => "reserving compose pair table"@,
            StoreFailure::TableFull => "compose state hash table has no vacant slot"@,
            StoreFailure::SpillChangedId { expected, actual } =>
                "compose state spill changed id "@ + decimal(expected as nat) + " to "@ + decimal(
                    actual as nat,
                ) + ""@,
            StoreFailure::UnexpectedAnswer => "unexpected answer from compose state scratch"@,
        }
    }

    /// The failure in words.
    pub fn message(&self) -> (r: String)
        ensures
            r@ == self.text(),
    {
        match self {
            StoreFailure::ScratchIo(step) => step.message(),
            StoreFailure::Encoding => String::from_str("encoding compose state tuple"),
            StoreFailure::Decoding => String::from_str("decoding compose state tuple"),
            StoreFailure::TrailingBytes { count } => with_number(
                "compose state tuple decoder left ",
                *count as u64,
                " trailing bytes",
            ),
            StoreFailure::StateCountExceedsIds => String::from_str(
                "compose state count exceeds StateId capacity",
            ),
            StoreFailure::StateCountReachedReserved => String::from_str(
                "compose state count reached NO_STATE_ID",
            ),
            StoreFailure::StateAbsent { state } => with_number(
                "compose state id ",
                *state as u64,
                " is absent",
            ),
            StoreFailure::TupleTooLarge => String::from_str("compose tuple is too large"),
            StoreFailure::PositionOverflow => String::from_str(
                "compose scratch position overflow",
            ),
            StoreFailure::SlotCountOverflow => String::from_str(
                "compose hash slot count overflow",
            ),
            StoreFailure::GenerationOverflow => String::from_str(
                "compose hash generation overflow",
            ),
            StoreFailure::LoadOverflow => String::from_str(
                "compose hash load accounting overflow",
            ),
            StoreFailure::AccountingOverflow => String::from_str(
                "compose pair memory accounting overflow",
            ),
            StoreFailure::Reservation => String::from_str("reserving compose pair table"),
            StoreFailure::TableFull => String::from_str(
                "compose state hash table has no vacant slot",
            ),
            StoreFailure::SpillChangedId { expected, actual } => with_two_numbers(
                "compose state spill changed id ",
                *expected as u64,
                " to ",
                *actual as u64,
                "",
            ),
            StoreFailure::UnexpectedAnswer => String::from_str(
                "unexpected answer from compose state scratch",
            ),
        }
    }
}

impl StoreError {
    pub open spec fn text(self) -> Seq<char> {
        match self {
            StoreError::Failed(failure) => failure.text(),
            StoreError::Unusable(failure) =>
                "compose state scratch is unusable after an earlier I/O failure: "@
                + failure.text(),
            StoreError::NotSerializable =>
                "serializing a spillable compose state store is not supported"@,
        }
    }

    /// The error in words.
    pub fn message(&self) -> (r: String)
        ensures
            r@ == self.text(),
    {
        match self {
            StoreError::Failed(failure) => failure.message(),
            StoreError::Unusable(failure) => {
                let mut r: String = String::from_str(
                    "compose state scratch is unusable after an earlier I/O failure: ",
                );
                let rest: String = failure.message();
                r.append(rest.as_str());
                r
            },
            StoreError::NotSerializable => String::from_str(
                "serializing a spillable compose state store is not supported",
            ),
        }
    }
}

/// The number that a digit stands for.
pub open spec fn digit_value(c: char) -> int {
    c as int - '0' as int
}

/// The number that digits spell.
pub open spec fn decimal_value(text: Seq<char>) -> int
    decreases text.len(),
{
    if text.len() == 0 {
        0
    } else {
        10 * decimal_value(text.drop_last()) + digit_value(text.last())
    }
}

/// A number in decimal spells that number, in digits alone, and does not begin with a zero
/// unless it is zero.
pub proof fn law_decimal_spells_number(n: nat)
    ensures
        decimal_value(decimal(n)) == n,
        decimal(n).len() > 0,
        forall|i: int| 0 <= i < decimal(n).len() ==> '0' <= #[trigger] decimal(n)[i] <= '9',
        n > 0 ==> decimal(n)[0] != '0',
        n == 0 ==> decimal(n) == seq!['0'],
    decreases n,
{
    let text = decimal(n);
    if n < 10 {
        assert(text.drop_last() =~= Seq::<char>::empty());
        assert(text.last() == digit(n));
        assert(decimal_value(Seq::<char>::empty()) == 0);
    } else {
        law_decimal_spells_number(n / 10);
        assert(text.drop_last() =~= decimal(n / 10));
        assert(text.last() == digit(n % 10));
        assert(text[0] == decimal(n / 10)[0]);
        assert forall|i: int| 0 <= i < text.len() implies '0' <= #[trigger] text[i] <= '9' by {
            if i < text.len() - 1 {
                assert(text[i] == decimal(n / 10)[i]);
            }
        }
    }
}

} // verus!
