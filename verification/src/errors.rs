//! Failure taxonomy of the engine and of its decimal arithmetic.

use vstd::prelude::*;

verus! {

/// Why a call was rejected. `NoStaked` is an expected, recoverable branch;
/// everything else signals bad input or an arithmetic inconsistency, and the
/// caller must not persist any record mutated by the failing call.
#[derive(Debug, Clone, PartialEq, Eq)]
pub enum EngineError {
    /// The pool record carries an unrecognized pool type.
    UnknownPoolType,
    /// A reward withdrawal was attempted for a user with zero stake; carries
    /// the pool id, lowercased.
    NoStaked(String),
    /// A value does not fit the requested integer or scale range.
    Overflow,
    /// A checked subtraction would have gone below zero.
    Underflow,
    /// A division by zero was attempted.
    DivideByZero,
    /// A decimal string could not be parsed.
    MalformedDecimal,
}

} // verus!
