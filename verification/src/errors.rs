use vstd::prelude::*;

verus! {

/// A mathematically undefined form met during simplification, or a machine
/// limit reached while folding numbers. No error is recovered locally: every
/// rule that receives one from a child propagates it.
#[derive(Clone, Copy, Debug, PartialEq, Eq, Structural)]
pub enum UndefinedError {
    /// A rational with denominator zero.
    DivisionByZero,
    /// Zero raised to the zero, or to a negative or non-numeric exponent.
    IndeterminateZeroPowerZero,
    /// A negative integer under an even root.
    EvenRootOfNegative,
    /// A logarithm of an integer that is zero or negative.
    NonPositiveLogarithm,
    /// Folded integer arithmetic left the machine-word range.
    Overflow,
    /// The rewriting depth budget ran out before a normal form was reached.
    DepthExceeded,
}

/// The message that describes an error, as the read-eval-print loop prints it.
pub open spec fn error_text(e: UndefinedError) -> Seq<char> {
    match e {
        UndefinedError::DivisionByZero => "division by zero"@,
        UndefinedError::IndeterminateZeroPowerZero => "indeterminate form: 0 to a zero, negative or symbolic power"@,
        UndefinedError::EvenRootOfNegative => "negative value under an even root"@,
        UndefinedError::NonPositiveLogarithm => "logarithm of a non-positive value"@,
        UndefinedError::Overflow => "integer overflow"@,
        UndefinedError::DepthExceeded => "rewriting depth exceeded"@,
    }
}

impl UndefinedError {
    /// The printable description of the error.
    pub fn message(&self) -> (s: &'static str)
        ensures
            s@ == error_text(*self),
    {
        match self {
            UndefinedError::DivisionByZero => "division by zero",
            UndefinedError::IndeterminateZeroPowerZero => "indeterminate form: 0 to a zero, negative or symbolic power",
            UndefinedError::EvenRootOfNegative => "negative value under an even root",
            UndefinedError::NonPositiveLogarithm => "logarithm of a non-positive value",
            UndefinedError::Overflow => "integer overflow",
            UndefinedError::DepthExceeded => "rewriting depth exceeded",
        }
    }
}

} // verus!
