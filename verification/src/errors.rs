//! The two error families of the library.
//!
//! [`ArithmeticError`] reports operation-time numeric failures and
//! [`ConvertError`] reports input-validation failures during conversions.
//! Every failure is returned to the caller; nothing is silently defaulted.

use vstd::prelude::*;

verus! {

/// An operation-time numeric failure.
#[derive(Clone, Copy, Debug, PartialEq, Eq, Structural)]
#[non_exhaustive]
pub enum ArithmeticError {
    /// The exact result does not fit the backing integer width.
    Overflow,
    /// A divisor was zero.
    DivisionByZero,
    /// An operand lay outside the operation's domain, e.g. the square root
    /// of a negative number.
    DomainViolation,
}

impl ArithmeticError {
    /// The fixed human-readable description of each variant.
    pub open spec fn spec_str(self) -> Seq<char> {
        match self {
            ArithmeticError::Overflow => "overflow"@,
            ArithmeticError::DivisionByZero => "division by zero"@,
            ArithmeticError::DomainViolation => "domain violation"@,
        }
    }

    /// A fixed human-readable description of the failure.
    pub fn as_str(&self) -> (r: &'static str)
        ensures
            r@ == self.spec_str(),
    {
        match self {
            ArithmeticError::Overflow => "overflow",
            ArithmeticError::DivisionByZero => "division by zero",
            ArithmeticError::DomainViolation => "domain violation",
        }
    }
}

/// An input-validation or conversion failure, carrying one fixed reason
/// string drawn from a small static catalog.
#[derive(Clone, Copy, Debug, PartialEq, Eq)]
pub struct ConvertError {
    reason: &'static str,
}

impl ConvertError {
    /// The fixed reason string carried by the error.
    pub closed spec fn spec_str(self) -> Seq<char> {
        self.reason@
    }

    /// Wraps one reason string from the static catalog.
    pub(crate) fn new(reason: &'static str) -> (r: Self)
        ensures
            r.spec_str() == reason@,
    {
        ConvertError { reason }
    }

    /// The fixed human-readable reason for the failure.
    pub fn as_str(&self) -> (r: &'static str)
        ensures
            r@ == self.spec_str(),
    {
        self.reason
    }
}

} // verus!
