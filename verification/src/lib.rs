//! Fixed-point decimal numbers with explicit rounding.
//!
//! A value is a signed 64-bit integer `inner` interpreted as the decimal
//! number `inner / 10^PRECISION`, with `PRECISION` fixed at compile time.
//! All arithmetic is checked: an operation either returns a value that is
//! bit-identical to the mathematically exact result rounded by the
//! caller-chosen [`RoundMode`](round::RoundMode), or reports an error.
//! Intermediate products and scaled dividends are computed in 128-bit
//! promotion, so no precision is ever lost before the final rounding step.

use vstd::prelude::*;

pub mod convert;
pub mod digits;
pub mod errors;
pub mod laws;
pub mod ops;
pub mod pow10;
pub mod round;
pub mod sqrt;
pub mod text;

pub use errors::ArithmeticError;
pub use errors::ConvertError;
pub use round::RoundMode;

verus! {

/// Count of fractional decimal digits carried by every [`FixedPoint`].
pub const PRECISION: u32 = 9;

/// The scale factor between the backing integer and the represented decimal
/// number: `10^PRECISION`.
pub const COEF: i64 = 1_000_000_000;

/// A fixed-point decimal number: a signed 64-bit integer scaled by
/// `10^PRECISION`.
///
/// The mathematical view `v@` of a value `v` is the backing integer, i.e. the
/// represented number measured in smallest representable steps.
#[derive(Clone, Copy, PartialEq, Eq, PartialOrd, Ord, Hash, Debug)]
pub struct FixedPoint {
    inner: i64,
}

impl View for FixedPoint {
    type V = int;

    open(crate) spec fn view(&self) -> int {
        self.inner as int
    }
}

/// Types that carry a compile-time count of fractional decimal digits.
pub trait Precision {
    /// The fractional digit count, as seen by specifications.
    spec fn spec_precision() -> nat;

    /// The fractional digit count.
    fn precision() -> (p: u32)
        ensures
            p as nat == Self::spec_precision(),
    ;
}

impl Precision for FixedPoint {
    open spec fn spec_precision() -> nat {
        PRECISION as nat
    }

    fn precision() -> (p: u32)
        ensures
            p as nat == Self::spec_precision(),
    {
        PRECISION
    }
}

impl FixedPoint {
    /// Builds the value whose backing integer is `raw`; the result represents
    /// `raw / 10^PRECISION`.
    pub fn from_bits(raw: i64) -> (r: Self)
        ensures
            r@ == raw as int,
    {
        FixedPoint { inner: raw }
    }

    /// The backing integer, borrowed.
    pub fn as_bits(&self) -> (r: &i64)
        ensures
            *r as int == self@,
    {
        &self.inner
    }

    /// The backing integer.
    pub fn into_bits(self) -> (r: i64)
        ensures
            r as int == self@,
    {
        self.inner
    }

    /// The value representing zero.
    pub fn zero() -> (r: Self)
        ensures
            r@ == 0,
    {
        FixedPoint { inner: 0 }
    }

    /// The value representing one, i.e. `COEF` smallest steps.
    pub fn one() -> (r: Self)
        ensures
            r@ == COEF as int,
    {
        FixedPoint { inner: COEF }
    }

    /// The smallest positive representable value, `10^-PRECISION`.
    pub fn epsilon() -> (r: Self)
        ensures
            r@ == 1,
    {
        FixedPoint { inner: 1 }
    }

    /// The least representable value.
    pub fn min_value() -> (r: Self)
        ensures
            r@ == i64::MIN as int,
    {
        FixedPoint { inner: i64::MIN }
    }

    /// The greatest representable value.
    pub fn max_value() -> (r: Self)
        ensures
            r@ == i64::MAX as int,
    {
        FixedPoint { inner: i64::MAX }
    }
}

} // verus!
