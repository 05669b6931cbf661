//! Checked, saturating and rounding arithmetic on [`FixedPoint`].
//!
//! Checked operations fail with [`ArithmeticError::Overflow`] instead of
//! wrapping; rounding operations compute the exact rational result in a wide
//! enough intermediate and round it as the caller's [`RoundMode`] directs.

use vstd::prelude::*;
use vstd::math::abs;
use vstd::arithmetic::div_mod::lemma_div_nonincreasing;

use crate::COEF;
use crate::FixedPoint;
use crate::errors::ArithmeticError;
use crate::pow10::{pow10, lemma_pow10_18_value, MAX_POW10_EXP_I64};
use crate::round::{
    RoundMode,
    round_div,
    rounded_mag,
    signed_of,
    lemma_mul_sign_mag,
    lemma_round_div_mag,
    lemma_round_div_add_multiple,
};

verus! {

/// Whether the exact result `v` is representable in the backing width.
pub open spec fn fits_i64(v: int) -> bool {
    i64::MIN <= v <= i64::MAX
}

/// The contract shape of every checked operation: the exact result when it is
/// representable, `Overflow` otherwise.
pub open spec fn checked_result(res: Result<FixedPoint, ArithmeticError>, v: int) -> bool {
    &&& fits_i64(v) ==> (res matches Ok(c) && c@ == v)
    &&& !fits_i64(v) ==> res == Err::<FixedPoint, ArithmeticError>(ArithmeticError::Overflow)
}

/// The exact result `v` clamped to the representable range.
pub open spec fn saturate(v: int) -> int {
    if v < i64::MIN {
        i64::MIN as int
    } else if v > i64::MAX {
        i64::MAX as int
    } else {
        v
    }
}

/// The magnitude of a backing integer, exactly, including `i64::MIN`.
pub(crate) fn abs_u64(x: i64) -> (r: u64)
    ensures
        r as int == abs(x as int),
{
    if x >= 0 {
        x as u64
    } else {
        (-(x + 1)) as u64 + 1
    }
}

/// Divides the magnitude `nm` by the magnitude `dm`, rounds as `mode`
/// directs for a result of the sign selected by `neg`, and narrows to the
/// backing width.
fn div_round_mags(neg: bool, nm: u128, dm: u128, mode: RoundMode) -> (res: Result<
    i64,
    ArithmeticError,
>)
    requires
        0 < dm,
        nm < u128::MAX,
    ensures
        ({
            let v = signed_of(neg, rounded_mag(nm as int, dm as int, neg, mode));
            &&& fits_i64(v) ==> (res matches Ok(b) && b as int == v)
            &&& !fits_i64(v) ==> res == Err::<i64, ArithmeticError>(ArithmeticError::Overflow)
        }),
{
    let q = nm / dm;
    let r = nm % dm;
    proof {
        lemma_div_nonincreasing(nm as int, dm as int);
    }
    let am = if r != 0 && (neg == (mode == RoundMode::Floor)) {
        q + 1
    } else {
        q
    };
    if !neg {
        if am <= 0x7fff_ffff_ffff_ffff_u128 {
            Ok(am as i64)
        } else {
            Err(ArithmeticError::Overflow)
        }
    } else {
        if am <= 0x7fff_ffff_ffff_ffff_u128 {
            Ok(-(am as i64))
        } else if am == 0x8000_0000_0000_0000_u128 {
            Ok(i64::MIN)
        } else {
            Err(ArithmeticError::Overflow)
        }
    }
}

impl FixedPoint {
    /// Checked addition: the exact sum, or `Overflow` when it does not fit.
    pub fn cadd(self, rhs: Self) -> (res: Result<Self, ArithmeticError>)
        ensures
            checked_result(res, self@ + rhs@),
    {
        match self.inner.checked_add(rhs.inner) {
            Some(v) => Ok(FixedPoint::from_bits(v)),
            None => Err(ArithmeticError::Overflow),
        }
    }

    /// Checked subtraction: the exact difference, or `Overflow`.
    pub fn csub(self, rhs: Self) -> (res: Result<Self, ArithmeticError>)
        ensures
            checked_result(res, self@ - rhs@),
    {
        match self.inner.checked_sub(rhs.inner) {
            Some(v) => Ok(FixedPoint::from_bits(v)),
            None => Err(ArithmeticError::Overflow),
        }
    }

    /// Checked negation: fails with `Overflow` exactly on the least value,
    /// which has no positive counterpart.
    pub fn cneg(self) -> (res: Result<Self, ArithmeticError>)
        ensures
            checked_result(res, -self@),
    {
        if self.inner == i64::MIN {
            Err(ArithmeticError::Overflow)
        } else {
            Ok(FixedPoint::from_bits(-self.inner))
        }
    }

    /// Checked multiplication by a dimensionless integer; the scale is
    /// preserved, so no rounding is involved.
    pub fn cmul(self, rhs: i64) -> (res: Result<Self, ArithmeticError>)
        ensures
            checked_result(res, self@ * rhs as int),
    {
        match self.inner.checked_mul(rhs) {
            Some(v) => Ok(FixedPoint::from_bits(v)),
            None => Err(ArithmeticError::Overflow),
        }
    }

    /// The absolute value: fails with `Overflow` exactly on the least value.
    pub fn abs(self) -> (res: Result<Self, ArithmeticError>)
        ensures
            checked_result(res, abs(self@) as int),
    {
        if self.inner < 0 {
            self.cneg()
        } else {
            Ok(self)
        }
    }

    /// Addition clamped to the representable range.
    pub fn saturating_add(self, rhs: Self) -> (r: Self)
        ensures
            r@ == saturate(self@ + rhs@),
    {
        match self.inner.checked_add(rhs.inner) {
            Some(v) => FixedPoint::from_bits(v),
            None => if rhs.inner > 0 {
                FixedPoint::from_bits(i64::MAX)
            } else {
                FixedPoint::from_bits(i64::MIN)
            },
        }
    }

    /// Subtraction clamped to the representable range.
    pub fn saturating_sub(self, rhs: Self) -> (r: Self)
        ensures
            r@ == saturate(self@ - rhs@),
    {
        match self.inner.checked_sub(rhs.inner) {
            Some(v) => FixedPoint::from_bits(v),
            None => if rhs.inner < 0 {
                FixedPoint::from_bits(i64::MAX)
            } else {
                FixedPoint::from_bits(i64::MIN)
            },
        }
    }

    /// Multiplication by a dimensionless integer, clamped to the
    /// representable range.
    pub fn saturating_mul(self, rhs: i64) -> (r: Self)
        ensures
            r@ == saturate(self@ * rhs as int),
    {
        match self.inner.checked_mul(rhs) {
            Some(v) => FixedPoint::from_bits(v),
            None => {
                let positive = (self.inner < 0) == (rhs < 0);
                proof {
                    lemma_mul_sign_mag(self@, rhs as int);
                }
                if positive {
                    FixedPoint::from_bits(i64::MAX)
                } else {
                    FixedPoint::from_bits(i64::MIN)
                }
            },
        }
    }

    /// Rounding multiplication: the exact product of the two represented
    /// numbers, rounded as `mode` directs, or `Overflow` when the rounded
    /// result does not fit.
    pub fn rmul(self, rhs: Self, mode: RoundMode) -> (res: Result<Self, ArithmeticError>)
        ensures
            checked_result(res, round_div(self@ * rhs@, COEF as int, mode)),
    {
        let neg = (self.inner < 0) != (rhs.inner < 0);
        let am = abs_u64(self.inner);
        let bm = abs_u64(rhs.inner);
        proof {
            lemma_mul_sign_mag(self@, rhs@);
            lemma_round_div_mag(self@ * rhs@, COEF as int, neg, mode);
            assert((am as int) * (bm as int) < u128::MAX) by (nonlinear_arith)
                requires
                    am as int <= 0x8000_0000_0000_0000,
                    bm as int <= 0x8000_0000_0000_0000,
            ;
        }
        let nm = (am as u128) * (bm as u128);
        match div_round_mags(neg, nm, 1_000_000_000u128, mode) {
            Ok(bits) => Ok(FixedPoint::from_bits(bits)),
            Err(e) => Err(e),
        }
    }

    /// Rounding division of two fixed-point numbers: the exact quotient of
    /// the represented numbers, rounded as `mode` directs; `DivisionByZero`
    /// on a zero divisor, `Overflow` when the rounded result does not fit.
    pub fn rdiv(self, rhs: Self, mode: RoundMode) -> (res: Result<Self, ArithmeticError>)
        ensures
            rhs@ == 0 ==> res == Err::<FixedPoint, ArithmeticError>(ArithmeticError::DivisionByZero),
            rhs@ != 0 ==> checked_result(res, round_div(self@ * COEF as int, rhs@, mode)),
    {
        if rhs.inner == 0 {
            return Err(ArithmeticError::DivisionByZero);
        }
        let neg = (self.inner < 0) != (rhs.inner < 0);
        let am = abs_u64(self.inner);
        let bm = abs_u64(rhs.inner);
        proof {
            lemma_mul_sign_mag(self@, COEF as int);
            lemma_round_div_mag(self@ * COEF as int, rhs@, neg, mode);
        }
        let nm = (am as u128) * 1_000_000_000u128;
        match div_round_mags(neg, nm, bm as u128, mode) {
            Ok(bits) => Ok(FixedPoint::from_bits(bits)),
            Err(e) => Err(e),
        }
    }

    /// Rounding division by a dimensionless integer; the scale is preserved.
    pub fn rdiv_int(self, rhs: i64, mode: RoundMode) -> (res: Result<Self, ArithmeticError>)
        ensures
            rhs == 0 ==> res == Err::<FixedPoint, ArithmeticError>(ArithmeticError::DivisionByZero),
            rhs != 0 ==> checked_result(res, round_div(self@, rhs as int, mode)),
    {
        if rhs == 0 {
            return Err(ArithmeticError::DivisionByZero);
        }
        let neg = (self.inner < 0) != (rhs < 0);
        let am = abs_u64(self.inner);
        let bm = abs_u64(rhs);
        proof {
            lemma_round_div_mag(self@, rhs as int, neg, mode);
        }
        match div_round_mags(neg, am as u128, bm as u128, mode) {
            Ok(bits) => Ok(FixedPoint::from_bits(bits)),
            Err(e) => Err(e),
        }
    }

    /// Rounding division of a dimensionless integer by a fixed-point number:
    /// the integer is first brought to the fixed-point scale, at its own
    /// overflow risk.
    pub fn rdiv_of_int(lhs: i64, rhs: Self, mode: RoundMode) -> (res: Result<
        Self,
        ArithmeticError,
    >)
        ensures
            !fits_i64(lhs as int * COEF as int) ==> res == Err::<FixedPoint, ArithmeticError>(
                ArithmeticError::Overflow,
            ),
            fits_i64(lhs as int * COEF as int) && rhs@ == 0 ==> res == Err::<
                FixedPoint,
                ArithmeticError,
            >(ArithmeticError::DivisionByZero),
            fits_i64(lhs as int * COEF as int) && rhs@ != 0 ==> checked_result(
                res,
                round_div(lhs as int * COEF as int * COEF as int, rhs@, mode),
            ),
    {
        match lhs.checked_mul(COEF) {
            Some(v) => FixedPoint::from_bits(v).rdiv(rhs, mode),
            None => Err(ArithmeticError::Overflow),
        }
    }

    /// The reciprocal: one divided by this number, rounded as `mode` directs.
    pub fn recip(self, mode: RoundMode) -> (res: Result<Self, ArithmeticError>)
        ensures
            self@ == 0 ==> res == Err::<FixedPoint, ArithmeticError>(ArithmeticError::DivisionByZero),
            self@ != 0 ==> checked_result(res, round_div(COEF as int * COEF as int, self@, mode)),
    {
        FixedPoint::one().rdiv(self, mode)
    }

    /// The integer part of the number, rounded as `mode` directs; always
    /// representable.
    pub fn integral(self, mode: RoundMode) -> (r: i64)
        ensures
            r as int == round_div(self@, COEF as int, mode),
    {
        let neg = self.inner < 0;
        let m = abs_u64(self.inner);
        let q = m / 1_000_000_000u64;
        let rem = m % 1_000_000_000u64;
        proof {
            lemma_round_div_mag(self@, COEF as int, neg, mode);
        }
        let am = if rem != 0 && (neg == (mode == RoundMode::Floor)) {
            q + 1
        } else {
            q
        };
        if neg {
            -(am as i64)
        } else {
            am as i64
        }
    }

    /// The mean of two numbers, rounded as `mode` directs, computed without
    /// intermediate overflow; always representable.
    pub fn half_sum(a: Self, b: Self, mode: RoundMode) -> (r: Self)
        ensures
            r@ == round_div(a@ + b@, 2, mode),
    {
        let an = a.inner;
        let bn = b.inner;
        if (an <= 0 && bn >= 0) || (an >= 0 && bn <= 0) {
            // Opposite or zero signs: the direct sum cannot overflow.
            FixedPoint::from_bits(rdiv2_i64(an + bn, mode))
        } else {
            // Same strict sign: halve the gap instead of summing, so that
            // two large same-sign values near the bounds stay in range.
            let (mn, mx) = if an <= bn {
                (an, bn)
            } else {
                (bn, an)
            };
            let diff = mx - mn;
            let half = rdiv2_i64(diff, mode);
            proof {
                lemma_round_div_mag(diff as int, 2, false, mode);
                lemma_round_div_add_multiple(diff as int, 2, mn as int, mode);
            }
            FixedPoint::from_bits(mn + half)
        }
    }

    /// The smallest power of ten, measured in backing-integer steps, at or
    /// above this value (below it, for a negative value); `Overflow` when no
    /// representable power of ten is large enough.
    pub fn next_power_of_ten(self) -> (res: Result<Self, ArithmeticError>)
        ensures
            self@ >= 0 && self@ <= pow10(MAX_POW10_EXP_I64 as nat) ==> (res matches Ok(c)
                && exists|k: nat|
                {
                    &&& k <= MAX_POW10_EXP_I64
                    &&& c@ == #[trigger] pow10(k)
                    &&& self@ <= pow10(k)
                    &&& (k == 0 || pow10((k - 1) as nat) < self@)
                }),
            self@ < 0 && -self@ <= pow10(MAX_POW10_EXP_I64 as nat) ==> (res matches Ok(c)
                && exists|k: nat|
                {
                    &&& k <= MAX_POW10_EXP_I64
                    &&& c@ == -(#[trigger] pow10(k))
                    &&& -self@ <= pow10(k)
                    &&& (k == 0 || pow10((k - 1) as nat) < -self@)
                }),
            abs(self@) > pow10(MAX_POW10_EXP_I64 as nat) ==> res == Err::<
                FixedPoint,
                ArithmeticError,
            >(ArithmeticError::Overflow),
    {
        proof {
            lemma_pow10_18_value();
        }
        if self.inner >= 0 {
            match next_pow10_mag(self.inner as u64) {
                Ok(p) => Ok(FixedPoint::from_bits(p)),
                Err(e) => Err(e),
            }
        } else {
            let m = abs_u64(self.inner);
            match next_pow10_mag(m) {
                Ok(p) => {
                    proof {
                        let k = choose|k: nat|
                            {
                                &&& k <= MAX_POW10_EXP_I64
                                &&& p as int == #[trigger] pow10(k)
                                &&& m as int <= pow10(k)
                                &&& (k == 0 || pow10((k - 1) as nat) < m as int)
                            };
                        assert({
                            &&& k <= MAX_POW10_EXP_I64
                            &&& -(p as int) == -(pow10(k))
                            &&& -self@ <= pow10(k)
                            &&& (k == 0 || pow10((k - 1) as nat) < -self@)
                        });
                    }
                    Ok(FixedPoint::from_bits(-p))
                },
                Err(e) => Err(e),
            }
        }
    }
}

/// Division of a backing integer by two, rounded as `mode` directs; always
/// representable.
fn rdiv2_i64(s: i64, mode: RoundMode) -> (r: i64)
    ensures
        r as int == round_div(s as int, 2, mode),
{
    let neg = s < 0;
    let m = abs_u64(s);
    let q = m / 2;
    let rem = m % 2;
    proof {
        lemma_round_div_mag(s as int, 2, neg, mode);
    }
    let am = if rem != 0 && (neg == (mode == RoundMode::Floor)) {
        q + 1
    } else {
        q
    };
    if neg {
        -(am as i64)
    } else {
        am as i64
    }
}

/// The smallest power of ten at or above the magnitude `v`, or `Overflow`
/// when `v` exceeds the largest `i64`-representable power of ten.
fn next_pow10_mag(v: u64) -> (res: Result<i64, ArithmeticError>)
    ensures
        v as int <= pow10(MAX_POW10_EXP_I64 as nat) ==> (res matches Ok(p) && exists|k: nat|
            {
                &&& k <= MAX_POW10_EXP_I64
                &&& p as int == #[trigger] pow10(k)
                &&& v as int <= pow10(k)
                &&& (k == 0 || pow10((k - 1) as nat) < v as int)
            }),
        v as int > pow10(MAX_POW10_EXP_I64 as nat) ==> res == Err::<i64, ArithmeticError>(
            ArithmeticError::Overflow,
        ),
{
    proof {
        lemma_pow10_18_value();
    }
    let mut p: i64 = 1;
    let mut i: u32 = 0;
    loop
        invariant
            i <= MAX_POW10_EXP_I64,
            p as int == pow10(i as nat),
            1 <= p as int <= pow10(MAX_POW10_EXP_I64 as nat),
            i == 0 || pow10((i - 1) as nat) < v as int,
        decreases MAX_POW10_EXP_I64 - i,
    {
        proof {
            lemma_pow10_18_value();
        }
        if v <= p as u64 {
            proof {
                assert({
                    &&& i as nat <= MAX_POW10_EXP_I64
                    &&& p as int == pow10(i as nat)
                    &&& v as int <= pow10(i as nat)
                    &&& (i as nat == 0 || pow10((i as nat - 1) as nat) < v as int)
                });
            }
            return Ok(p);
        }
        if i == MAX_POW10_EXP_I64 {
            return Err(ArithmeticError::Overflow);
        }
        proof {
            crate::pow10::lemma_pow10_increases((i + 1) as nat, MAX_POW10_EXP_I64 as nat);
            crate::pow10::lemma_pow10_positive(i as nat);
        }
        p = p * 10;
        i = i + 1;
    }
}

} // verus!
