//! Conversions into [`FixedPoint`] from integers and from an explicit
//! mantissa and decimal exponent.

use vstd::prelude::*;

use crate::COEF;
use crate::FixedPoint;
use crate::PRECISION;
use crate::errors::ConvertError;
use crate::ops::fits_i64;
use crate::pow10::{pow10, lemma_pow10_positive, lemma_pow10_increases};

verus! {

/// Scaling by a later power of ten never shrinks a value's magnitude and
/// keeps its sign.
proof fn lemma_scale_monotone(m: int, j: nat, k: nat)
    requires
        j <= k,
    ensures
        m >= 0 ==> m * pow10(j) <= m * pow10(k),
        m < 0 ==> m * pow10(k) <= m * pow10(j),
{
    lemma_pow10_positive(j);
    lemma_pow10_increases(j, k);
    if m >= 0 {
        assert(m * pow10(j) <= m * pow10(k)) by (nonlinear_arith)
            requires
                m >= 0,
                pow10(j) <= pow10(k),
        ;
    } else {
        assert(m * pow10(k) <= m * pow10(j)) by (nonlinear_arith)
            requires
                m < 0,
                pow10(j) <= pow10(k),
        ;
    }
}

impl FixedPoint {
    /// Builds the value `mantissa * 10^exponent`.  The exponent must lie in
    /// `-PRECISION ..= 10`; a mantissa whose scaled value does not fit the
    /// backing width is rejected.
    pub fn from_decimal(mantissa: i64, exponent: i32) -> (res: Result<FixedPoint, ConvertError>)
        ensures
            exponent < -(PRECISION as int) || exponent > 10 ==> (res matches Err(e)
                && e.spec_str() == "unsupported exponent"@),
            -(PRECISION as int) <= exponent <= 10 ==> {
                let v = mantissa as int * pow10((exponent + PRECISION) as nat);
                &&& fits_i64(v) ==> (res matches Ok(c) && c@ == v)
                &&& !fits_i64(v) ==> (res matches Err(e) && e.spec_str() == "too big mantissa"@)
            },
    {
        if exponent < -(PRECISION as i32) || exponent > 10 {
            return Err(ConvertError::new("unsupported exponent"));
        }
        let steps = (exponent + PRECISION as i32) as u32;
        let mut acc = mantissa;
        let mut i: u32 = 0;
        while i < steps
            invariant
                i <= steps,
                steps as int == exponent + PRECISION,
                exponent <= 10,
                acc as int == mantissa as int * pow10(i as nat),
            decreases steps - i,
        {
            proof {
                lemma_pow10_positive(i as nat);
                assert(pow10((i + 1) as nat) == 10 * pow10(i as nat));
                assert(acc as int * 10 == mantissa as int * pow10((i + 1) as nat))
                    by (nonlinear_arith)
                    requires
                        acc as int == mantissa as int * pow10(i as nat),
                        pow10((i + 1) as nat) == 10 * pow10(i as nat),
                ;
            }
            match acc.checked_mul(10) {
                Some(v) => {
                    acc = v;
                },
                None => {
                    proof {
                        lemma_scale_monotone(mantissa as int, (i + 1) as nat, steps as nat);
                        lemma_pow10_positive((i + 1) as nat);
                        if mantissa >= 0 {
                            assert(mantissa as int * pow10((i + 1) as nat) >= 0)
                                by (nonlinear_arith)
                                requires
                                    mantissa as int >= 0,
                                    pow10((i + 1) as nat) >= 1,
                            ;
                        } else {
                            assert(mantissa as int * pow10((i + 1) as nat) <= 0)
                                by (nonlinear_arith)
                                requires
                                    (mantissa as int) < 0,
                                    pow10((i + 1) as nat) >= 1,
                            ;
                        }
                    }
                    return Err(ConvertError::new("too big mantissa"));
                },
            }
            i = i + 1;
        }
        Ok(FixedPoint::from_bits(acc))
    }

    /// Converts a plain integer of the backing width by scaling it to the
    /// fixed-point scale.
    pub fn try_from_i64(value: i64) -> (res: Result<FixedPoint, ConvertError>)
        ensures
            fits_i64(value as int * COEF as int) ==> (res matches Ok(c) && c@ == value as int
                * COEF as int),
            !fits_i64(value as int * COEF as int) ==> (res matches Err(e) && e.spec_str()
                == "too big number"@),
    {
        match value.checked_mul(COEF) {
            Some(v) => Ok(FixedPoint::from_bits(v)),
            None => Err(ConvertError::new("too big number")),
        }
    }

    /// Converts a signed double-width integer: narrow-checks into the
    /// backing width, then scales.
    pub fn try_from_i128(value: i128) -> (res: Result<FixedPoint, ConvertError>)
        ensures
            fits_i64(value as int * COEF as int) ==> (res matches Ok(c) && c@ == value as int
                * COEF as int),
            !fits_i64(value as int * COEF as int) ==> (res matches Err(e) && e.spec_str()
                == "too big number"@),
    {
        if value < i64::MIN as i128 || value > i64::MAX as i128 {
            proof {
                if value > i64::MAX as i128 {
                    assert(value as int * COEF as int > i64::MAX) by (nonlinear_arith)
                        requires
                            value as int > i64::MAX,
                            COEF as int >= 1,
                    ;
                } else {
                    assert((value as int * COEF as int) < i64::MIN) by (nonlinear_arith)
                        requires
                            (value as int) < i64::MIN,
                            COEF as int >= 1,
                    ;
                }
            }
            Err(ConvertError::new("too big number"))
        } else {
            Self::try_from_i64(value as i64)
        }
    }

    /// Converts an unsigned double-width integer: narrow-checks into the
    /// backing width, then scales.
    pub fn try_from_u128(value: u128) -> (res: Result<FixedPoint, ConvertError>)
        ensures
            fits_i64(value as int * COEF as int) ==> (res matches Ok(c) && c@ == value as int
                * COEF as int),
            !fits_i64(value as int * COEF as int) ==> (res matches Err(e) && e.spec_str()
                == "too big number"@),
    {
        if value > i64::MAX as u128 {
            proof {
                assert(value as int * COEF as int > i64::MAX) by (nonlinear_arith)
                    requires
                        value as int > i64::MAX,
                        COEF as int >= 1,
                ;
            }
            Err(ConvertError::new("too big number"))
        } else {
            Self::try_from_i64(value as i64)
        }
    }
}

} // verus!
