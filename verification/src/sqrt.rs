//! Rounding integer square root, and the fixed-point square root built on it.
//!
//! To keep `PRECISION` fractional digits through a square root — which
//! conceptually halves the scale — the backing integer is first multiplied by
//! `COEF` in a double-width intermediate; the integer square root of that
//! product is already at the fixed-point scale.

use vstd::prelude::*;

use crate::COEF;
use crate::FixedPoint;
use crate::errors::ArithmeticError;
use crate::round::RoundMode;

verus! {

/// `r` is the square root of `s`, rounded as `mode` directs: the unique
/// nonnegative integer with `r^2 <= s < (r+1)^2` under `Floor`, and with
/// `(r-1)^2 < s <= r^2` under `Ceil`.
pub open spec fn is_rounded_sqrt(s: int, mode: RoundMode, r: int) -> bool {
    &&& r >= 0
    &&& match mode {
        RoundMode::Floor => r * r <= s < (r + 1) * (r + 1),
        RoundMode::Ceil => s <= r * r && (r == 0 || (r - 1) * (r - 1) < s),
    }
}

/// The integer square root, rounded toward zero: returns `r` with
/// `r^2 <= s < (r+1)^2`, by binary search on the answer.
fn isqrt_u128(s: u128) -> (r: u128)
    ensures
        r * r <= s < (r + 1) * (r + 1),
        r < 0x1_0000_0000_0000_0000,
{
    let mut lo: u128 = 0;
    let mut hi: u128 = 0x1_0000_0000_0000_0000;
    proof {
        assert(s < hi * hi) by (nonlinear_arith)
            requires
                hi == 0x1_0000_0000_0000_0000,
                s <= u128::MAX,
        ;
    }
    while hi - lo > 1
        invariant
            lo < hi <= 0x1_0000_0000_0000_0000,
            lo * lo <= s,
            s < hi * hi,
        decreases hi - lo,
    {
        let mid = lo + (hi - lo) / 2;
        proof {
            assert(mid * mid <= u128::MAX) by (nonlinear_arith)
                requires
                    mid < 0x1_0000_0000_0000_0000,
            ;
        }
        if mid * mid <= s {
            lo = mid;
        } else {
            hi = mid;
        }
    }
    proof {
        assert(s < (lo + 1) * (lo + 1)) by (nonlinear_arith)
            requires
                hi == lo + 1,
                s < hi * hi,
        ;
    }
    lo
}

impl FixedPoint {
    /// The square root of a nonnegative number, rounded as `mode` directs;
    /// `DomainViolation` on a negative operand.  Narrowing back to the
    /// backing width can never overflow, because an integer square root
    /// needs no more bits than its radicand.
    pub fn rsqrt(self, mode: RoundMode) -> (res: Result<Self, ArithmeticError>)
        ensures
            self@ < 0 ==> res == Err::<FixedPoint, ArithmeticError>(
                ArithmeticError::DomainViolation,
            ),
            self@ >= 0 ==> (res matches Ok(c) && is_rounded_sqrt(self@ * COEF as int, mode, c@)),
    {
        if self.inner < 0 {
            return Err(ArithmeticError::DomainViolation);
        }
        let s = (self.inner as u128) * 1_000_000_000u128;
        let root = isqrt_u128(s);
        proof {
            // The radicand is below 2^93, so its floor root is below 2^47
            // and even the `Ceil` adjustment stays far inside the width.
            assert(root < 0x1_0000_0000_0000) by (nonlinear_arith)
                requires
                    root * root <= s,
                    s < 0x8000_0000_0000_0000u128 * 0x4000_0000u128,
            ;
        }
        let exact = root * root == s;
        let adjusted = if !exact && mode == RoundMode::Ceil {
            root + 1
        } else {
            root
        };
        proof {
            if exact && root > 0 {
                assert((root - 1) * (root - 1) < root * root) by (nonlinear_arith)
                    requires
                        root >= 1,
                ;
            }
        }
        Ok(FixedPoint::from_bits(adjusted as i64))
    }
}

} // verus!
