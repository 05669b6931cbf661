//! Rounding policies and the mathematical definition of rounded division.
//!
//! Every rounding operation of the library is specified through
//! [`round_div`]: the exact rational result `n / d` rounded to an integer
//! toward negative infinity ([`RoundMode::Floor`]) or toward positive
//! infinity ([`RoundMode::Ceil`]).

use vstd::prelude::*;
use vstd::arithmetic::div_mod::{
    lemma_fundamental_div_mod,
    lemma_fundamental_div_mod_converse,
};
use vstd::math::abs;

verus! {

/// The caller-selected policy resolving operations whose mathematically
/// exact result is not exactly representable.
#[derive(Clone, Copy, Debug, PartialEq, Eq, Structural)]
pub enum RoundMode {
    /// Round toward negative infinity.
    Floor,
    /// Round toward positive infinity.
    Ceil,
}

/// The exact rational `n / d` rounded toward negative infinity.
pub open spec fn floor_div(n: int, d: int) -> int
    recommends
        d != 0,
{
    if d > 0 {
        n / d
    } else {
        (-n) / (-d)
    }
}

/// The exact rational `n / d` rounded toward positive infinity.
pub open spec fn ceil_div(n: int, d: int) -> int
    recommends
        d != 0,
{
    -floor_div(-n, d)
}

/// The exact rational `n / d` rounded as `mode` directs.
pub open spec fn round_div(n: int, d: int, mode: RoundMode) -> int
    recommends
        d != 0,
{
    match mode {
        RoundMode::Floor => floor_div(n, d),
        RoundMode::Ceil => ceil_div(n, d),
    }
}

/// For a nonnegative dividend and positive divisor, rounding toward
/// negative infinity is plain Euclidean division.
pub proof fn lemma_floor_div_nonneg(n: int, d: int)
    requires
        n >= 0,
        d > 0,
    ensures
        floor_div(n, d) == n / d,
        floor_div(n, d) >= 0,
{
    lemma_fundamental_div_mod(n, d);
    assert(n / d >= 0) by (nonlinear_arith)
        requires
            n >= 0,
            d > 0,
            n == d * (n / d) + (n % d),
            0 <= n % d < d,
    ;
}

/// Rounding a nonpositive dividend `-n` toward negative infinity, expressed
/// over the Euclidean quotient and remainder of the magnitudes.
pub proof fn lemma_floor_div_neg(n: int, d: int)
    requires
        n >= 0,
        d > 0,
    ensures
        floor_div(-n, d) == if n % d == 0 {
            -(n / d)
        } else {
            -(n / d) - 1
        },
{
    let q = n / d;
    let r = n % d;
    lemma_fundamental_div_mod(n, d);
    if r == 0 {
        assert(-n == (-q) * d + 0) by (nonlinear_arith)
            requires
                n == d * q + r,
                r == 0,
        ;
        lemma_fundamental_div_mod_converse(-n, d, -q, 0);
    } else {
        assert(-n == (-q - 1) * d + (d - r)) by (nonlinear_arith)
            requires
                n == d * q + r,
        ;
        lemma_fundamental_div_mod_converse(-n, d, -q - 1, d - r);
    }
}

/// Rounded division stated over the magnitudes of its operands: the shape in
/// which the executable operations compute it.  `q` and `r` are the Euclidean
/// quotient and remainder of `|n| / |d|`; the rounded quotient is `q`,
/// `q + 1`, `-q` or `-q - 1` depending on the sign of the exact result, on
/// whether the remainder vanishes, and on the mode.
pub proof fn lemma_round_div_parts(n: int, d: int, mode: RoundMode)
    requires
        d != 0,
    ensures
        ({
            let q = abs(n) as int / abs(d) as int;
            let r = abs(n) as int % abs(d) as int;
            round_div(n, d, mode) == if (n >= 0) == (d > 0) {
                match mode {
                    RoundMode::Floor => q,
                    RoundMode::Ceil => if r == 0 { q } else { q + 1 },
                }
            } else {
                match mode {
                    RoundMode::Floor => if r == 0 { -q } else { -q - 1 },
                    RoundMode::Ceil => -q,
                }
            }
        }),
{
    let nm = abs(n) as int;
    let dm = abs(d) as int;
    let q = nm / dm;
    let r = nm % dm;
    lemma_floor_div_nonneg(nm, dm);
    lemma_floor_div_neg(nm, dm);
    if (n >= 0) == (d > 0) {
        // The exact result is nonnegative: floor is q, ceil adds one on loss.
        assert(floor_div(n, d) == q);
        assert(ceil_div(n, d) == if r == 0 { q } else { q + 1 });
    } else {
        // The exact result is nonpositive: ceil is -q, floor subtracts one.
        assert(floor_div(n, d) == if r == 0 { -q } else { -q - 1 });
        assert(ceil_div(n, d) == -q);
    }
}

/// `m` with the sign selected by `neg`.
pub open spec fn signed_of(neg: bool, m: int) -> int {
    if neg {
        -m
    } else {
        m
    }
}

/// The magnitude of the rounded quotient, over the Euclidean quotient and
/// remainder of the operand magnitudes: one more than the quotient exactly
/// when some of the dividend is lost and the mode pushes away from zero on
/// this sign.
pub open spec fn rounded_mag(nm: int, dm: int, neg: bool, mode: RoundMode) -> int
    recommends
        dm > 0,
{
    nm / dm + if nm % dm != 0 && neg == (mode == RoundMode::Floor) {
        1int
    } else {
        0int
    }
}

/// Rounded division computed from the operand magnitudes and the sign of the
/// exact result: the shape in which the executable operations compute it.
pub proof fn lemma_round_div_mag(n: int, d: int, neg: bool, mode: RoundMode)
    requires
        d != 0,
        n != 0 ==> neg == ((n < 0) != (d < 0)),
    ensures
        round_div(n, d, mode) == signed_of(
            neg,
            rounded_mag(abs(n) as int, abs(d) as int, neg, mode),
        ),
{
    lemma_round_div_parts(n, d, mode);
    if n == 0 {
        lemma_fundamental_div_mod_converse(0, abs(d) as int, 0, 0);
    }
}

/// The magnitude of a product is the product of the magnitudes, and its sign
/// is the exclusive or of the operands' signs.
pub proof fn lemma_mul_sign_mag(a: int, b: int)
    ensures
        abs(a) * abs(b) == abs(a * b),
        a * b != 0 ==> ((a * b < 0) == ((a < 0) != (b < 0))),
        a * b == 0 <==> (a == 0 || b == 0),
{
    if a >= 0 && b >= 0 {
        assert(a * b >= 0 && abs(a) * abs(b) == a * b) by (nonlinear_arith)
            requires
                a >= 0,
                b >= 0,
                abs(a) == a,
                abs(b) == b,
        ;
    } else if a >= 0 && b < 0 {
        assert(a * b <= 0 && abs(a) * abs(b) == -(a * b)) by (nonlinear_arith)
            requires
                a >= 0,
                b < 0,
                abs(a) == a,
                abs(b) == -b,
        ;
    } else if a < 0 && b >= 0 {
        assert(a * b <= 0 && abs(a) * abs(b) == -(a * b)) by (nonlinear_arith)
            requires
                a < 0,
                b >= 0,
                abs(a) == -a,
                abs(b) == b,
        ;
    } else {
        assert(a * b > 0 && abs(a) * abs(b) == a * b) by (nonlinear_arith)
            requires
                a < 0,
                b < 0,
                abs(a) == -a,
                abs(b) == -b,
        ;
    }
    assert(a * b == 0 <==> (a == 0 || b == 0)) by (nonlinear_arith);
}

/// Lower and upper bound of rounding toward negative infinity, for a
/// positive divisor: `q * d <= n < (q + 1) * d`.
pub proof fn lemma_floor_div_bound(n: int, d: int)
    requires
        d > 0,
    ensures
        floor_div(n, d) * d <= n < (floor_div(n, d) + 1) * d,
{
    let q = n / d;
    lemma_fundamental_div_mod(n, d);
    assert(q * d <= n < (q + 1) * d) by (nonlinear_arith)
        requires
            n == d * q + (n % d),
            0 <= n % d < d,
    ;
}

/// Lower and upper bound of rounding toward positive infinity, for a
/// positive divisor: `(q - 1) * d < n <= q * d`.
pub proof fn lemma_ceil_div_bound(n: int, d: int)
    requires
        d > 0,
    ensures
        (ceil_div(n, d) - 1) * d < n <= ceil_div(n, d) * d,
{
    lemma_floor_div_bound(-n, d);
    let f = floor_div(-n, d);
    assert((-f - 1) * d < n <= (-f) * d) by (nonlinear_arith)
        requires
            f * d <= -n < (f + 1) * d,
    ;
}

/// Rounded division is exact on exact multiples: `(a * d) / d` rounds to `a`
/// under every mode.
pub proof fn lemma_round_div_exact(a: int, d: int, mode: RoundMode)
    requires
        d > 0,
    ensures
        round_div(a * d, d, mode) == a,
{
    lemma_floor_div_bound(a * d, d);
    let f = floor_div(a * d, d);
    assert(f == a) by (nonlinear_arith)
        requires
            d > 0,
            f * d <= a * d < (f + 1) * d,
    ;
    lemma_ceil_div_bound(a * d, d);
    let c = ceil_div(a * d, d);
    assert(c == a) by (nonlinear_arith)
        requires
            d > 0,
            (c - 1) * d < a * d <= c * d,
    ;
}

/// Adding a whole multiple of the divisor shifts the rounded quotient by
/// exactly that multiplier, under every mode.
pub proof fn lemma_round_div_add_multiple(n: int, d: int, k: int, mode: RoundMode)
    requires
        d > 0,
    ensures
        round_div(n + k * d, d, mode) == k + round_div(n, d, mode),
{
    let f = floor_div(n, d);
    lemma_floor_div_bound(n, d);
    assert(0 <= n + k * d - (f + k) * d < d) by (nonlinear_arith)
        requires
            f * d <= n < (f + 1) * d,
    ;
    lemma_fundamental_div_mod_converse(n + k * d, d, f + k, n + k * d - (f + k) * d);
    assert(floor_div(n + k * d, d) == k + f);
    let fm = floor_div(-n, d);
    lemma_floor_div_bound(-n, d);
    assert(0 <= -(n + k * d) - (fm - k) * d < d) by (nonlinear_arith)
        requires
            fm * d <= -n < (fm + 1) * d,
    ;
    lemma_fundamental_div_mod_converse(
        -(n + k * d),
        d,
        fm - k,
        -(n + k * d) - (fm - k) * d,
    );
    assert(ceil_div(n + k * d, d) == k + ceil_div(n, d));
}

} // verus!
