//! Powers of ten: the spec-level definition and the executable table used by
//! scaling conversions and by `next_power_of_ten`.

use vstd::prelude::*;

verus! {

/// `10^e`, as specifications see it.
pub open spec fn pow10(e: nat) -> int
    decreases e,
{
    if e == 0 {
        1
    } else {
        10 * pow10((e - 1) as nat)
    }
}

/// Every power of ten is positive.
pub proof fn lemma_pow10_positive(e: nat)
    ensures
        pow10(e) >= 1,
    decreases e,
{
    if e > 0 {
        lemma_pow10_positive((e - 1) as nat);
    }
}

/// Powers of ten grow strictly with the exponent.
pub proof fn lemma_pow10_increases(e1: nat, e2: nat)
    requires
        e1 <= e2,
    ensures
        pow10(e1) <= pow10(e2),
        e1 < e2 ==> 10 * pow10(e1) <= pow10(e2),
    decreases e2,
{
    if e1 < e2 {
        lemma_pow10_increases(e1, (e2 - 1) as nat);
        lemma_pow10_positive(e1);
    }
}

/// Splitting an exponent splits the power: `10^(a+b) == 10^a * 10^b`.
pub proof fn lemma_pow10_adds(a: nat, b: nat)
    ensures
        pow10(a + b) == pow10(a) * pow10(b),
    decreases a,
{
    if a == 0 {
        assert(pow10(b) == 1 * pow10(b));
    } else {
        lemma_pow10_adds((a - 1) as nat, b);
        assert(10 * (pow10((a - 1) as nat) * pow10(b)) == (10 * pow10((a - 1) as nat)) * pow10(
            b,
        )) by (nonlinear_arith);
    }
}

/// The largest exponent whose power of ten is representable in an `i64`.
pub const MAX_POW10_EXP_I64: u32 = 18;

/// `10^e` computed for an `i64`; defined for every exponent whose power is
/// representable.
pub fn pow10_i64(e: u32) -> (r: i64)
    requires
        e <= MAX_POW10_EXP_I64,
    ensures
        r as int == pow10(e as nat),
{
    let mut r: i64 = 1;
    let mut i: u32 = 0;
    while i < e
        invariant
            i <= e <= MAX_POW10_EXP_I64,
            r as int == pow10(i as nat),
        decreases e - i,
    {
        proof {
            lemma_pow10_increases((i + 1) as nat, MAX_POW10_EXP_I64 as nat);
            lemma_pow10_positive(i as nat);
            assert(pow10((i + 1) as nat) == 10 * pow10(i as nat));
            lemma_pow10_18_value();
        }
        r = r * 10;
        i = i + 1;
    }
    r
}

/// The concrete value of the largest `i64`-representable power of ten.
pub proof fn lemma_pow10_18_value()
    ensures
        pow10(MAX_POW10_EXP_I64 as nat) == 1_000_000_000_000_000_000,
        pow10(9) == 1_000_000_000,
{
    reveal_with_fuel(pow10, 20);
}

} // verus!
