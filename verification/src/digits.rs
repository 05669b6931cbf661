//! Decimal digit sequences: what a run of digit characters denotes, and the
//! lemmas the text conversions rely on.

use vstd::prelude::*;

use crate::pow10::pow10;

verus! {

/// Whether `c` is a decimal digit character.
pub open spec fn is_digit(c: char) -> bool {
    48 <= c as int <= 57
}

/// The numeric value of a digit character.
pub open spec fn digit_val(c: char) -> int
    recommends
        is_digit(c),
{
    c as int - 48
}

/// Whether every character of `s` is a decimal digit.
pub open spec fn all_digits(s: Seq<char>) -> bool {
    forall|i: int| 0 <= i < s.len() ==> is_digit(#[trigger] s[i])
}

/// The number denoted by a run of digit characters, most significant first;
/// an empty run denotes zero.
pub open spec fn digits_val(s: Seq<char>) -> int
    decreases s.len(),
{
    if s.len() == 0 {
        0
    } else {
        10 * digits_val(s.drop_last()) + digit_val(s.last())
    }
}

/// `s` is the canonical digit run of the nonnegative number `n`: nonempty,
/// digits only, denoting `n`, without a leading zero.
pub open spec fn is_canon_digits(s: Seq<char>, n: int) -> bool {
    &&& all_digits(s)
    &&& s.len() >= 1
    &&& digits_val(s) == n
    &&& (s.len() == 1 || digit_val(s[0]) != 0)
}

/// `s` is the rendered fractional field for the fractional remainder `fp`
/// (in smallest steps, `0 <= fp < COEF`): the `PRECISION`-digit zero-padded
/// run of `fp` with trailing zeros stripped, or a single zero digit when the
/// remainder vanishes.
pub open spec fn is_frac_digits(s: Seq<char>, fp: int) -> bool {
    &&& all_digits(s)
    &&& 1 <= s.len() <= crate::PRECISION as int
    &&& if fp == 0 {
        s.len() == 1 && digit_val(s[0]) == 0
    } else {
        digits_val(s) * pow10((crate::PRECISION as int - s.len() as int) as nat) == fp
            && digit_val(s.last()) != 0
    }
}

/// A digit run denotes a nonnegative number.
pub proof fn lemma_digits_val_nonneg(s: Seq<char>)
    requires
        all_digits(s),
    ensures
        digits_val(s) >= 0,
    decreases s.len(),
{
    if s.len() > 0 {
        assert(all_digits(s.drop_last()));
        lemma_digits_val_nonneg(s.drop_last());
    }
}

/// A digit run of length `L` denotes a number below `10^L`.
pub proof fn lemma_digits_val_bound(s: Seq<char>)
    requires
        all_digits(s),
    ensures
        0 <= digits_val(s) < pow10(s.len() as nat),
    decreases s.len(),
{
    if s.len() == 0 {
    } else {
        assert(all_digits(s.drop_last()));
        lemma_digits_val_bound(s.drop_last());
        assert(pow10(s.len() as nat) == 10 * pow10((s.len() - 1) as nat));
    }
}

/// Reading one more digit multiplies the denoted prefix value by ten and
/// adds the digit.
pub proof fn lemma_digits_val_take_step(s: Seq<char>, i: int)
    requires
        0 <= i < s.len(),
    ensures
        digits_val(s.take(i + 1)) == 10 * digits_val(s.take(i)) + digit_val(s[i]),
{
    let t = s.take(i + 1);
    assert(t.drop_last() =~= s.take(i));
    assert(t.last() == s[i]);
}

/// A prefix of a digit run never denotes more than the whole run.
pub proof fn lemma_digits_val_take_le(s: Seq<char>, i: int)
    requires
        all_digits(s),
        0 <= i <= s.len(),
    ensures
        digits_val(s.take(i)) <= digits_val(s),
    decreases s.len() - i,
{
    if i == s.len() {
        assert(s.take(i) =~= s);
    } else {
        lemma_digits_val_take_step(s, i);
        assert(all_digits(s.take(i)));
        lemma_digits_val_nonneg(s.take(i));
        lemma_digits_val_take_le(s, i + 1);
    }
}

} // verus!
