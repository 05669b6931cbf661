//! Decimal text conversion: parsing a decimal literal into a [`FixedPoint`]
//! and rendering one back.
//!
//! The grammar is: optional surrounding whitespace, an optional sign, an
//! integral digit run, and optionally a dot followed by at most `PRECISION`
//! fractional digits.

use vstd::prelude::*;

use crate::COEF;
use crate::FixedPoint;
use crate::PRECISION;
use vstd::math::abs;

use crate::digits::{
    all_digits,
    digit_val,
    digits_val,
    is_canon_digits,
    is_digit,
    is_frac_digits,
    lemma_digits_val_bound,
    lemma_digits_val_nonneg,
    lemma_digits_val_take_le,
    lemma_digits_val_take_step,
};
use crate::errors::ConvertError;
use crate::ops::fits_i64;
use crate::pow10::{
    pow10,
    pow10_i64,
    lemma_pow10_18_value,
    lemma_pow10_adds,
    lemma_pow10_increases,
    lemma_pow10_positive,
};

verus! {

/// ASCII whitespace: the characters trimmed around a decimal literal.
pub open spec fn is_space(c: char) -> bool {
    c == ' ' || c == '\t' || c == '\n' || c == '\r' || c == '\u{c}'
}

/// The input with surrounding whitespace removed.
pub open spec fn trim_spec(s: Seq<char>) -> Seq<char>
    decreases s.len(),
{
    if s.len() > 0 && is_space(s[0]) {
        trim_spec(s.drop_first())
    } else if s.len() > 0 && is_space(s.last()) {
        trim_spec(s.drop_last())
    } else {
        s
    }
}

/// Whether the input holds a dot.
pub open spec fn has_dot(s: Seq<char>) -> bool {
    exists|i: int| 0 <= i < s.len() && s[i] == '.'
}

/// The index of the first dot.
pub open spec fn dot_index(s: Seq<char>) -> int
    recommends
        has_dot(s),
{
    choose|i: int|
        0 <= i < s.len() && #[trigger] s[i] == '.' && (forall|j: int| 0 <= j < i ==> s[j] != '.')
}

/// The digit run of an integer literal: what follows the optional sign.
pub open spec fn int_literal_body(s: Seq<char>) -> Seq<char> {
    if s.len() > 0 && (s[0] == '-' || s[0] == '+') {
        s.drop_first()
    } else {
        s
    }
}

/// The integer-literal grammar accepted for the integral part: an optional
/// sign followed by at least one digit.
pub open spec fn is_int_literal(s: Seq<char>) -> bool {
    int_literal_body(s).len() >= 1 && all_digits(int_literal_body(s))
}

/// The number denoted by an integer literal.
pub open spec fn int_literal_val(s: Seq<char>) -> int
    recommends
        is_int_literal(s),
{
    if s.len() > 0 && s[0] == '-' {
        -digits_val(s.drop_first())
    } else {
        digits_val(int_literal_body(s))
    }
}

/// What parsing a decimal literal yields: the backing integer of the parsed
/// value, or the fixed reason for which the input is rejected.
pub open spec fn spec_parse(raw: Seq<char>) -> Result<int, Seq<char>> {
    let s = trim_spec(raw);
    if !has_dot(s) {
        if !(is_int_literal(s) && fits_i64(int_literal_val(s))) {
            Err("can't parse integral part of the str"@)
        } else if !fits_i64(int_literal_val(s) * COEF as int) {
            Err("too big integral part"@)
        } else {
            Ok(int_literal_val(s) * COEF as int)
        }
    } else {
        let ipart = s.subrange(0, dot_index(s));
        let fpart = s.subrange(dot_index(s) + 1, s.len() as int);
        if !(is_int_literal(ipart) && fits_i64(int_literal_val(ipart))) {
            Err("can't parse integral part"@)
        } else if !all_digits(fpart) {
            Err("can't parse fractional part: must contain digits only"@)
        } else if fpart.len() > PRECISION as int {
            Err("requested precision is too high"@)
        } else if fpart.len() == 0 {
            Err("can't parse fractional part"@)
        } else {
            let scaled_int = int_literal_val(ipart) * COEF as int;
            let frac = digits_val(fpart) * pow10((PRECISION as int - fpart.len() as int) as nat);
            let signed_frac = if s[0] == '-' {
                -frac
            } else {
                frac
            };
            if !fits_i64(scaled_int) {
                Err("too big integral"@)
            } else if !fits_i64(scaled_int + signed_frac) {
                Err("too big number"@)
            } else {
                Ok(scaled_int + signed_frac)
            }
        }
    }
}

/// `s` renders the backing integer `x` as decimal text: a sign for a
/// negative value, the canonical digits of the integral magnitude, a dot,
/// and the fractional field with trailing zeros stripped (a single zero
/// digit when the fractional remainder vanishes).
pub open spec fn is_display(x: int, s: Seq<char>) -> bool {
    let m = abs(x) as int;
    let ip = m / (COEF as int);
    let fp = m % (COEF as int);
    exists|ds: Seq<char>, fs: Seq<char>|
        {
            &&& #[trigger] is_canon_digits(ds, ip)
            &&& #[trigger] is_frac_digits(fs, fp)
            &&& s == (if x < 0 {
                seq!['-']
            } else {
                Seq::<char>::empty()
            }) + ds + seq!['.'] + fs
        }
}

/// Trimming leaves an input without surrounding whitespace unchanged.
pub proof fn lemma_trim_eq(s: Seq<char>)
    requires
        s.len() == 0 || (!is_space(s[0]) && !is_space(s.last())),
    ensures
        trim_spec(s) == s,
{
}

/// Stripping the spaces before `lo` and from `hi` on is what `trim_spec`
/// does, when nothing at the boundary is a space.
proof fn lemma_trim_subrange(s: Seq<char>, lo: int, hi: int)
    requires
        0 <= lo <= hi <= s.len(),
        forall|i: int| 0 <= i < lo ==> is_space(#[trigger] s[i]),
        forall|j: int| hi <= j < s.len() ==> is_space(#[trigger] s[j]),
        lo == hi || (!is_space(s[lo]) && !is_space(s[hi - 1])),
    ensures
        trim_spec(s) =~= s.subrange(lo, hi),
    decreases s.len(),
{
    if s.len() == 0 {
    } else if is_space(s[0]) {
        if lo > 0 {
            lemma_trim_subrange(s.drop_first(), lo - 1, hi - 1);
            assert(s.subrange(lo, hi) =~= s.drop_first().subrange(lo - 1, hi - 1));
        } else {
            // lo == 0 and the first character is a space, so nothing is kept.
            assert(lo == hi);
            lemma_trim_subrange(s.drop_first(), 0, 0);
            assert(s.subrange(lo, hi) =~= s.drop_first().subrange(0, 0));
        }
    } else if is_space(s.last()) {
        assert(hi < s.len());
        lemma_trim_subrange(s.drop_last(), lo, hi);
        assert(s.subrange(lo, hi) =~= s.drop_last().subrange(lo, hi));
    } else {
        assert(lo == 0);
        assert(hi == s.len());
        assert(s.subrange(lo, hi) =~= s);
    }
}

/// The characters of a string, as a vector.
fn str_chars(s: &str) -> (v: Vec<char>)
    ensures
        v@ == s@,
{
    let n = s.unicode_len();
    let mut v: Vec<char> = Vec::new();
    let mut i: usize = 0;
    while i < n
        invariant
            i <= n,
            n as int == s@.len(),
            v@ =~= s@.take(i as int),
        decreases n - i,
    {
        let c = s.get_char(i);
        v.push(c);
        proof {
            assert(v@ =~= s@.take(i + 1));
        }
        i = i + 1;
    }
    proof {
        assert(v@ =~= s@);
    }
    v
}

/// Whether `c` is trimmed as whitespace.
fn is_space_exec(c: char) -> (b: bool)
    ensures
        b == is_space(c),
{
    c == ' ' || c == '\t' || c == '\n' || c == '\r' || c == '\u{c}'
}

/// The numeric value of a digit character, or nothing for any other
/// character.
fn digit_of(c: char) -> (r: Option<u64>)
    ensures
        r matches Some(d) ==> is_digit(c) && d as int == digit_val(c) && d < 10,
        r is None ==> !is_digit(c),
{
    if '0' <= c && c <= '9' {
        Some(((c as u32) - 48) as u64)
    } else {
        None
    }
}

/// Parses the characters in `v[lo..hi]` as a signed 64-bit integer literal;
/// fails on anything outside the grammar and on a value out of range.
#[verifier::loop_isolation(false)]
fn parse_i64_range(v: &Vec<char>, lo: usize, hi: usize) -> (res: Result<i64, ()>)
    requires
        lo <= hi <= v@.len(),
    ensures
        ({
            let s = v@.subrange(lo as int, hi as int);
            &&& (res matches Ok(x) ==> is_int_literal(s) && fits_i64(int_literal_val(s))
                && x as int == int_literal_val(s))
            &&& (res is Err ==> !(is_int_literal(s) && fits_i64(int_literal_val(s))))
        }),
{
    let ghost s = v@.subrange(lo as int, hi as int);
    if lo == hi {
        return Err(());
    }
    let c0 = v[lo];
    let neg = c0 == '-';
    let start = if c0 == '-' || c0 == '+' {
        lo + 1
    } else {
        lo
    };
    proof {
        assert(int_literal_body(s) =~= v@.subrange(start as int, hi as int));
    }
    let ghost body = v@.subrange(start as int, hi as int);
    if start == hi {
        return Err(());
    }
    let mut acc: u64 = 0;
    let mut i: usize = start;
    while i < hi
        invariant
            lo <= start <= i <= hi <= v@.len(),
            body == v@.subrange(start as int, hi as int),
            all_digits(v@.subrange(start as int, i as int)),
            acc as int == digits_val(v@.subrange(start as int, i as int)),
        decreases hi - i,
    {
        let c = v[i];
        let d = match digit_of(c) {
            Some(d) => d,
            None => {
                proof {
                    assert(body[i - start] == c);
                }
                return Err(());
            },
        };
        proof {
            assert(v@.subrange(start as int, i as int) =~= body.take(i - start));
            assert(v@.subrange(start as int, (i + 1) as int) =~= body.take(i - start + 1));
            lemma_digits_val_take_step(body, i - start);
            assert(body[i - start] == c);
        }
        let step = match acc.checked_mul(10) {
            Some(t) => t.checked_add(d),
            None => None,
        };
        match step {
            Some(t) => {
                acc = t;
            },
            None => {
                // The digits read so far already exceed every 64-bit value,
                // so the whole literal is out of range whenever it is
                // well-formed at all.
                proof {
                    if is_int_literal(s) {
                        lemma_digits_val_take_le(body, i - start + 1);
                        lemma_digits_val_nonneg(body);
                    }
                }
                return Err(());
            },
        }
        proof {
            assert(all_digits(v@.subrange(start as int, (i + 1) as int)));
        }
        i = i + 1;
    }
    proof {
        assert(v@.subrange(start as int, i as int) =~= body);
        if neg {
            assert(s.drop_first() =~= body);
        }
    }
    if neg {
        if acc <= 0x8000_0000_0000_0000u64 {
            if acc == 0x8000_0000_0000_0000u64 {
                Ok(i64::MIN)
            } else {
                Ok(-(acc as i64))
            }
        } else {
            Err(())
        }
    } else {
        if acc <= 0x7fff_ffff_ffff_ffffu64 {
            Ok(acc as i64)
        } else {
            Err(())
        }
    }
}

/// Parses a run of at most `PRECISION` digit characters as an unsigned
/// number; always below `COEF`.
#[verifier::loop_isolation(false)]
fn parse_u64_digits(v: &Vec<char>, lo: usize, hi: usize) -> (r: u64)
    requires
        lo <= hi <= v@.len(),
        all_digits(v@.subrange(lo as int, hi as int)),
        hi - lo <= PRECISION,
    ensures
        r as int == digits_val(v@.subrange(lo as int, hi as int)),
        r < 1_000_000_000u64,
{
    let ghost s = v@.subrange(lo as int, hi as int);
    let mut acc: u64 = 0;
    let mut i: usize = lo;
    proof {
        lemma_pow10_18_value();
    }
    while i < hi
        invariant
            lo <= i <= hi <= v@.len(),
            s == v@.subrange(lo as int, hi as int),
            all_digits(s),
            hi - lo <= PRECISION,
            acc as int == digits_val(v@.subrange(lo as int, i as int)),
            (acc as int) < pow10((i - lo) as nat),
            pow10(PRECISION as nat) == 1_000_000_000,
        decreases hi - i,
    {
        let c = v[i];
        proof {
            assert(s[i - lo] == c);
            assert(v@.subrange(lo as int, i as int) =~= s.take(i - lo));
            assert(v@.subrange(lo as int, (i + 1) as int) =~= s.take(i - lo + 1));
            lemma_digits_val_take_step(s, i - lo);
            lemma_pow10_increases((i - lo + 1) as nat, PRECISION as nat);
        }
        let d = match digit_of(c) {
            Some(d) => d,
            None => {
                proof {
                    // Every character in range is a digit, so this arm can
                    // never be reached.
                    assert(s[i - lo] == c);
                    assert(false);
                }
                0
            },
        };
        acc = acc * 10 + d;
        i = i + 1;
    }
    proof {
        assert(v@.subrange(lo as int, i as int) =~= s);
        lemma_pow10_increases((i - lo) as nat, PRECISION as nat);
    }
    acc
}

impl FixedPoint {
    /// Parses a decimal literal, exactly as [`spec_parse`] describes: the
    /// value on a well-formed input, and the fixed reason string on any
    /// other.
    #[verifier::loop_isolation(false)]
    pub fn from_str(input: &str) -> (res: Result<FixedPoint, ConvertError>)
        ensures
            ({
                match spec_parse(input@) {
                    Ok(v) => res matches Ok(c) && c@ == v,
                    Err(m) => res matches Err(e) && e.spec_str() == m,
                }
            }),
    {
        let chars = str_chars(input);
        let n = chars.len();
        let mut lo: usize = 0;
        while lo < n && is_space_exec(chars[lo])
            invariant
                lo <= n,
                n == chars@.len(),
                forall|i: int| 0 <= i < lo ==> is_space(#[trigger] chars@[i]),
            decreases n - lo,
        {
            lo = lo + 1;
        }
        let mut hi: usize = n;
        while hi > lo && is_space_exec(chars[hi - 1])
            invariant
                lo <= hi <= n,
                n == chars@.len(),
                forall|i: int| 0 <= i < lo ==> is_space(#[trigger] chars@[i]),
                forall|j: int| hi <= j < n ==> is_space(#[trigger] chars@[j]),
            decreases hi,
        {
            hi = hi - 1;
        }
        let ghost t = trim_spec(input@);
        proof {
            lemma_trim_subrange(chars@, lo as int, hi as int);
            assert(t == chars@.subrange(lo as int, hi as int));
        }
        // Find the first dot, if any.
        let mut di: usize = lo;
        while di < hi && chars[di] != '.'
            invariant
                lo <= di <= hi <= n,
                n == chars@.len(),
                forall|j: int| lo <= j < di ==> chars@[j] != '.',
            decreases hi - di,
        {
            di = di + 1;
        }
        if di == hi {
            // No dot: the whole trimmed input is the integral part.
            proof {
                assert(!has_dot(t));
            }
            match parse_i64_range(&chars, lo, hi) {
                Err(()) => Err(ConvertError::new("can't parse integral part of the str")),
                Ok(ival) => match ival.checked_mul(COEF) {
                    None => Err(ConvertError::new("too big integral part")),
                    Some(v) => Ok(FixedPoint::from_bits(v)),
                },
            }
        } else {
            proof {
                assert(t[di - lo] == '.');
                assert(has_dot(t));
                let w = dot_index(t);
                assert(0 <= w < t.len() && t[w] == '.' && (forall|j: int|
                    0 <= j < w ==> t[j] != '.')) by {
                    assert(0 <= di - lo < t.len() && t[di - lo] == '.' && (forall|j: int|
                        0 <= j < di - lo ==> t[j] != '.'));
                }
                assert(w == di - lo);
                assert(t.subrange(0, di - lo) =~= chars@.subrange(lo as int, di as int));
                assert(t.subrange(di - lo + 1, t.len() as int) =~= chars@.subrange(
                    (di + 1) as int,
                    hi as int,
                ));
            }
            match parse_i64_range(&chars, lo, di) {
                Err(()) => Err(ConvertError::new("can't parse integral part")),
                Ok(ival) => {
                    let ghost fpart = t.subrange(di - lo + 1, t.len() as int);
                    // Check the fractional run holds digits only.
                    let mut k: usize = di + 1;
                    let mut all_ok = true;
                    while k < hi && all_ok
                        invariant
                            di + 1 <= k <= hi <= n,
                            n == chars@.len(),
                            all_ok ==> forall|j: int|
                                di + 1 <= j < k ==> is_digit(#[trigger] chars@[j]),
                            !all_ok ==> (di + 1 < k <= hi && !is_digit(chars@[k - 1])),
                        decreases hi - k,
                    {
                        if digit_of(chars[k]).is_none() {
                            all_ok = false;
                        }
                        k = k + 1;
                    }
                    if !all_ok {
                        proof {
                            assert(fpart[k - 1 - (di + 1)] == chars@[k - 1]);
                            assert(!all_digits(fpart));
                        }
                        return Err(
                            ConvertError::new("can't parse fractional part: must contain digits only"),
                        );
                    }
                    proof {
                        assert(forall|j: int|
                            0 <= j < fpart.len() ==> is_digit(#[trigger] fpart[j]) == is_digit(
                                chars@[j + di + 1],
                            ));
                        assert(all_digits(fpart));
                    }
                    let flen = hi - (di + 1);
                    if flen > PRECISION as usize {
                        return Err(ConvertError::new("requested precision is too high"));
                    }
                    if flen == 0 {
                        return Err(ConvertError::new("can't parse fractional part"));
                    }
                    let fval = parse_u64_digits(&chars, di + 1, hi);
                    let scale = pow10_i64((PRECISION as usize - flen) as u32);
                    proof {
                        lemma_pow10_18_value();
                        lemma_digits_val_bound(fpart);
                        lemma_pow10_adds(
                            fpart.len() as nat,
                            (PRECISION as int - fpart.len() as int) as nat,
                        );
                        lemma_pow10_positive((PRECISION as int - fpart.len() as int) as nat);
                        assert(digits_val(fpart) * pow10(
                            (PRECISION as int - fpart.len() as int) as nat,
                        ) < pow10(fpart.len() as nat) * pow10(
                            (PRECISION as int - fpart.len() as int) as nat,
                        )) by (nonlinear_arith)
                            requires
                                digits_val(fpart) < pow10(fpart.len() as nat),
                                pow10((PRECISION as int - fpart.len() as int) as nat) >= 1,
                        ;
                        assert(digits_val(fpart) * pow10(
                            (PRECISION as int - fpart.len() as int) as nat,
                        ) >= 0) by (nonlinear_arith)
                            requires
                                digits_val(fpart) >= 0,
                                pow10((PRECISION as int - fpart.len() as int) as nat) >= 1,
                        ;
                    }
                    let frac = (fval as i64) * scale;
                    let sfrac = if chars[lo] == '-' {
                        -frac
                    } else {
                        frac
                    };
                    match ival.checked_mul(COEF) {
                        None => Err(ConvertError::new("too big integral")),
                        Some(scaled) => match scaled.checked_add(sfrac) {
                            None => Err(ConvertError::new("too big number")),
                            Some(bits) => Ok(FixedPoint::from_bits(bits)),
                        },
                    }
                },
            }
        }
    }
}

/// Appends one decimal digit character.
fn append_digit(out: &mut String, d: u64)
    requires
        d < 10,
    ensures
        final(out)@ == old(out)@.push(final(out)@.last()),
        is_digit(final(out)@.last()),
        digit_val(final(out)@.last()) == d as int,
{
    proof {
        reveal_strlit("0");
        reveal_strlit("1");
        reveal_strlit("2");
        reveal_strlit("3");
        reveal_strlit("4");
        reveal_strlit("5");
        reveal_strlit("6");
        reveal_strlit("7");
        reveal_strlit("8");
        reveal_strlit("9");
    }
    let ghost before = out@;
    if d == 0 {
        out.append("0");
    } else if d == 1 {
        out.append("1");
    } else if d == 2 {
        out.append("2");
    } else if d == 3 {
        out.append("3");
    } else if d == 4 {
        out.append("4");
    } else if d == 5 {
        out.append("5");
    } else if d == 6 {
        out.append("6");
    } else if d == 7 {
        out.append("7");
    } else if d == 8 {
        out.append("8");
    } else {
        out.append("9");
    }
    proof {
        assert(out@ =~= before.push(out@.last()));
    }
}

/// Appends the canonical digit run of `n`: most significant digit first,
/// no leading zero.
fn append_digits_u64(out: &mut String, n: u64)
    ensures
        exists|ds: Seq<char>|
            #[trigger] is_canon_digits(ds, n as int) && final(out)@ == old(out)@ + ds,
    decreases n,
{
    let ghost before = out@;
    if n >= 10 {
        append_digits_u64(out, n / 10);
        let ghost mid = out@;
        let ghost hd = choose|ds: Seq<char>|
            #[trigger] is_canon_digits(ds, (n / 10) as int) && mid == before + ds;
        append_digit(out, n % 10);
        proof {
            let ds = hd.push(out@.last());
            assert(ds.drop_last() =~= hd);
            assert(ds.last() == out@.last());
            assert(digits_val(ds) == 10 * ((n / 10) as int) + (n % 10) as int);
            assert forall|j: int| 0 <= j < ds.len() implies is_digit(#[trigger] ds[j]) by {
                if j < hd.len() {
                    assert(ds[j] == hd[j]);
                } else {
                    assert(ds[j] == ds.last());
                }
            }
            assert(digit_val(ds[0]) != 0) by {
                if hd.len() == 1 {
                    assert(hd.drop_last() =~= Seq::<char>::empty());
                    assert(digits_val(Seq::<char>::empty()) == 0);
                    assert(hd.last() == hd[0]);
                    assert(digits_val(hd) == digit_val(hd[0]));
                }
                assert(ds[0] == hd[0]);
            }
            assert(out@ =~= before + ds);
            assert(is_canon_digits(ds, n as int));
        }
    } else {
        append_digit(out, n);
        proof {
            let ds = seq![out@.last()];
            assert(ds.drop_last() =~= Seq::<char>::empty());
            assert(digits_val(Seq::<char>::empty()) == 0);
            assert(ds.last() == out@.last());
            assert(digits_val(ds) == n as int);
            assert(out@ =~= before + ds);
            assert(is_canon_digits(ds, n as int));
        }
    }
}

/// Appends the digit run of `n` left-padded with zeros to exactly `width`
/// digits.
fn append_fixed_width(out: &mut String, n: u64, width: usize)
    requires
        1 <= width,
        (n as int) < pow10(width as nat),
    ensures
        exists|ds: Seq<char>|
            {
                &&& #[trigger] all_digits(ds)
                &&& ds.len() == width
                &&& digits_val(ds) == n as int
                &&& digit_val(ds.last()) == n as int % 10
                &&& final(out)@ == old(out)@ + ds
            },
    decreases width,
{
    let ghost before = out@;
    if width == 1 {
        proof {
            assert(pow10(1) == 10 * pow10(0));
        }
        append_digit(out, n);
        proof {
            let ds = seq![out@.last()];
            assert(ds.drop_last() =~= Seq::<char>::empty());
            assert(digits_val(Seq::<char>::empty()) == 0);
            assert(ds.last() == out@.last());
            assert(digits_val(ds) == n as int);
            assert(out@ =~= before + ds);
            assert(all_digits(ds));
        }
    } else {
        proof {
            assert(pow10(width as nat) == 10 * pow10((width - 1) as nat));
        }
        append_fixed_width(out, n / 10, width - 1);
        let ghost mid = out@;
        let ghost hd = choose|ds: Seq<char>|
            {
                &&& #[trigger] all_digits(ds)
                &&& ds.len() == width - 1
                &&& digits_val(ds) == (n / 10) as int
                &&& digit_val(ds.last()) == (n / 10) as int % 10
                &&& mid == before + ds
            };
        append_digit(out, n % 10);
        proof {
            let ds = hd.push(out@.last());
            assert(ds.drop_last() =~= hd);
            assert(ds.last() == out@.last());
            assert(digits_val(ds) == 10 * ((n / 10) as int) + (n % 10) as int);
            assert forall|j: int| 0 <= j < ds.len() implies is_digit(#[trigger] ds[j]) by {
                if j < hd.len() {
                    assert(ds[j] == hd[j]);
                } else {
                    assert(ds[j] == ds.last());
                }
            }
            assert(all_digits(ds));
            assert(out@ =~= before + ds);
        }
    }
}

impl FixedPoint {
    /// Renders the value as decimal text, exactly as [`is_display`]
    /// describes; [`FixedPoint::from_str`] maps the result back to the same
    /// value.
    pub fn to_string(&self) -> (r: String)
        ensures
            is_display(self@, r@),
    {
        let neg = self.inner < 0;
        let m = crate::ops::abs_u64(self.inner);
        let ip = m / 1_000_000_000u64;
        let fp = m % 1_000_000_000u64;
        let mut out = String::new();
        if neg {
            out.append("-");
        }
        proof {
            reveal_strlit("-");
        }
        let ghost sign = out@;
        append_digits_u64(&mut out, ip);
        let ghost with_int = out@;
        let ghost ds = choose|ds: Seq<char>|
            #[trigger] is_canon_digits(ds, ip as int) && with_int == sign + ds;
        out.append(".");
        proof {
            reveal_strlit(".");
            lemma_pow10_18_value();
        }
        let ghost with_dot = out@;
        if fp == 0 {
            append_digit(&mut out, 0);
            proof {
                let fs = seq![out@.last()];
                assert(fs.drop_last() =~= Seq::<char>::empty());
                assert(is_frac_digits(fs, fp as int));
                assert(out@ =~= with_dot + fs);
                assert(sign =~= if self@ < 0 {
                    seq!['-']
                } else {
                    Seq::<char>::empty()
                });
                assert(with_dot =~= sign + ds + seq!['.']);
                assert(out@ =~= sign + ds + seq!['.'] + fs);
            }
        } else {
            let mut f = fp;
            let mut width: usize = PRECISION as usize;
            while f % 10 == 0
                invariant
                    1 <= width <= PRECISION,
                    1 <= f,
                    (f as int) < pow10(width as nat),
                    f as int * pow10((PRECISION as int - width) as nat) == fp as int,
                decreases width,
            {
                proof {
                    lemma_pow10_positive((width - 1) as nat);
                    lemma_pow10_positive((PRECISION as int - width) as nat);
                    assert(pow10(width as nat) == 10 * pow10((width - 1) as nat));
                    assert(pow10((PRECISION as int - width + 1) as nat) == 10 * pow10(
                        (PRECISION as int - width) as nat,
                    ));
                    assert((f / 10) as int * pow10((PRECISION as int - width + 1) as nat) == f
                        as int * pow10((PRECISION as int - width) as nat)) by (nonlinear_arith)
                        requires
                            f % 10 == 0,
                            f as int == 10 * ((f / 10) as int) + (f as int % 10),
                            pow10((PRECISION as int - width + 1) as nat) == 10 * pow10(
                                (PRECISION as int - width) as nat,
                            ),
                    ;
                    assert(1 <= width);
                    if width == 1 {
                        assert(pow10(1) == 10 * pow10(0));
                        assert(f < 10);
                        assert(f % 10 == f);
                        assert(false);
                    }
                }
                f = f / 10;
                width = width - 1;
            }
            append_fixed_width(&mut out, f, width);
            proof {
                let fs = choose|fs: Seq<char>|
                    {
                        &&& #[trigger] all_digits(fs)
                        &&& fs.len() == width
                        &&& digits_val(fs) == f as int
                        &&& digit_val(fs.last()) == f as int % 10
                        &&& out@ == with_dot + fs
                    };
                assert(is_frac_digits(fs, fp as int));
                assert(sign =~= if self@ < 0 {
                    seq!['-']
                } else {
                    Seq::<char>::empty()
                });
                assert(with_dot =~= sign + ds + seq!['.']);
                assert(out@ =~= sign + ds + seq!['.'] + fs);
            }
        }
        out
    }
}

} // verus!
