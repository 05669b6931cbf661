//! The library's laws: properties that relate several operations, stated
//! over the same spec functions the operations' contracts use and proved for
//! every input.

use vstd::prelude::*;
use vstd::arithmetic::div_mod::{lemma_fundamental_div_mod, lemma_div_is_ordered, lemma_div_pos_is_pos};
use vstd::math::abs;

use crate::COEF;
use crate::PRECISION;
use crate::digits::{digit_val, digits_val, is_canon_digits, is_frac_digits};
use crate::ops::fits_i64;
use crate::pow10::pow10;
use crate::round::{
    RoundMode,
    ceil_div,
    floor_div,
    round_div,
    lemma_ceil_div_bound,
    lemma_floor_div_bound,
    lemma_round_div_exact,
};
use crate::text::{
    dot_index,
    has_dot,
    int_literal_body,
    int_literal_val,
    is_display,
    is_int_literal,
    is_space,
    spec_parse,
    trim_spec,
};

verus! {

/// Identity law: multiplying by one and dividing by one return the operand
/// unchanged, under every rounding mode.  `rmul(a, ONE, mode)` and
/// `rdiv(a, ONE, mode)` both round `a * COEF / COEF`, which this lemma shows
/// is exactly `a`.
pub proof fn lemma_one_identity(a: int, mode: RoundMode)
    ensures
        round_div(a * COEF as int, COEF as int, mode) == a,
{
    lemma_round_div_exact(a, COEF as int, mode);
}

/// Rounding bound: the rounded quotient is within one unit of the exact
/// rational quotient, on the side the mode directs.  For a positive divisor,
/// `Floor` gives `r * d <= n < (r + 1) * d` and `Ceil` gives
/// `(r - 1) * d < n <= r * d`; a negative divisor flips the bounds.
/// Instantiated with `n = a * b, d = COEF` this bounds `rmul`, and with
/// `n = a * COEF, d = b` it bounds `rdiv`.
pub proof fn lemma_round_div_bound(n: int, d: int, mode: RoundMode)
    requires
        d != 0,
    ensures
        ({
            let r = round_div(n, d, mode);
            &&& d > 0 && mode == RoundMode::Floor ==> r * d <= n < (r + 1) * d
            &&& d > 0 && mode == RoundMode::Ceil ==> (r - 1) * d < n <= r * d
            &&& d < 0 && mode == RoundMode::Floor ==> (r + 1) * d < n <= r * d
            &&& d < 0 && mode == RoundMode::Ceil ==> r * d <= n < (r - 1) * d
        }),
{
    if d > 0 {
        lemma_floor_div_bound(n, d);
        lemma_ceil_div_bound(n, d);
    } else {
        let f = floor_div(n, d);
        lemma_floor_div_bound(-n, -d);
        assert(floor_div(-n, -d) == f);
        assert((f + 1) * d < n <= f * d) by (nonlinear_arith)
            requires
                f * (-d) <= -n < (f + 1) * (-d),
        ;
        let c = ceil_div(n, d);
        lemma_floor_div_bound(-(-n), -d);
        assert(floor_div(n, -d) == -c) by {
            assert(floor_div(-(-n), -d) == floor_div(-n, d));
        }
        lemma_floor_div_bound(n, -d);
        assert(c * d <= n < (c - 1) * d) by (nonlinear_arith)
            requires
                (-c) * (-d) <= n < (-c + 1) * (-d),
        ;
    }
}

/// A digit run of one character denotes that character's digit.
proof fn lemma_digits_val_single(c: char)
    ensures
        digits_val(seq![c]) == digit_val(c),
{
    assert(seq![c].drop_last() =~= Seq::<char>::empty());
    assert(digits_val(Seq::<char>::empty()) == 0);
    assert(seq![c].last() == c);
}

/// Round trip: parsing a rendered value yields the value back.  For every
/// representable backing integer `x` and every rendering `s` of it,
/// `spec_parse(s)` succeeds and returns exactly `x`; through the contracts
/// of `to_string` and `from_str` this carries the law to the executable
/// conversions.
pub proof fn lemma_display_parse_round_trip(x: int, s: Seq<char>)
    requires
        fits_i64(x),
        is_display(x, s),
    ensures
        spec_parse(s) == Ok::<int, Seq<char>>(x),
{
    let m = abs(x) as int;
    let ip = m / (COEF as int);
    let fp = m % (COEF as int);
    let (ds, fs) = choose|ds: Seq<char>, fs: Seq<char>|
        {
            &&& #[trigger] is_canon_digits(ds, ip)
            &&& #[trigger] is_frac_digits(fs, fp)
            &&& s == (if x < 0 {
                seq!['-']
            } else {
                Seq::<char>::empty()
            }) + ds + seq!['.'] + fs
        };
    let sign: Seq<char> = if x < 0 {
        seq!['-']
    } else {
        Seq::<char>::empty()
    };
    let slen = sign.len() as int;
    let dpos = slen + ds.len() as int;
    lemma_fundamental_div_mod(m, COEF as int);
    lemma_div_pos_is_pos(m, COEF as int);
    lemma_div_is_ordered(m, 0x8000_0000_0000_0000, COEF as int);

    // The rendered text starts with a sign or digit and ends with a digit,
    // so trimming leaves it unchanged.
    assert(s.len() == slen + ds.len() + 1 + fs.len());
    assert(s[0] == if x < 0 {
        '-'
    } else {
        ds[0]
    });
    assert(s.last() == fs.last());
    assert(!is_space(s[0]));
    assert(!is_space(s[s.len() - 1]));
    crate::text::lemma_trim_eq(s);
    assert(trim_spec(s) == s);

    // The first dot stands right after the integral digits.
    assert(s[dpos] == '.');
    assert forall|j: int| 0 <= j < dpos implies s[j] != '.' by {
        if j < slen {
            assert(s[j] == '-');
        } else {
            assert(s[j] == ds[j - slen]);
        }
    }
    assert(has_dot(s));
    let w = dot_index(s);
    assert(0 <= w < s.len() && s[w] == '.' && (forall|j: int| 0 <= j < w ==> s[j] != '.')) by {
        assert(0 <= dpos < s.len() && s[dpos] == '.' && (forall|j: int|
            0 <= j < dpos ==> s[j] != '.'));
    }
    assert(w == dpos) by {
        if w < dpos {
            assert(s[w] != '.');
        }
        if w > dpos {
            assert(s[dpos] != '.');
        }
    }

    // The two fields on either side of the dot are the digit runs the
    // rendering placed there.
    let ipart = s.subrange(0, dpos);
    let fpart = s.subrange(dpos + 1, s.len() as int);
    assert(ipart =~= sign + ds);
    assert(fpart =~= fs);

    assert(int_literal_body(ipart) =~= ds);
    assert(is_int_literal(ipart));
    let ival = int_literal_val(ipart);
    assert(ival == if x < 0 {
        -ip
    } else {
        ip
    }) by {
        if x < 0 {
            assert(ipart[0] == '-');
            assert(ipart.drop_first() =~= ds);
        } else {
            assert(ipart == ds);
        }
    }
    assert(0 <= ip <= 9_223_372_036);
    assert(fits_i64(ival));

    // The fractional field scales back to the fractional remainder.
    let frac = digits_val(fpart) * pow10((PRECISION as int - fpart.len() as int) as nat);
    assert(frac == fp) by {
        if fp == 0 {
            lemma_digits_val_single(fs[0]);
            assert(fs =~= seq![fs[0]]);
            assert(digits_val(fs) == 0);
            crate::pow10::lemma_pow10_positive((PRECISION as int - fs.len() as int) as nat);
            assert(0 * pow10((PRECISION as int - fs.len() as int) as nat) == 0)
                by (nonlinear_arith);
        }
    }
    assert(s[0] == '-' <==> x < 0) by {
        if x >= 0 {
            assert(s[0] == ds[0]);
        }
    }

    // Reassembling integral and fractional parts gives the value back.
    let scaled_int = ival * COEF as int;
    let signed_frac = if s[0] == '-' {
        -frac
    } else {
        frac
    };
    assert(scaled_int == if x < 0 {
        -(ip * COEF as int)
    } else {
        ip * COEF as int
    }) by (nonlinear_arith)
        requires
            ival == if x < 0 {
                -ip
            } else {
                ip
            },
            scaled_int == ival * COEF as int,
    ;
    assert(m == (COEF as int) * ip + fp);
    assert(ip * COEF as int == m - fp) by (nonlinear_arith)
        requires
            m == (COEF as int) * ip + fp,
    ;
    assert(scaled_int + signed_frac == x);
    assert(fits_i64(scaled_int));
    assert(spec_parse(s) == Ok::<int, Seq<char>>(x));
}

} // verus!
