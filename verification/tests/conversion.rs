use fixnum::{FixedPoint, Precision};

fn fp(s: &str) -> FixedPoint {
    FixedPoint::from_str(s).unwrap()
}

#[test]
fn parses_plain_and_signed_literals() {
    assert_eq!(fp("1"), FixedPoint::from_bits(1_000_000_000));
    assert_eq!(fp("-1"), FixedPoint::from_bits(-1_000_000_000));
    assert_eq!(fp("+0.5"), FixedPoint::from_bits(500_000_000));
    assert_eq!(fp("-0.5"), FixedPoint::from_bits(-500_000_000));
    assert_eq!(fp("0.000000001"), FixedPoint::epsilon());
    assert_eq!(fp("9223372036.854775807"), FixedPoint::max_value());
    assert_eq!(fp("-9223372036.854775808"), FixedPoint::min_value());
}

#[test]
fn parses_with_surrounding_whitespace() {
    assert_eq!(fp("  1.5 \t\n"), FixedPoint::from_bits(1_500_000_000));
}

#[test]
fn parse_errors_carry_fixed_reasons() {
    let cases = [
        ("", "can't parse integral part of the str"),
        ("abc", "can't parse integral part of the str"),
        ("9223372036854775808", "can't parse integral part of the str"),
        ("10000000000", "too big integral part"),
        (".5", "can't parse integral part"),
        ("x.5", "can't parse integral part"),
        ("1.2.3", "can't parse fractional part: must contain digits only"),
        ("1.-2", "can't parse fractional part: must contain digits only"),
        ("0.1234567890", "requested precision is too high"),
        ("1.", "can't parse fractional part"),
        ("-9223372036854775808.0", "too big integral"),
        ("9223372036.9", "too big number"),
    ];
    for (input, reason) in cases {
        let err = FixedPoint::from_str(input).unwrap_err();
        assert_eq!(err.as_str(), reason, "input: {:?}", input);
    }
}

#[test]
fn formats_with_trailing_zeros_stripped() {
    assert_eq!(fp("1.5").to_string(), "1.5");
    assert_eq!(fp("1.500000000").to_string(), "1.5");
    assert_eq!(fp("5").to_string(), "5.0");
    assert_eq!(fp("0").to_string(), "0.0");
    assert_eq!(fp("-0.5").to_string(), "-0.5");
    assert_eq!(fp("0.000000001").to_string(), "0.000000001");
    assert_eq!(fp("-8273.519").to_string(), "-8273.519");
    assert_eq!(fp("10.05").to_string(), "10.05");
    assert_eq!(fp("1000000.5").to_string(), "1000000.5");
    assert_eq!(fp("100.000000001").to_string(), "100.000000001");
}

#[test]
fn formats_the_extreme_values() {
    assert_eq!(FixedPoint::max_value().to_string(), "9223372036.854775807");
    assert_eq!(FixedPoint::min_value().to_string(), "-9223372036.854775808");
}

#[test]
fn format_parse_round_trip() {
    let samples = [
        "0.0",
        "1.5",
        "-1.5",
        "0.000000001",
        "-0.000000001",
        "42.0",
        "9223372036.854775807",
        "-9223372036.854775808",
        "8273.519",
    ];
    for s in samples {
        let v = fp(s);
        let rendered = v.to_string();
        assert_eq!(FixedPoint::from_str(&rendered).unwrap(), v, "value: {}", s);
    }
}

#[test]
fn from_decimal_scales_mantissa() {
    assert_eq!(
        FixedPoint::from_decimal(5, -3).unwrap(),
        FixedPoint::from_bits(5_000_000)
    );
    assert_eq!(FixedPoint::from_decimal(25, -1).unwrap(), fp("2.5"));
    assert_eq!(FixedPoint::from_decimal(3, 0).unwrap(), fp("3"));
    assert_eq!(
        FixedPoint::from_decimal(-1, -9).unwrap(),
        FixedPoint::from_bits(-1)
    );
}

#[test]
fn from_decimal_rejects_bad_inputs() {
    assert_eq!(
        FixedPoint::from_decimal(1, 11).unwrap_err().as_str(),
        "unsupported exponent"
    );
    assert_eq!(
        FixedPoint::from_decimal(1, -10).unwrap_err().as_str(),
        "unsupported exponent"
    );
    assert_eq!(
        FixedPoint::from_decimal(i64::MAX, 0).unwrap_err().as_str(),
        "too big mantissa"
    );
    // A zero mantissa scales to zero whatever the exponent does to the scale.
    assert_eq!(FixedPoint::from_decimal(0, 10).unwrap(), FixedPoint::zero());
}

#[test]
fn integer_conversions_scale_and_check() {
    assert_eq!(FixedPoint::try_from_i64(3).unwrap(), fp("3"));
    assert_eq!(FixedPoint::try_from_i64(-3).unwrap(), fp("-3"));
    assert_eq!(
        FixedPoint::try_from_i64(9_223_372_037).unwrap_err().as_str(),
        "too big number"
    );
    assert_eq!(FixedPoint::try_from_i128(9_223_372_036).unwrap(), fp("9223372036"));
    assert_eq!(
        FixedPoint::try_from_i128(-10_000_000_000i128).unwrap_err().as_str(),
        "too big number"
    );
    assert_eq!(FixedPoint::try_from_u128(2).unwrap(), fp("2"));
    assert_eq!(
        FixedPoint::try_from_u128(1u128 << 64).unwrap_err().as_str(),
        "too big number"
    );
}

#[test]
fn precision_is_nine_digits() {
    assert_eq!(FixedPoint::precision(), 9);
    assert_eq!(fixnum::PRECISION, 9);
    assert_eq!(fixnum::COEF, 1_000_000_000);
}
