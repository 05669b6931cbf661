use fixnum::{ArithmeticError, FixedPoint, RoundMode};

fn fp(s: &str) -> FixedPoint {
    FixedPoint::from_str(s).unwrap()
}

#[test]
fn adds_tenths_exactly() {
    let a = fp("0.1");
    let b = fp("0.2");
    assert_eq!(a.cadd(b).unwrap(), fp("0.3"));
}

#[test]
fn rmul_smallest_step_floor_and_ceil() {
    let x = fp("0.000000001");
    assert_eq!(x.rmul(x, RoundMode::Floor).unwrap(), FixedPoint::zero());
    assert_eq!(x.rmul(x, RoundMode::Ceil).unwrap(), x);
}

#[test]
fn rmul_identity_one() {
    for s in ["0.1", "-2.5", "9223372036.854775807", "-9223372036.854775808", "0.0"] {
        let a = fp(s);
        assert_eq!(a.rmul(FixedPoint::one(), RoundMode::Floor).unwrap(), a);
        assert_eq!(a.rmul(FixedPoint::one(), RoundMode::Ceil).unwrap(), a);
    }
}

#[test]
fn rdiv_identity_one() {
    for s in ["0.1", "-2.5", "9223372036.854775807", "-9223372036.854775808", "0.0"] {
        let a = fp(s);
        assert_eq!(a.rdiv(FixedPoint::one(), RoundMode::Floor).unwrap(), a);
        assert_eq!(a.rdiv(FixedPoint::one(), RoundMode::Ceil).unwrap(), a);
    }
}

#[test]
fn rmul_rounding_bound_example() {
    // 1.000000001 * 1.000000001 = 1.000000002000000001 exactly.
    let a = fp("1.000000001");
    let lo = a.rmul(a, RoundMode::Floor).unwrap();
    let hi = a.rmul(a, RoundMode::Ceil).unwrap();
    assert_eq!(lo, fp("1.000000002"));
    assert_eq!(hi, fp("1.000000003"));
}

#[test]
fn rdiv_thirds() {
    let one = fp("1");
    let three = fp("3");
    assert_eq!(one.rdiv(three, RoundMode::Floor).unwrap(), fp("0.333333333"));
    assert_eq!(one.rdiv(three, RoundMode::Ceil).unwrap(), fp("0.333333334"));
    let minus_one = fp("-1");
    assert_eq!(minus_one.rdiv(three, RoundMode::Floor).unwrap(), fp("-0.333333334"));
    assert_eq!(minus_one.rdiv(three, RoundMode::Ceil).unwrap(), fp("-0.333333333"));
}

#[test]
fn rdiv_by_plain_integer() {
    assert_eq!(fp("1").rdiv_int(3, RoundMode::Floor).unwrap(), fp("0.333333333"));
    assert_eq!(fp("1").rdiv_int(-3, RoundMode::Ceil).unwrap(), fp("-0.333333333"));
    assert_eq!(fp("-1").rdiv_int(3, RoundMode::Floor).unwrap(), fp("-0.333333334"));
    assert_eq!(
        FixedPoint::min_value().rdiv_int(-1, RoundMode::Floor),
        Err(ArithmeticError::Overflow)
    );
    assert_eq!(
        fp("1").rdiv_int(0, RoundMode::Floor),
        Err(ArithmeticError::DivisionByZero)
    );
}

#[test]
fn rdiv_integer_by_fixed_point() {
    assert_eq!(
        FixedPoint::rdiv_of_int(1, fp("3"), RoundMode::Floor).unwrap(),
        fp("0.333333333")
    );
    assert_eq!(
        FixedPoint::rdiv_of_int(10_000_000_000, fp("3"), RoundMode::Floor),
        Err(ArithmeticError::Overflow)
    );
}

#[test]
fn recip_of_three() {
    assert_eq!(fp("3").recip(RoundMode::Floor).unwrap(), fp("0.333333333"));
    assert_eq!(fp("3").recip(RoundMode::Ceil).unwrap(), fp("0.333333334"));
    assert_eq!(
        FixedPoint::zero().recip(RoundMode::Floor),
        Err(ArithmeticError::DivisionByZero)
    );
}

#[test]
fn overflow_boundaries() {
    assert_eq!(
        FixedPoint::max_value().cadd(FixedPoint::epsilon()),
        Err(ArithmeticError::Overflow)
    );
    assert_eq!(FixedPoint::min_value().cneg(), Err(ArithmeticError::Overflow));
    for s in ["0", "1.5", "-9223372036.854775808"] {
        assert_eq!(
            fp(s).rdiv(FixedPoint::zero(), RoundMode::Floor),
            Err(ArithmeticError::DivisionByZero)
        );
        assert_eq!(
            fp(s).rdiv(FixedPoint::zero(), RoundMode::Ceil),
            Err(ArithmeticError::DivisionByZero)
        );
    }
    assert_eq!(
        fp("-0.000000001").rsqrt(RoundMode::Floor),
        Err(ArithmeticError::DomainViolation)
    );
    assert_eq!(
        FixedPoint::min_value().rsqrt(RoundMode::Ceil),
        Err(ArithmeticError::DomainViolation)
    );
}

#[test]
fn rmul_overflow() {
    let big = fp("9223372036");
    assert_eq!(big.rmul(big, RoundMode::Floor), Err(ArithmeticError::Overflow));
}

#[test]
fn integral_rounding() {
    let a = fp("8273.519");
    assert_eq!(a.integral(RoundMode::Floor), 8273);
    assert_eq!(a.integral(RoundMode::Ceil), 8274);
    let b = fp("-8273.519");
    assert_eq!(b.integral(RoundMode::Floor), -8274);
    assert_eq!(b.integral(RoundMode::Ceil), -8273);
    assert_eq!(fp("0.5").integral(RoundMode::Floor), 0);
    assert_eq!(fp("0.5").integral(RoundMode::Ceil), 1);
    assert_eq!(fp("42").integral(RoundMode::Floor), 42);
    assert_eq!(fp("42").integral(RoundMode::Ceil), 42);
}

#[test]
fn half_sum_near_max_does_not_overflow() {
    let a = FixedPoint::max_value();
    let b = FixedPoint::from_bits(i64::MAX - 2);
    let mean = FixedPoint::half_sum(a, b, RoundMode::Floor);
    assert_eq!(mean, FixedPoint::from_bits(i64::MAX - 1));
}

#[test]
fn half_sum_rounds_and_mixes_signs() {
    assert_eq!(
        FixedPoint::half_sum(FixedPoint::from_bits(1), FixedPoint::from_bits(2), RoundMode::Floor),
        FixedPoint::from_bits(1)
    );
    assert_eq!(
        FixedPoint::half_sum(FixedPoint::from_bits(1), FixedPoint::from_bits(2), RoundMode::Ceil),
        FixedPoint::from_bits(2)
    );
    assert_eq!(
        FixedPoint::half_sum(fp("1"), fp("-2"), RoundMode::Floor),
        fp("-0.5")
    );
    let lo = FixedPoint::min_value();
    assert_eq!(
        FixedPoint::half_sum(lo, FixedPoint::from_bits(i64::MIN + 2), RoundMode::Floor),
        FixedPoint::from_bits(i64::MIN + 1)
    );
}

#[test]
fn saturating_operations_clamp() {
    let max = FixedPoint::max_value();
    let min = FixedPoint::min_value();
    let eps = FixedPoint::epsilon();
    assert_eq!(max.saturating_add(eps), max);
    assert_eq!(min.saturating_sub(eps), min);
    assert_eq!(max.saturating_mul(2), max);
    assert_eq!(max.saturating_mul(-2), min);
    assert_eq!(fp("1").saturating_add(fp("2")), fp("3"));
    assert_eq!(fp("1").saturating_mul(3), fp("3"));
}

#[test]
fn checked_multiplication_by_integer() {
    assert_eq!(fp("2.5").cmul(4).unwrap(), fp("10"));
    assert_eq!(fp("-2.5").cmul(4).unwrap(), fp("-10"));
    assert_eq!(FixedPoint::max_value().cmul(2), Err(ArithmeticError::Overflow));
}

#[test]
fn checked_subtraction_and_negation() {
    assert_eq!(fp("0.3").csub(fp("0.1")).unwrap(), fp("0.2"));
    assert_eq!(FixedPoint::min_value().csub(fp("0.000000001")), Err(ArithmeticError::Overflow));
    assert_eq!(fp("1.5").cneg().unwrap(), fp("-1.5"));
}

#[test]
fn absolute_value() {
    assert_eq!(fp("-1.5").abs().unwrap(), fp("1.5"));
    assert_eq!(fp("1.5").abs().unwrap(), fp("1.5"));
    assert_eq!(FixedPoint::min_value().abs(), Err(ArithmeticError::Overflow));
}

#[test]
fn square_roots() {
    assert_eq!(fp("4").rsqrt(RoundMode::Floor).unwrap(), fp("2"));
    assert_eq!(fp("4").rsqrt(RoundMode::Ceil).unwrap(), fp("2"));
    assert_eq!(fp("2").rsqrt(RoundMode::Floor).unwrap(), fp("1.414213562"));
    assert_eq!(fp("2").rsqrt(RoundMode::Ceil).unwrap(), fp("1.414213563"));
    assert_eq!(FixedPoint::zero().rsqrt(RoundMode::Ceil).unwrap(), FixedPoint::zero());
}

#[test]
fn next_power_of_ten_steps() {
    assert_eq!(
        FixedPoint::from_bits(5).next_power_of_ten().unwrap(),
        FixedPoint::from_bits(10)
    );
    assert_eq!(
        FixedPoint::from_bits(10).next_power_of_ten().unwrap(),
        FixedPoint::from_bits(10)
    );
    assert_eq!(
        FixedPoint::zero().next_power_of_ten().unwrap(),
        FixedPoint::from_bits(1)
    );
    assert_eq!(
        FixedPoint::from_bits(-5).next_power_of_ten().unwrap(),
        FixedPoint::from_bits(-10)
    );
    assert_eq!(
        FixedPoint::from_bits(1_000_000_000_000_000_000)
            .next_power_of_ten()
            .unwrap(),
        FixedPoint::from_bits(1_000_000_000_000_000_000)
    );
    assert_eq!(
        FixedPoint::from_bits(1_000_000_000_000_000_001).next_power_of_ten(),
        Err(ArithmeticError::Overflow)
    );
    assert_eq!(
        FixedPoint::max_value().next_power_of_ten(),
        Err(ArithmeticError::Overflow)
    );
    assert_eq!(
        FixedPoint::min_value().next_power_of_ten(),
        Err(ArithmeticError::Overflow)
    );
}

#[test]
fn arithmetic_error_strings() {
    assert_eq!(ArithmeticError::Overflow.as_str(), "overflow");
    assert_eq!(ArithmeticError::DivisionByZero.as_str(), "division by zero");
    assert_eq!(ArithmeticError::DomainViolation.as_str(), "domain violation");
}

#[test]
fn bits_round_trip() {
    let a = FixedPoint::from_bits(123_456_789);
    assert_eq!(*a.as_bits(), 123_456_789);
    assert_eq!(a.into_bits(), 123_456_789);
}
