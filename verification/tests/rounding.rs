use slam::rounding::round_to_integer;

fn rounds_to(x: f64) -> i64 {
    round_to_integer(x.to_bits())
}

#[test]
fn rounding_of_small_numbers() {
    assert_eq!(rounds_to(0.0), 0);
    assert_eq!(rounds_to(-0.0), 0);
    assert_eq!(rounds_to(0.4), 0);
    assert_eq!(rounds_to(0.49999999999999994), 0);
    assert_eq!(rounds_to(0.5), 1);
    assert_eq!(rounds_to(-0.5), -1);
    assert_eq!(rounds_to(-0.49999999999999994), 0);
    assert_eq!(rounds_to(1.0), 1);
    assert_eq!(rounds_to(1.5), 2);
    assert_eq!(rounds_to(2.5), 3);
    assert_eq!(rounds_to(-2.5), -3);
    assert_eq!(rounds_to(27.6), 28);
    assert_eq!(rounds_to(28.499999), 28);
    assert_eq!(rounds_to(-1079.5), -1080);
    assert_eq!(rounds_to(f64::MIN_POSITIVE), 0);
    assert_eq!(rounds_to(5e-324), 0);
    assert_eq!(rounds_to(-5e-324), 0);
}

#[test]
fn rounding_of_large_numbers() {
    assert_eq!(rounds_to(2147483647.4), 2147483647);
    assert_eq!(rounds_to(2147483647.5), 2147483648);
    assert_eq!(rounds_to(-2147483648.5), -2147483649);
    assert_eq!(rounds_to(4503599627370495.5), 4503599627370496);
    assert_eq!(rounds_to(9007199254740992.0), 9007199254740992);
    assert_eq!(rounds_to(9007199254740994.0), 9007199254740994);
    assert_eq!(rounds_to(1e18), 1_000_000_000_000_000_000);
    assert_eq!(rounds_to(9223372036854774784.0), 9223372036854774784);
    assert_eq!(rounds_to(9223372036854775808.0), i64::MAX);
    assert_eq!(rounds_to(-9223372036854775808.0), i64::MIN);
    assert_eq!(rounds_to(-9223372036854777856.0), i64::MIN);
    assert_eq!(rounds_to(1e300), i64::MAX);
    assert_eq!(rounds_to(-1e300), i64::MIN);
    assert_eq!(rounds_to(f64::MAX), i64::MAX);
}

#[test]
fn rounding_of_what_is_no_finite_number() {
    assert_eq!(rounds_to(f64::INFINITY), i64::MAX);
    assert_eq!(rounds_to(f64::NEG_INFINITY), i64::MIN);
    assert_eq!(rounds_to(f64::NAN), i64::MAX);
    assert_eq!(round_to_integer(0xFFF8_0000_0000_0001), i64::MAX);
    assert_eq!(round_to_integer(0x7FF0_0000_0000_0001), i64::MAX);
}

#[test]
fn rounding_agrees_with_the_standard_library() {
    let mut x = -1000.0f64;
    while x < 1000.0 {
        assert_eq!(rounds_to(x), x.round() as i64);
        x += 0.125;
    }
    for shift in 0..62 {
        let base = (1u64 << shift) as f64;
        for x in [base, base + 0.5, base - 0.5, base * 1.25, -base, -base - 0.5] {
            assert_eq!(rounds_to(x), x.round() as i64);
        }
    }
}
