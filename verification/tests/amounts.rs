use eth_agent::decimal::{parse_decimal, Decimal, MINOR_UNIT_DIGITS};

fn dec(negative: bool, mantissa: u128, scale: u32) -> Decimal {
    Decimal { negative, mantissa, scale }
}

#[test]
fn parse_integer_amount() {
    assert_eq!(parse_decimal("1"), Some(dec(false, 1, 0)));
    assert_eq!(parse_decimal("007"), Some(dec(false, 7, 0)));
    assert_eq!(parse_decimal("0"), Some(dec(false, 0, 0)));
}

#[test]
fn parse_fractional_amount() {
    assert_eq!(parse_decimal("1.5"), Some(dec(false, 15, 1)));
    assert_eq!(parse_decimal("0.001"), Some(dec(false, 1, 3)));
    assert_eq!(parse_decimal("12.34"), Some(dec(false, 1234, 2)));
}

#[test]
fn parse_negative_amount() {
    assert_eq!(parse_decimal("-1.5"), Some(dec(true, 15, 1)));
    assert_eq!(parse_decimal("-0"), Some(dec(true, 0, 0)));
}

#[test]
fn parse_rejects_malformed_tokens() {
    assert_eq!(parse_decimal(""), None);
    assert_eq!(parse_decimal("."), None);
    assert_eq!(parse_decimal("1."), None);
    assert_eq!(parse_decimal(".5"), None);
    assert_eq!(parse_decimal("1.2.3"), None);
    assert_eq!(parse_decimal("12a"), None);
    assert_eq!(parse_decimal("-"), None);
    assert_eq!(parse_decimal("1e3"), None);
    assert_eq!(parse_decimal(" 1"), None);
}

#[test]
fn parse_rejects_oversized_mantissa() {
    // forty nines exceed the 128-bit mantissa
    let big = "9".repeat(40);
    assert_eq!(parse_decimal(&big), None);
}

#[test]
fn minor_units_scale_up() {
    assert_eq!(MINOR_UNIT_DIGITS, 18);
    let one_and_a_half = dec(false, 15, 1);
    assert_eq!(
        one_and_a_half.to_minor_units(),
        Some(1_500_000_000_000_000_000u128)
    );
    let two = dec(false, 2, 0);
    assert_eq!(two.to_minor_units(), Some(2_000_000_000_000_000_000u128));
}

#[test]
fn minor_units_truncate_below_resolution() {
    // 1 / 10^19 truncates to zero minor units
    let tiny = dec(false, 1, 19);
    assert_eq!(tiny.to_minor_units(), Some(0));
    // 15 / 10^19 truncates to one minor unit
    let small = dec(false, 15, 19);
    assert_eq!(small.to_minor_units(), Some(1));
}

#[test]
fn minor_units_overflow_is_reported() {
    let huge = dec(false, u128::MAX, 0);
    assert_eq!(huge.to_minor_units(), None);
}

#[test]
fn minor_units_round_trip_exact_within_scale() {
    // scale, then inverse-scale: 1.5 -> minor units -> 18-digit decimal
    let amount = dec(false, 15, 1);
    let w = amount.to_minor_units().unwrap();
    let back = dec(false, w, 18);
    // the recovered decimal re-scales to the very same minor units
    assert_eq!(back.to_minor_units(), Some(w));
    // and it denotes the same value: 15 * 10^17 minor units
    assert_eq!(w, 15 * 10u128.pow(17));
}
