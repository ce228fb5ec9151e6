use hitbtc::decimal::Decimal;
use hitbtc::decimal::ParseError;
use hitbtc::decimal::parse;

fn dec(mantissa: u64, exponent: i8) -> Decimal {
    Decimal { mantissa, exponent }
}

#[test]
fn parse_integer_literals() {
    assert_eq!(parse("0", 0), Ok(dec(0, 0)));
    assert_eq!(parse("123", 0), Ok(dec(123, 0)));
    assert_eq!(parse("007", 0), Ok(dec(7, 0)));
    // a non-negative exponent admits no fractional digits
    assert_eq!(parse("123", 2), Ok(dec(123, 2)));
    assert_eq!(parse("1.5", 0), Err(ParseError::MalformedDecimal));
}

#[test]
fn parse_fractional_literals() {
    assert_eq!(parse("100.00", -2), Ok(dec(10000, -2)));
    assert_eq!(parse("100.25", -2), Ok(dec(10025, -2)));
    assert_eq!(parse("1.5", -1), Ok(dec(15, -1)));
    // fewer fractional digits than allowed scale up
    assert_eq!(parse("1.5", -2), Ok(dec(150, -2)));
    assert_eq!(parse("7", -3), Ok(dec(7000, -3)));
    assert_eq!(parse("0.001", -3), Ok(dec(1, -3)));
}

#[test]
fn parse_rejects_malformed() {
    assert_eq!(parse("", -2), Err(ParseError::MalformedDecimal));
    assert_eq!(parse(".", -2), Err(ParseError::MalformedDecimal));
    assert_eq!(parse(".5", -2), Err(ParseError::MalformedDecimal));
    assert_eq!(parse("5.", -2), Err(ParseError::MalformedDecimal));
    assert_eq!(parse("1.2.3", -2), Err(ParseError::MalformedDecimal));
    assert_eq!(parse("-1", -2), Err(ParseError::MalformedDecimal));
    assert_eq!(parse("+1", -2), Err(ParseError::MalformedDecimal));
    assert_eq!(parse("1e3", -2), Err(ParseError::MalformedDecimal));
    assert_eq!(parse(" 1", -2), Err(ParseError::MalformedDecimal));
    assert_eq!(parse("abc", -2), Err(ParseError::MalformedDecimal));
}

#[test]
fn parse_rejects_excess_fraction() {
    assert_eq!(parse("1.234", -2), Err(ParseError::MalformedDecimal));
    assert_eq!(parse("1.23", -2), Ok(dec(123, -2)));
}

#[test]
fn parse_overflow() {
    // u64::MAX fits exactly; one more does not
    assert_eq!(parse("18446744073709551615", 0), Ok(dec(u64::MAX, 0)));
    assert_eq!(parse("18446744073709551616", 0), Err(ParseError::Overflow));
    // scaling up to a deep precision overflows too
    assert_eq!(parse("1", -30), Err(ParseError::Overflow));
}

#[test]
fn render_exact() {
    assert_eq!(dec(10025, -2).render(), "100.25");
    assert_eq!(dec(10000, -2).render(), "100.00");
    assert_eq!(dec(15, -1).render(), "1.5");
    assert_eq!(dec(0, -2).render(), "0.00");
    assert_eq!(dec(123, 0).render(), "123");
    assert_eq!(dec(5, -3).render(), "0.005");
    assert_eq!(dec(0, 0).render(), "0");
}

#[test]
fn precision_round_trip() {
    // format(parse(s, e)) is numerically equal to s: parsing the rendered
    // text at the same exponent gives the same value back
    for (s, e) in [
        ("100.25", -2i8),
        ("1.5", -2i8),
        ("0", -4i8),
        ("42", 0i8),
        ("0.001", -3i8),
        ("987654.321", -3i8),
    ] {
        let v = parse(s, e).unwrap();
        let text = v.render();
        assert_eq!(parse(&text, e), Ok(v), "round trip of {s:?} via {text:?}");
    }
}

#[test]
fn zero_and_order() {
    assert!(dec(0, -2).is_zero());
    assert!(!dec(1, -2).is_zero());
    assert!(dec(100, -2).lt(&dec(101, -2)));
    assert!(!dec(101, -2).lt(&dec(100, -2)));
    assert!(!dec(100, -2).lt(&dec(100, -2)));
}
