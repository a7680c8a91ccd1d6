use molview::number::{parse_decimal, unsigned_at_most, Decimal};

fn chars(s: &str) -> Vec<char> {
    s.chars().collect()
}

#[test]
fn decimals() {
    assert_eq!(parse_decimal(&chars("2.0000")), Some(Decimal::new(20000, 4)));
    assert_eq!(parse_decimal(&chars("-1.25")), Some(Decimal::new(-125, 2)));
    assert_eq!(parse_decimal(&chars("+7")), Some(Decimal::new(7, 0)));
    assert_eq!(parse_decimal(&chars(".5")), Some(Decimal::new(5, 1)));
    assert_eq!(parse_decimal(&chars("5.")), Some(Decimal::new(5, 0)));
    assert_eq!(
        parse_decimal(&chars("123456789.123456789")),
        Some(Decimal::new(123456789123456789, 9))
    );
}

#[test]
fn not_decimals() {
    assert_eq!(parse_decimal(&chars("")), None);
    assert_eq!(parse_decimal(&chars("-")), None);
    assert_eq!(parse_decimal(&chars(".")), None);
    assert_eq!(parse_decimal(&chars("1.2.3")), None);
    assert_eq!(parse_decimal(&chars("1e5")), None);
    assert_eq!(parse_decimal(&chars("--1")), None);
    assert_eq!(parse_decimal(&chars("1234567890.123456789")), None);
}

#[test]
fn unsigned_bounds() {
    assert_eq!(unsigned_at_most(&chars("255"), 255), Some(255));
    assert_eq!(unsigned_at_most(&chars("256"), 255), None);
    assert_eq!(unsigned_at_most(&chars("000042"), 255), Some(42));
    assert_eq!(unsigned_at_most(&chars("+"), 255), None);
    assert_eq!(unsigned_at_most(&chars("-1"), 255), None);
    assert_eq!(unsigned_at_most(&chars("99999999999999999999999"), usize::MAX), None);
}
