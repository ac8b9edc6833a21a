//! Tests for the fixed-point temperature parser.

use weather_stats::parse::parse_temperature;

#[test]
fn parses_negative_with_fraction() {
    assert_eq!(parse_temperature(b"-3.2"), Some(-32));
}

#[test]
fn parses_two_digits_with_fraction() {
    assert_eq!(parse_temperature(b"94.7"), Some(947));
}

#[test]
fn parses_single_digit_with_fraction() {
    assert_eq!(parse_temperature(b"5.0"), Some(50));
}

#[test]
fn parses_bare_digits() {
    assert_eq!(parse_temperature(b"5"), Some(50));
    assert_eq!(parse_temperature(b"12"), Some(120));
    assert_eq!(parse_temperature(b"-7"), Some(-70));
}

#[test]
fn parses_negative_two_digits() {
    assert_eq!(parse_temperature(b"-99.9"), Some(-999));
    assert_eq!(parse_temperature(b"-12"), Some(-120));
}

#[test]
fn parses_fraction_below_one() {
    assert_eq!(parse_temperature(b"-0.5"), Some(-5));
    assert_eq!(parse_temperature(b"0.0"), Some(0));
}

#[test]
fn rejects_empty_and_bare_sign() {
    assert_eq!(parse_temperature(b""), None);
    assert_eq!(parse_temperature(b"-"), None);
}

#[test]
fn rejects_malformed_tokens() {
    assert_eq!(parse_temperature(b"1x.2"), None);
    assert_eq!(parse_temperature(b"12x"), None);
    assert_eq!(parse_temperature(b"1.23"), None);
    assert_eq!(parse_temperature(b"123"), None);
    assert_eq!(parse_temperature(b"1."), None);
    assert_eq!(parse_temperature(b"+5.0"), None);
    assert_eq!(parse_temperature(b" 5.0"), None);
    assert_eq!(parse_temperature(b"5.0 "), None);
    assert_eq!(parse_temperature(b"--3.2"), None);
    assert_eq!(parse_temperature(b"1.x"), None);
}
