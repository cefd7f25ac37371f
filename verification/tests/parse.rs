use weekly_velocity::parse::parse_u8_or_zero;

#[test]
fn parses_plain_numbers() {
    assert_eq!(parse_u8_or_zero(b"0"), 0);
    assert_eq!(parse_u8_or_zero(b"7"), 7);
    assert_eq!(parse_u8_or_zero(b"42"), 42);
    assert_eq!(parse_u8_or_zero(b"255"), 255);
}

#[test]
fn parses_leading_zeros() {
    assert_eq!(parse_u8_or_zero(b"007"), 7);
    assert_eq!(parse_u8_or_zero(b"000"), 0);
}

#[test]
fn parses_leading_plus_sign() {
    assert_eq!(parse_u8_or_zero(b"+123"), 123);
    assert_eq!(parse_u8_or_zero(b"+0"), 0);
}

#[test]
fn empty_input_defaults_to_zero() {
    assert_eq!(parse_u8_or_zero(b""), 0);
    assert_eq!(parse_u8_or_zero(b"+"), 0);
}

#[test]
fn non_numeric_input_defaults_to_zero() {
    assert_eq!(parse_u8_or_zero(b"abc"), 0);
    assert_eq!(parse_u8_or_zero(b"12x"), 0);
    assert_eq!(parse_u8_or_zero(b"x12"), 0);
    assert_eq!(parse_u8_or_zero(b"1 2"), 0);
    assert_eq!(parse_u8_or_zero(b"-1"), 0);
    assert_eq!(parse_u8_or_zero(b"2.5"), 0);
    assert_eq!(parse_u8_or_zero(b"++1"), 0);
}

#[test]
fn out_of_range_input_defaults_to_zero() {
    assert_eq!(parse_u8_or_zero(b"256"), 0);
    assert_eq!(parse_u8_or_zero(b"999"), 0);
    assert_eq!(parse_u8_or_zero(b"12345"), 0);
    assert_eq!(parse_u8_or_zero(b"99999999999999999999"), 0);
}
