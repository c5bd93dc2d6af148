use udp_chat::codec::{char_to_digit, digit_to_char_str, parse_u32_decimal, u32_to_decimal};

#[test]
fn prints_decimal_values() {
    assert_eq!(u32_to_decimal(0), "0");
    assert_eq!(u32_to_decimal(7), "7");
    assert_eq!(u32_to_decimal(10), "10");
    assert_eq!(u32_to_decimal(42069), "42069");
    assert_eq!(u32_to_decimal(u32::MAX), "4294967295");
}

#[test]
fn parses_digit_strings() {
    assert_eq!(parse_u32_decimal("0"), Some(0));
    assert_eq!(parse_u32_decimal("7"), Some(7));
    assert_eq!(parse_u32_decimal("007"), Some(7));
    assert_eq!(parse_u32_decimal("42069"), Some(42069));
    assert_eq!(parse_u32_decimal("4294967295"), Some(u32::MAX));
}

#[test]
fn rejects_what_is_not_a_plain_number() {
    assert_eq!(parse_u32_decimal(""), None);
    assert_eq!(parse_u32_decimal("abc"), None);
    assert_eq!(parse_u32_decimal("12a"), None);
    assert_eq!(parse_u32_decimal("a12"), None);
    assert_eq!(parse_u32_decimal(" 7"), None);
    assert_eq!(parse_u32_decimal("-7"), None);
    assert_eq!(parse_u32_decimal("+7"), None);
    assert_eq!(parse_u32_decimal("7.0"), None);
}

#[test]
fn rejects_overflowing_values() {
    assert_eq!(parse_u32_decimal("4294967296"), None);
    assert_eq!(parse_u32_decimal("99999999999"), None);
    assert_eq!(parse_u32_decimal("004294967296"), None);
}

#[test]
fn printing_then_parsing_round_trips() {
    for n in [0u32, 1, 9, 10, 99, 100, 1023, 42069, 4294967294, u32::MAX] {
        assert_eq!(parse_u32_decimal(&u32_to_decimal(n)), Some(n));
    }
}

#[test]
fn digit_helpers_agree() {
    for d in 0u32..10 {
        let s = digit_to_char_str(d);
        assert_eq!(s.len(), 1);
        let c = s.chars().next().unwrap();
        assert_eq!(char_to_digit(c), Some(d));
    }
    assert_eq!(char_to_digit(':'), None);
    assert_eq!(char_to_digit('a'), None);
}
