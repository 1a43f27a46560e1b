use fatty::numbers::{parse_i32, parse_u64, parse_usize, IntErrorKind};

#[test]
fn parses_plain_and_signed_numbers() {
    assert_eq!(parse_u64("0"), Ok(0));
    assert_eq!(parse_u64("+42"), Ok(42));
    assert_eq!(parse_u64("18446744073709551615"), Ok(u64::MAX));
    assert_eq!(parse_usize("007"), Ok(7));
    assert_eq!(parse_i32("-2147483648"), Ok(i32::MIN));
    assert_eq!(parse_i32("2147483647"), Ok(i32::MAX));
    assert_eq!(parse_i32("-17"), Ok(-17));
}

#[test]
fn reports_each_kind_of_error() {
    assert_eq!(parse_u64(""), Err(IntErrorKind::Empty));
    assert_eq!(parse_u64("+"), Err(IntErrorKind::InvalidDigit));
    assert_eq!(parse_u64("-1"), Err(IntErrorKind::InvalidDigit));
    assert_eq!(parse_u64("12a"), Err(IntErrorKind::InvalidDigit));
    assert_eq!(parse_u64(" 1"), Err(IntErrorKind::InvalidDigit));
    assert_eq!(parse_u64("18446744073709551616"), Err(IntErrorKind::PosOverflow));
    assert_eq!(parse_i32("2147483648"), Err(IntErrorKind::PosOverflow));
    assert_eq!(parse_i32("-2147483649"), Err(IntErrorKind::NegOverflow));
    assert_eq!(parse_i32("-"), Err(IntErrorKind::InvalidDigit));
}

#[test]
fn agrees_with_std_parse() {
    for s in ["0", "1", "+1", "-1", "", "+", "-", "99999999999", "4294967296", "12x", "-0", "+-3"] {
        assert_eq!(parse_i32(s).ok(), s.parse::<i32>().ok(), "{s}");
        assert_eq!(parse_u64(s).ok(), s.parse::<u64>().ok(), "{s}");
        assert_eq!(parse_usize(s).ok(), s.parse::<usize>().ok(), "{s}");
    }
}

#[test]
fn overflow_is_found_before_a_later_bad_digit() {
    assert_eq!(parse_u64("99999999999999999999x"), Err(IntErrorKind::PosOverflow));
    assert_eq!(parse_u64("9x9999999999999999999"), Err(IntErrorKind::InvalidDigit));
}
