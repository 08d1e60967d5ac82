use ykdt::input::{parse_choice, parse_stroke_count, parse_unsigned, trim, NumberError};
use ykdt::strings::push_decimal;

#[test]
fn trim_removes_unicode_white_space() {
    assert_eq!(trim("  \t猫\u{3000}\n"), "猫");
    assert_eq!(trim(" a b "), "a b");
    assert_eq!(trim(" \n "), "");
    let once = trim("\u{a0} x \u{2003}");
    assert_eq!(trim(&once), once);
}

#[test]
fn numbers_are_read_like_str_parse() {
    assert!(matches!(parse_stroke_count(" 12\n"), Ok(12)));
    assert!(matches!(parse_stroke_count("+7"), Ok(7)));
    assert!(matches!(parse_stroke_count("255"), Ok(255)));
    assert!(matches!(parse_stroke_count("256"), Err(NumberError::PosOverflow)));
    assert!(matches!(parse_stroke_count("\n"), Err(NumberError::Empty)));
    assert!(matches!(parse_stroke_count("+"), Err(NumberError::InvalidDigit)));
    assert!(matches!(parse_stroke_count("-1"), Err(NumberError::InvalidDigit)));
    assert!(matches!(parse_stroke_count("1x"), Err(NumberError::InvalidDigit)));
    assert!(matches!(parse_stroke_count("300x"), Err(NumberError::PosOverflow)));
    assert!(matches!(parse_stroke_count("30x"), Err(NumberError::InvalidDigit)));
    assert!(matches!(parse_choice("3"), Ok(3)));
    assert!(matches!(parse_choice("99999999999999999999999"), Err(NumberError::PosOverflow)));
}

#[test]
fn number_errors_read_as_std_does() {
    for (line, kind) in [("", "Empty"), ("x", "InvalidDigit"), ("999", "PosOverflow")] {
        let ours = parse_stroke_count(line).unwrap_err();
        let std = line.trim().parse::<u8>().unwrap_err();
        assert_eq!(ours.message(), std.to_string(), "{kind}");
    }
}

#[test]
fn decimal_is_read_back() {
    for n in [0usize, 7, 10, 255, 1000, usize::MAX] {
        let mut s = String::new();
        push_decimal(&mut s, n);
        assert_eq!(s, n.to_string());
        assert!(matches!(parse_unsigned(&s, usize::MAX), Ok(v) if v == n));
    }
}
