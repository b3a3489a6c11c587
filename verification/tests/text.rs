use iiod_rs::text::{decimal_i64, parse_i32, parse_u32, trim_chars, IntErrorKind};
use iiod_rs::transport::{socket_address, strip_line_ending};
use iiod_rs::IIOD_PORT;

fn chars(s: &str) -> Vec<char> {
    s.chars().collect()
}

#[test]
fn decimal_formatting() {
    assert_eq!(decimal_i64(0), "0");
    assert_eq!(decimal_i64(-19), "-19");
    assert_eq!(decimal_i64(30431), "30431");
    assert_eq!(decimal_i64(i64::MIN), i64::MIN.to_string());
    assert_eq!(decimal_i64(i64::MAX), i64::MAX.to_string());
}

#[test]
fn decimal_parse_roundtrip() {
    for v in [0i32, 1, -1, 42, i32::MAX, i32::MIN, 1000000] {
        let s = decimal_i64(v as i64);
        assert_eq!(parse_i32(&chars(&s)), Ok(v));
    }
    for v in [0u32, 9, u32::MAX] {
        let s = decimal_i64(v as i64);
        assert_eq!(parse_u32(&chars(&s)), Ok(v));
    }
}

#[test]
fn integer_error_kinds() {
    assert_eq!(parse_u32(&chars("")), Err(IntErrorKind::Empty));
    assert_eq!(parse_u32(&chars("-1")), Err(IntErrorKind::InvalidDigit));
    assert_eq!(parse_u32(&chars("+")), Err(IntErrorKind::InvalidDigit));
    assert_eq!(parse_u32(&chars("4294967296")), Err(IntErrorKind::PosOverflow));
    assert_eq!(parse_i32(&chars("-2147483649")), Err(IntErrorKind::NegOverflow));
    assert_eq!(parse_i32(&chars("99999999999x")), Err(IntErrorKind::PosOverflow));
    assert_eq!(parse_i32(&chars("9x9999999999")), Err(IntErrorKind::InvalidDigit));
}

#[test]
fn trimming_unicode_whitespace() {
    let t = trim_chars(&chars("\u{3000} \t ab c\u{a0}\n"));
    assert_eq!(t.into_iter().collect::<String>(), "ab c");
    assert!(trim_chars(&chars(" \u{2028} ")).is_empty());
}

#[test]
fn strip_line_endings() {
    assert_eq!(strip_line_ending("abc\r\n"), "abc");
    assert_eq!(strip_line_ending("abc\n"), "abc");
    assert_eq!(strip_line_ending("abc\r"), "abc");
    assert_eq!(strip_line_ending("abc"), "abc");
    assert_eq!(strip_line_ending("abc\n\n"), "abc\n");
    assert_eq!(strip_line_ending(""), "");
}

#[test]
fn socket_addresses() {
    assert_eq!(IIOD_PORT, 30431);
    assert_eq!(socket_address("192.168.2.1"), "192.168.2.1:30431");
    assert_eq!(socket_address("192.168.2.1:1234"), "192.168.2.1:1234");
    let once = socket_address("pluto.local");
    assert_eq!(socket_address(&once), once);
}
