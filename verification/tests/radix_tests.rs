use bit64::radix::{parse_number, to_radix_string};

#[test]
fn parse_number_hex() {
    assert_eq!(parse_number("0xFF", 16), Some(255));
    assert_eq!(parse_number("0XFF", 16), Some(255));
    assert_eq!(parse_number("0xff", 16), Some(255));
    assert_eq!(parse_number("FF", 16), Some(255));
    assert_eq!(parse_number("ff", 16), Some(255));
    assert_eq!(parse_number("DEADBEEF", 16), Some(0xDEAD_BEEF));
    assert_eq!(parse_number("G", 16), None);
    assert_eq!(parse_number("0xFG", 16), None);
}

#[test]
fn parse_number_empty_any_base() {
    assert_eq!(parse_number("", 2), None);
    assert_eq!(parse_number("", 8), None);
    assert_eq!(parse_number("", 10), None);
    assert_eq!(parse_number("", 16), None);
    // all-whitespace trims to empty
    assert_eq!(parse_number("   ", 10), None);
}

#[test]
fn parse_number_decimal() {
    assert_eq!(parse_number("0", 10), Some(0));
    assert_eq!(parse_number("1025", 10), Some(1025));
    assert_eq!(parse_number(" 42 ", 10), Some(42));
    // trimming removes Unicode whitespace, not only ASCII
    assert_eq!(parse_number("\u{2000}7\u{a0}", 10), Some(7));
    assert_eq!(parse_number("\u{3000}15\u{2028}", 10), Some(15));
    assert_eq!(parse_number("18446744073709551615", 10), Some(u64::MAX));
    assert_eq!(parse_number("12A", 10), None);
    assert_eq!(parse_number("-5", 10), None);
}

#[test]
fn parse_number_octal_binary() {
    assert_eq!(parse_number("0o777", 8), Some(511));
    assert_eq!(parse_number("777", 8), Some(511));
    assert_eq!(parse_number("8", 8), None);
    assert_eq!(parse_number("0b1011", 2), Some(11));
    assert_eq!(parse_number("1011", 2), Some(11));
    assert_eq!(parse_number("102", 2), None);
}

#[test]
fn parse_number_overflow_falls_back_to_zero() {
    // one past the 64-bit range: valid digits, so the defensive
    // fallback yields zero rather than an error
    assert_eq!(parse_number("18446744073709551616", 10), Some(0));
    assert_eq!(parse_number("10000000000000000", 16), Some(0));
    // a bare prefix leaves no digits, which also falls back to zero
    assert_eq!(parse_number("0x", 16), Some(0));
}

#[test]
fn to_radix_string_formats() {
    assert_eq!(to_radix_string(0, 16), "0");
    assert_eq!(to_radix_string(255, 16), "FF");
    assert_eq!(to_radix_string(255, 10), "255");
    assert_eq!(to_radix_string(255, 8), "377");
    assert_eq!(to_radix_string(255, 2), "11111111");
    assert_eq!(to_radix_string(u64::MAX, 16), "FFFFFFFFFFFFFFFF");
    assert_eq!(to_radix_string(u64::MAX, 10), "18446744073709551615");
}

#[test]
fn radix_round_trips() {
    let samples: [u64; 7] = [0, 1, 9, 255, 1024, 123456789, u64::MAX];
    for &v in samples.iter() {
        assert_eq!(parse_number(&to_radix_string(v, 2), 2), Some(v));
        assert_eq!(parse_number(&to_radix_string(v, 8), 8), Some(v));
        assert_eq!(parse_number(&to_radix_string(v, 10), 10), Some(v));
        assert_eq!(parse_number(&to_radix_string(v, 16), 16), Some(v));
    }
}
