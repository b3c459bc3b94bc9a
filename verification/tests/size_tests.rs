use bit64::size::{data_size, parse_data_size};

#[test]
fn test_parse_data_size() {
    assert_eq!(parse_data_size("7B"), Some(7));
    assert_eq!(parse_data_size("1K"), Some(1024));
    assert_eq!(parse_data_size("2K"), Some(2048));

    assert_eq!(parse_data_size("1K 512B"), Some(1536));
    assert_eq!(parse_data_size("1M 12B"), Some(1024 * 1024 + 12));
    assert_eq!(
        parse_data_size("1G 1K 1B"),
        Some(1024 * 1024 * 1024 + 1024 + 1)
    );

    assert_eq!(parse_data_size("1K1B"), Some(1025));
    assert_eq!(parse_data_size("1M1K"), Some(1024 * 1024 + 1024));
    assert_eq!(
        parse_data_size("1G1M1K1B"),
        Some(1024 * 1024 * 1024 + 1024 * 1024 + 1024 + 1)
    );

    assert_eq!(parse_data_size(""), None);
    assert_eq!(parse_data_size("invalid"), None);
    assert_eq!(parse_data_size("123X"), None);
    assert_eq!(parse_data_size("1KB"), None);
}

#[test]
fn test_data_size() {
    assert_eq!(data_size(7), "7B");
    assert_eq!(data_size(1024), "1K");
    assert_eq!(data_size(2048), "2K");
    assert_eq!(data_size(1536), "1K 512B");
    assert_eq!(data_size(1024 * 1024), "1M");
    assert_eq!(data_size(1024 * 1024 + 12), "1M 12B");
    assert_eq!(data_size(1024 * 1024 * 1024 + 1024 + 1), "1G 1K 1B");
}

#[test]
fn data_size_zero() {
    assert_eq!(data_size(0), "0 B");
}

#[test]
fn data_size_all_units() {
    let tb: u64 = 1024 * 1024 * 1024 * 1024;
    assert_eq!(data_size(tb), "1T");
    assert_eq!(data_size(3 * tb + 5), "3T 5B");
    assert_eq!(
        data_size(2 * tb + 3 * 1024 * 1024 * 1024 + 4 * 1024 * 1024 + 5 * 1024 + 6),
        "2T 3G 4M 5K 6B"
    );
    assert_eq!(
        data_size(u64::MAX),
        "16777215T 1023G 1023M 1023K 1023B"
    );
}

#[test]
fn parse_data_size_case_and_whitespace() {
    assert_eq!(parse_data_size("1k"), Some(1024));
    assert_eq!(parse_data_size("1k 512b"), Some(1536));
    assert_eq!(parse_data_size("  1K \t 512B  "), Some(1536));
    // whitespace is insignificant even inside a digit run
    assert_eq!(parse_data_size("1 2K"), Some(12 * 1024));
}

#[test]
fn parse_data_size_whitespace_only() {
    // no token is consumed, so the input is rejected like the empty string
    assert_eq!(parse_data_size(" "), None);
    assert_eq!(parse_data_size("   \t \n "), None);
}

#[test]
fn parse_data_size_missing_digits() {
    assert_eq!(parse_data_size("K"), None);
    assert_eq!(parse_data_size("B"), None);
    assert_eq!(parse_data_size(" T"), None);
}

#[test]
fn parse_data_size_trailing_digits() {
    assert_eq!(parse_data_size("123"), None);
    assert_eq!(parse_data_size("1K 23"), None);
}

#[test]
fn parse_data_size_overflow() {
    // 16777216T is exactly 2^64: one past the largest representable count
    assert_eq!(parse_data_size("16777216T"), None);
    assert_eq!(
        parse_data_size("16777215T"),
        Some(16777215 * 1024 * 1024 * 1024 * 1024)
    );
    assert_eq!(parse_data_size("18446744073709551615B"), Some(u64::MAX));
    assert_eq!(parse_data_size("18446744073709551616B"), None);
    assert_eq!(parse_data_size("99999999999999999999999B"), None);
}

#[test]
fn format_parse_round_trip() {
    let samples: [u64; 12] = [
        0,
        1,
        7,
        1023,
        1024,
        1536,
        1024 * 1024 + 12,
        1024 * 1024 * 1024 + 1024 + 1,
        123456789,
        1024 * 1024 * 1024 * 1024,
        u64::MAX - 1,
        u64::MAX,
    ];
    for &b in samples.iter() {
        assert_eq!(parse_data_size(&data_size(b)), Some(b));
    }
}
