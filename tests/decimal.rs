use memkv::decimal::{parse_decimal, push_decimal};

#[test]
fn parses_unsigned_decimals() {
    assert_eq!(parse_decimal(b"0", 10), Some(0));
    assert_eq!(parse_decimal(b"+7", 10), Some(7));
    assert_eq!(parse_decimal(b"007", 10), Some(7));
    assert_eq!(parse_decimal(b"65535", 65535), Some(65535));
    assert_eq!(parse_decimal(b"18446744073709551615", u64::MAX), Some(u64::MAX));
}

#[test]
fn rejects_what_is_not_a_bounded_decimal() {
    assert_eq!(parse_decimal(b"", 10), None);
    assert_eq!(parse_decimal(b"+", 10), None);
    assert_eq!(parse_decimal(b"-1", 10), None);
    assert_eq!(parse_decimal(b"1x", 10), None);
    assert_eq!(parse_decimal(b"65536", 65535), None);
    assert_eq!(parse_decimal(b"18446744073709551616", u64::MAX), None);
    assert_eq!(parse_decimal(b"99999999999999999999x", u64::MAX), None);
}

#[test]
fn formats_decimals() {
    let mut out = b"n=".to_vec();
    push_decimal(&mut out, 0);
    out.push(b' ');
    push_decimal(&mut out, 1090);
    out.push(b' ');
    push_decimal(&mut out, u64::MAX);
    assert_eq!(out, b"n=0 1090 18446744073709551615".to_vec());
}
