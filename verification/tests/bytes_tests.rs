use rs_outdated::bytes::{bytes_eq, concat_bytes, dec_le, parse_decimal, split_lines, u64_to_decimal};

fn lines(texts: &[&str]) -> Vec<Vec<u8>> {
    texts.iter().map(|t| t.as_bytes().to_vec()).collect()
}

#[test]
fn split_lines_handles_terminators() {
    assert_eq!(split_lines(b"a\nb\r\nc"), lines(&["a", "b", "c"]));
    assert_eq!(split_lines(b"a\nb\n"), lines(&["a", "b"]));
    assert_eq!(split_lines(b""), Vec::<Vec<u8>>::new());
    assert_eq!(split_lines(b"\n"), lines(&[""]));
    assert_eq!(split_lines(b"a\n\nb"), lines(&["a", "", "b"]));
}

#[test]
fn bytes_eq_compares_contents() {
    assert!(bytes_eq(b"abc", b"abc"));
    assert!(!bytes_eq(b"abc", b"abd"));
    assert!(!bytes_eq(b"abc", b"ab"));
    assert!(bytes_eq(b"", b""));
}

#[test]
fn concat_bytes_joins() {
    assert_eq!(concat_bytes(b"ab", b"cd"), b"abcd".to_vec());
}

#[test]
fn parse_decimal_round_trips() {
    assert_eq!(parse_decimal(b"0"), Some(0));
    assert_eq!(parse_decimal(b"1234567890"), Some(1234567890));
    assert_eq!(parse_decimal(b"18446744073709551615"), Some(u64::MAX));
    assert_eq!(parse_decimal(b"18446744073709551616"), None);
    assert_eq!(parse_decimal(b""), None);
    assert_eq!(parse_decimal(b"12a"), None);
    assert_eq!(u64_to_decimal(907), b"907".to_vec());
}

#[test]
fn dec_le_orders_numerically() {
    assert!(dec_le(b"9", b"10"));
    assert!(!dec_le(b"10", b"9"));
    assert!(dec_le(b"007", b"7"));
    assert!(dec_le(b"7", b"007"));
    assert!(dec_le(b"99999999999999999999", b"100000000000000000000"));
}
