use fragments_to_sam::text::{bytes_eq, parse_u64, push_decimal, split_bytes, split_lines, TAB};

#[test]
fn split_simple_fields() {
    let fields = split_bytes(b"a\tbb\tccc", TAB);
    assert_eq!(fields.len(), 3);
    assert_eq!(fields[0], b"a".to_vec());
    assert_eq!(fields[1], b"bb".to_vec());
    assert_eq!(fields[2], b"ccc".to_vec());
}

#[test]
fn split_empty_input_is_one_empty_field() {
    let fields = split_bytes(b"", TAB);
    assert_eq!(fields.len(), 1);
    assert!(fields[0].is_empty());
}

#[test]
fn split_keeps_empty_fields() {
    let fields = split_bytes(b"\ta\t", TAB);
    assert_eq!(fields.len(), 3);
    assert!(fields[0].is_empty());
    assert_eq!(fields[1], b"a".to_vec());
    assert!(fields[2].is_empty());
}

#[test]
fn lines_drop_final_newline_only() {
    let lines = split_lines(b"a\n\nb\n");
    assert_eq!(lines.len(), 3);
    assert_eq!(lines[0], b"a".to_vec());
    assert!(lines[1].is_empty());
    assert_eq!(lines[2], b"b".to_vec());
}

#[test]
fn lines_without_final_newline() {
    let lines = split_lines(b"a\nb");
    assert_eq!(lines.len(), 2);
    assert_eq!(lines[1], b"b".to_vec());
}

#[test]
fn lines_strip_carriage_returns() {
    let lines = split_lines(b"a\r\nb\r\n");
    assert_eq!(lines[0], b"a".to_vec());
    assert_eq!(lines[1], b"b".to_vec());
}

#[test]
fn parse_u64_plain_and_leading_zeros() {
    assert_eq!(parse_u64(b"0"), Some(0));
    assert_eq!(parse_u64(b"007"), Some(7));
    assert_eq!(parse_u64(b"248956422"), Some(248956422));
}

#[test]
fn parse_u64_limits() {
    assert_eq!(parse_u64(b"18446744073709551615"), Some(u64::MAX));
    assert_eq!(parse_u64(b"18446744073709551616"), None);
}

#[test]
fn parse_u64_rejects_non_numerals() {
    assert_eq!(parse_u64(b""), None);
    assert_eq!(parse_u64(b"12a"), None);
    assert_eq!(parse_u64(b"-5"), None);
    assert_eq!(parse_u64(b" 5"), None);
}

#[test]
fn decimal_formatting() {
    let mut out: Vec<u8> = Vec::new();
    push_decimal(&mut out, 0);
    assert_eq!(out, b"0".to_vec());
    let mut out: Vec<u8> = Vec::new();
    push_decimal(&mut out, 101);
    assert_eq!(out, b"101".to_vec());
    let mut out: Vec<u8> = Vec::new();
    push_decimal(&mut out, u64::MAX);
    assert_eq!(out, b"18446744073709551615".to_vec());
}

#[test]
fn byte_equality() {
    assert!(bytes_eq(b"chr1", b"chr1"));
    assert!(!bytes_eq(b"chr1", b"chr2"));
    assert!(!bytes_eq(b"chr1", b"chr10"));
    assert!(bytes_eq(b"", b""));
}
