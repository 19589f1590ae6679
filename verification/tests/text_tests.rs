use armature_webhooks::ids::uuid_string;
use armature_webhooks::text::{
    ascii_string, constant_time_eq, contains_bytes, ends_with, hex_encode, parse_i64,
    push_decimal, push_hex_number, push_signed_decimal, split_bytes, starts_with,
    trim_whitespace,
};

#[test]
fn hex_encoding() {
    assert_eq!(hex_encode(&[0x00, 0xab, 0x10, 0xff]), b"00ab10ff".to_vec());
    assert_eq!(hex_encode(&[]), Vec::<u8>::new());
    let mut out = Vec::new();
    push_hex_number(255, &mut out);
    assert_eq!(out, b"ff".to_vec());
    let mut out = Vec::new();
    push_hex_number(0, &mut out);
    assert_eq!(out, b"0".to_vec());
}

#[test]
fn decimal_encoding_and_parsing() {
    let mut out = Vec::new();
    push_decimal(0, &mut out);
    push_decimal(1234567890, &mut out);
    assert_eq!(out, b"01234567890".to_vec());
    for v in [0i64, 7, -7, 1_700_000_000, i64::MAX, i64::MIN] {
        let mut out = Vec::new();
        push_signed_decimal(v, &mut out);
        assert_eq!(String::from_utf8(out.clone()).unwrap(), v.to_string());
        assert_eq!(parse_i64(&out), Some(v));
    }
    assert_eq!(parse_i64(b"9223372036854775808"), None);
    assert_eq!(parse_i64(b"-9223372036854775809"), None);
    assert_eq!(parse_i64(b"-0"), Some(0));
    assert_eq!(parse_i64(b"007"), Some(7));
    assert_eq!(parse_i64(b""), None);
    assert_eq!(parse_i64(b"-"), None);
    assert_eq!(parse_i64(b"1a"), None);
    assert_eq!(parse_i64(b" 1"), None);
    assert_eq!(parse_i64(b"+5"), Some(5));
    assert_eq!(parse_i64(b"+"), None);
    assert_eq!(parse_i64(b"+-1"), None);
    assert_eq!(parse_i64(b"+9223372036854775807"), Some(i64::MAX));
    assert_eq!(parse_i64(b"+9223372036854775808"), None);
    for text in ["+5", "+", "+-1", "-+1", "-0", "007", "", "-", "1a", "+9223372036854775808"] {
        assert_eq!(parse_i64(text.as_bytes()), text.parse::<i64>().ok(), "{:?}", text);
    }
}

#[test]
fn byte_predicates() {
    assert!(starts_with(b"abc", b"ab"));
    assert!(!starts_with(b"a", b"ab"));
    assert!(ends_with(b"abc", b"bc"));
    assert!(!ends_with(b"abc", b"ab"));
    assert!(contains_bytes(b"abcdef", b"cde"));
    assert!(contains_bytes(b"abc", b""));
    assert!(!contains_bytes(b"abc", b"abcd"));
    assert!(!contains_bytes(b"abcabd", b"abe"));
    assert!(contains_bytes(b"abcabd", b"abd"));
    assert!(constant_time_eq(b"same", b"same"));
    assert!(!constant_time_eq(b"same", b"sane"));
    assert!(!constant_time_eq(b"same", b"sam"));
}

#[test]
fn splitting_and_trimming() {
    assert_eq!(split_bytes(b"a,,b", b','), vec![b"a".to_vec(), Vec::new(), b"b".to_vec()]);
    assert_eq!(split_bytes(b"", b','), vec![Vec::<u8>::new()]);
    assert_eq!(split_bytes(b"x,", b','), vec![b"x".to_vec(), Vec::new()]);
    assert_eq!(trim_whitespace(b" \t a b \r\n"), b"a b".to_vec());
    assert_eq!(trim_whitespace(b"   "), Vec::<u8>::new());
}

#[test]
fn strings_from_bytes() {
    assert_eq!(ascii_string(b"hi there".to_vec()), "hi there");
    let bytes: Vec<u8> = vec![0x12, 0x34, 0x56, 0x78, 0x9a, 0xbc, 0xde, 0xf0, 0, 1, 2, 3, 4, 5, 6, 7];
    assert_eq!(uuid_string(&bytes), "12345678-9abc-def0-0001-020304050607");
}
