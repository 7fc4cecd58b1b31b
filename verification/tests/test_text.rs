use idp::token::claims::{parse_claims, write_claims};
use idp::token::text::{push_decimal, push_quoted, read_int, read_string};

fn quoted(s: &[u8]) -> Vec<u8> {
    let mut out = Vec::new();
    push_quoted(&mut out, s);
    out
}

fn decimal(n: i64) -> String {
    let mut out = Vec::new();
    push_decimal(&mut out, n);
    String::from_utf8(out).unwrap()
}

#[test]
fn quoted_strings() {
    assert_eq!(quoted(b""), b"\"\"".to_vec());
    assert_eq!(quoted(b"abc"), b"\"abc\"".to_vec());
    assert_eq!(quoted(b"a\"b"), b"\"a\\\"b\"".to_vec());
    assert_eq!(quoted(b"a\\b"), b"\"a\\\\b\"".to_vec());
    assert_eq!(quoted(b"\x08\x09\x0a\x0c\x0d"), b"\"\\b\\t\\n\\f\\r\"".to_vec());
    assert_eq!(quoted(b"\x00\x0b\x1f"), b"\"\\u0000\\u000b\\u001f\"".to_vec());
    assert_eq!(quoted(b"\x1a\x10"), b"\"\\u001a\\u0010\"".to_vec());
    assert_eq!(quoted(b" /\x7f"), b"\" /\x7f\"".to_vec());
    assert_eq!(quoted("é".as_bytes()), "\"é\"".as_bytes().to_vec());
    assert_eq!(quoted(&[0xff, 0x80]), vec![b'"', 0xff, 0x80, b'"']);
}

#[test]
fn quoting_appends() {
    let mut out = b"x:".to_vec();
    push_quoted(&mut out, b"y");
    push_decimal(&mut out, -12);
    assert_eq!(out, b"x:\"y\"-12".to_vec());
}

#[test]
fn quoted_strings_are_what_a_json_writer_gives() {
    for code in 0u32..0x300 {
        let text = format!("a{}z", char::from_u32(code).unwrap());
        assert_eq!(
            String::from_utf8(quoted(text.as_bytes())).unwrap(),
            serde_json::to_string(&text).unwrap()
        );
    }
}

#[test]
fn strings_read_back() {
    assert_eq!(read_string(b"\"\"", 0), Some((b"".to_vec(), 2)));
    assert_eq!(read_string(b"\"abc\"rest", 0), Some((b"abc".to_vec(), 5)));
    assert_eq!(read_string(b"xx\"abc\"", 2), Some((b"abc".to_vec(), 7)));
    assert_eq!(read_string(b"\"a\\\"b\\\\\"", 0), Some((b"a\"b\\".to_vec(), 8)));
    assert_eq!(
        read_string(b"\"\\b\\t\\n\\f\\r\\u0000\\u001f\\u000b\"", 0),
        Some((b"\x08\x09\x0a\x0c\x0d\x00\x1f\x0b".to_vec(), 30))
    );
    assert_eq!(read_string(&[b'"', 0xff, b'"'], 0), Some((vec![0xff], 3)));
    for data in [&b""[..], b"\x00\x01\"\\\x7f\x80\xff/ u0041", b"\\u0041"] {
        let text = quoted(data);
        assert_eq!(read_string(&text, 0), Some((data.to_vec(), text.len())));
    }
}

#[test]
fn strings_that_are_not_read() {
    for text in [
        &b""[..],
        b"abc",
        b"\"abc",
        b"\"",
        b"\"a\nb\"",
        b"\"a\x00b\"",
        b"\"a\\\"",
        b"\"\\/\"",
        b"\"\\a\"",
        b"\"\\u0041\"",
        b"\"\\u000A\"",
        b"\"\\u000a\"",
        b"\"\\u0008\"",
        b"\"\\u0009\"",
        b"\"\\u000c\"",
        b"\"\\u000d\"",
        b"\"\\u0020\"",
        b"\"\\u00\"",
        b"\"\\u001",
        b"\"\\u001g\"",
        b"\"\\U0001\"",
        b"'abc'",
    ] {
        assert_eq!(read_string(text, 0), None, "{:?}", text);
    }
    assert_eq!(read_string(b"\"abc\"", 1), None);
    assert_eq!(read_string(b"\"abc\"", 5), None);
}

#[test]
fn decimal_numbers() {
    assert_eq!(decimal(0), "0");
    assert_eq!(decimal(7), "7");
    assert_eq!(decimal(10), "10");
    assert_eq!(decimal(-1), "-1");
    assert_eq!(decimal(1700000000), "1700000000");
    assert_eq!(decimal(i64::MAX), "9223372036854775807");
    assert_eq!(decimal(i64::MIN), "-9223372036854775808");
    assert_eq!(decimal(-9223372036854775807), "-9223372036854775807");
    for n in [0i64, 9, 10, 99, 100, 101, 12345678901234, -5, -10, -100000] {
        assert_eq!(decimal(n), n.to_string());
    }
}

#[test]
fn numbers_read_back() {
    assert_eq!(read_int(b"0", 0), Some((0, 1)));
    assert_eq!(read_int(b"0,", 0), Some((0, 1)));
    assert_eq!(read_int(b"42}", 0), Some((42, 2)));
    assert_eq!(read_int(b"x-42}", 1), Some((-42, 4)));
    assert_eq!(read_int(b"9223372036854775807", 0), Some((i64::MAX, 19)));
    assert_eq!(read_int(b"-9223372036854775808", 0), Some((i64::MIN, 20)));
    assert_eq!(read_int(b"-9223372036854775807", 0), Some((-9223372036854775807, 20)));
    assert_eq!(read_int(b"12.5", 0), Some((12, 2)));
    assert_eq!(read_int(b"12e3", 0), Some((12, 2)));
    assert_eq!(read_int(b"7-", 0), Some((7, 1)));
    for n in [0i64, 1, -1, 10, -10, 1234567890123456789, i64::MAX, i64::MIN, i64::MIN + 1] {
        let text = format!("{};", decimal(n));
        assert_eq!(read_int(text.as_bytes(), 0), Some((n, text.len() - 1)));
    }
}

#[test]
fn numbers_that_are_not_read() {
    for text in [
        &b""[..],
        b"-",
        b"+1",
        b" 1",
        b"x",
        b"-x",
        b"--1",
        b"00",
        b"01",
        b"-0",
        b"-01",
        b"9223372036854775808",
        b"-9223372036854775809",
        b"92233720368547758070",
        b"18446744073709551616",
        b"99999999999999999999999999999999999999999999",
        b"-99999999999999999999999999999999999999999999",
    ] {
        assert_eq!(read_int(text, 0), None, "{:?}", text);
    }
    assert_eq!(read_int(b"12", 2), None);
}

#[test]
fn claims_text_reads_back() {
    let text = b"{\"iss\":\"i\",\"aud\":\"a\",\"sub\":\"s\",\"iat\":-3,\"exp\":4}";
    let claims = parse_claims(text).unwrap();
    assert_eq!(claims.issuer(), "i");
    assert_eq!(claims.audience(), "a");
    assert_eq!(claims.subject(), "s");
    assert_eq!(claims.issued_at(), -3);
    assert_eq!(claims.expires_at(), 4);
    assert_eq!(write_claims(&claims), text.to_vec());
    // the issuer may be empty, audience and subject may not
    assert!(parse_claims(b"{\"iss\":\"\",\"aud\":\"a\",\"sub\":\"s\",\"iat\":-3,\"exp\":4}").is_some());
    assert!(parse_claims(b"{\"iss\":\"i\",\"aud\":\"\",\"sub\":\"s\",\"iat\":-3,\"exp\":4}").is_none());
    assert!(parse_claims(b"{\"iss\":\"i\",\"aud\":\"a\",\"sub\":\"\",\"iat\":-3,\"exp\":4}").is_none());
    assert!(parse_claims(b"{\"iss\":\"i\",\"aud\":\"a\",\"sub\":\"s\",\"iat\":4,\"exp\":4}").is_none());
    assert!(parse_claims(b"{\"iss\":\"i\",\"aud\":\"a\",\"sub\":\"s\",\"iat\":-3,\"exp\":4}}").is_none());
    assert!(parse_claims(b"{\"iss\":\"i\",\"aud\":\"a\",\"sub\":\"s\",\"iat\":-3,\"exp\":4").is_none());
    assert!(parse_claims(b"{\"iss\":\"i\",\"aud\":\"a\",\"sub\":\"s\",\"iat\":-3,\"exp\":4.0}").is_none());
    assert!(parse_claims(b"").is_none());
}
