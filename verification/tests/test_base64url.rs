use idp::token::base64url::{decode_bytes, encode_bytes};

#[test]
fn base64url_known_vectors() {
    assert_eq!(encode_bytes(b""), b"".to_vec());
    assert_eq!(encode_bytes(b"f"), b"Zg".to_vec());
    assert_eq!(encode_bytes(b"fo"), b"Zm8".to_vec());
    assert_eq!(encode_bytes(b"foo"), b"Zm9v".to_vec());
    assert_eq!(encode_bytes(b"foob"), b"Zm9vYg".to_vec());
    assert_eq!(encode_bytes(b"fooba"), b"Zm9vYmE".to_vec());
    assert_eq!(encode_bytes(b"foobar"), b"Zm9vYmFy".to_vec());
}

#[test]
fn base64url_uses_url_safe_symbols() {
    assert_eq!(encode_bytes(&[0xfb, 0xff]), b"-_8".to_vec());
    assert_eq!(encode_bytes(&[0xff, 0xff, 0xff]), b"____".to_vec());
    assert_eq!(encode_bytes(&[0xfb, 0xef, 0xbe]), b"----".to_vec());
    assert_eq!(decode_bytes(b"-_8"), Some(vec![0xfb, 0xff]));
}

#[test]
fn base64url_header_segment() {
    assert_eq!(
        encode_bytes(b"{\"typ\":\"JWT\",\"alg\":\"HS256\"}"),
        b"eyJ0eXAiOiJKV1QiLCJhbGciOiJIUzI1NiJ9".to_vec()
    );
}

#[test]
fn base64url_decodes_what_it_encodes() {
    let mut data: Vec<u8> = Vec::new();
    for n in 0..=300u32 {
        assert_eq!(decode_bytes(&encode_bytes(&data)), Some(data.clone()));
        data.push((n * 7 + 3) as u8);
    }
}

#[test]
fn base64url_known_decodings() {
    assert_eq!(decode_bytes(b""), Some(vec![]));
    assert_eq!(decode_bytes(b"Zg"), Some(b"f".to_vec()));
    assert_eq!(decode_bytes(b"Zm8"), Some(b"fo".to_vec()));
    assert_eq!(decode_bytes(b"Zm9vYmFy"), Some(b"foobar".to_vec()));
}

#[test]
fn base64url_refuses_what_is_no_encoding() {
    // one character alone encodes nothing
    assert_eq!(decode_bytes(b"Z"), None);
    assert_eq!(decode_bytes(b"Zm9vY"), None);
    // padding and the symbols of the standard alphabet are not accepted
    assert_eq!(decode_bytes(b"Zg=="), None);
    assert_eq!(decode_bytes(b"+_8"), None);
    assert_eq!(decode_bytes(b"-/8"), None);
    assert_eq!(decode_bytes(b"Zm 9"), None);
    assert_eq!(decode_bytes(b"Zm9v\n"), None);
    // bits that no byte holds must be zero
    assert_eq!(decode_bytes(b"Zh"), None);
    assert_eq!(decode_bytes(b"Zm9"), None);
    assert_eq!(decode_bytes(&[0xc3, 0xa9]), None);
}
