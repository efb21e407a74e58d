use flowlang::urlcodec::decode;
use flowlang::urlcodec::encode;

#[test]
fn encode_passes_unreserved_through() {
    assert_eq!(encode("Hello-World_1.2~"), "Hello-World_1.2~");
}

#[test]
fn encode_escapes_other_bytes() {
    assert_eq!(encode("a b"), "a%20b");
    assert_eq!(encode("100%"), "100%25");
    assert_eq!(encode("a/b?c=d"), "a%2Fb%3Fc%3Dd");
    // Multi-byte UTF-8 input is escaped byte by byte.
    assert_eq!(encode("é"), "%C3%A9");
}

#[test]
fn decode_reverses_encoding() {
    assert_eq!(decode("a%20b").unwrap(), "a b");
    assert_eq!(decode("100%25").unwrap(), "100%");
    assert_eq!(decode("%C3%A9").unwrap(), "é");
    assert_eq!(decode("plain").unwrap(), "plain");
}

#[test]
fn decode_maps_plus_to_space() {
    assert_eq!(decode("a+b").unwrap(), "a b");
}

#[test]
fn decode_rejects_malformed_escapes() {
    assert!(decode("%").is_err());
    assert!(decode("%4").is_err());
    assert!(decode("%GG").is_err());
    // A percent escape that decodes to an invalid UTF-8 byte sequence.
    assert!(decode("%FF").is_err());
}

#[test]
fn round_trip_via_encode_then_decode() {
    for s in ["", "abc", "two words", "sym/bols?&=", "ünïcodé"] {
        assert_eq!(decode(&encode(s)).unwrap(), s);
    }
}
