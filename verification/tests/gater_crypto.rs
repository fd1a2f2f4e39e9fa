use reckon_nifs::base58::{
    base58_decode, base58_encode, is_loaded, match_resource_pattern, Base58Error,
    BASE58_ALPHABET, BASE58_DECODE_TABLE,
};

#[test]
fn test_base58_alphabet() {
    assert_eq!(BASE58_ALPHABET.len(), 58);
    // Check first and last characters
    assert_eq!(BASE58_ALPHABET[0], b'1');
    assert_eq!(BASE58_ALPHABET[57], b'z');
}

#[test]
fn test_decode_table() {
    // '1' should map to 0
    assert_eq!(BASE58_DECODE_TABLE[b'1' as usize], 0);
    // 'z' should map to 57
    assert_eq!(BASE58_DECODE_TABLE[b'z' as usize], 57);
    // Invalid characters should be -1
    assert_eq!(BASE58_DECODE_TABLE[b'0' as usize], -1);
    assert_eq!(BASE58_DECODE_TABLE[b'O' as usize], -1);
    assert_eq!(BASE58_DECODE_TABLE[b'I' as usize], -1);
    assert_eq!(BASE58_DECODE_TABLE[b'l' as usize], -1);
}

#[test]
fn test_pattern_matching() {
    assert!(match_resource_pattern(
        b"esdb://realm/stream/orders",
        b"esdb://realm/stream/orders"
    ));
    assert!(match_resource_pattern(
        b"esdb://realm/stream/*",
        b"esdb://realm/stream/anything"
    ));
    assert!(match_resource_pattern(
        b"esdb://realm/stream/orders-*",
        b"esdb://realm/stream/orders-123"
    ));
    assert!(!match_resource_pattern(
        b"esdb://realm/stream/orders-*",
        b"esdb://realm/stream/invoices-1"
    ));
    assert!(!match_resource_pattern(
        b"esdb://realm/stream/orders",
        b"esdb://realm/stream/orders-1"
    ));
}

#[test]
fn pattern_star_alone_matches_everything() {
    assert!(match_resource_pattern(b"*", b""));
    assert!(match_resource_pattern(b"*", b"anything"));
    assert!(match_resource_pattern(b"", b""));
    assert!(!match_resource_pattern(b"", b"x"));
    // A star that is not last is literal.
    assert!(!match_resource_pattern(b"a*b", b"axxb"));
    assert!(match_resource_pattern(b"a*b", b"a*b"));
}

#[test]
fn loaded_reports_true() {
    assert!(is_loaded());
}

#[test]
fn encode_known_vectors() {
    assert_eq!(base58_encode(b""), b"".to_vec());
    assert_eq!(base58_encode(b"hello world"), b"StV1DL6CwTryKyV".to_vec());
    assert_eq!(base58_encode(&[0, 0, 1]), b"112".to_vec());
    assert_eq!(base58_encode(&[0]), b"1".to_vec());
    assert_eq!(base58_encode(&[57]), b"z".to_vec());
    assert_eq!(base58_encode(&[58]), b"21".to_vec());
}

#[test]
fn decode_known_vectors() {
    assert_eq!(base58_decode(b"StV1DL6CwTryKyV"), Ok(b"hello world".to_vec()));
    assert_eq!(base58_decode(b"112"), Ok(vec![0, 0, 1]));
    assert_eq!(base58_decode(b""), Ok(vec![]));
    assert_eq!(base58_decode(b"21"), Ok(vec![58]));
}

#[test]
fn decode_rejects_first_invalid_char() {
    assert_eq!(base58_decode(b"0abc"), Err(Base58Error::InvalidChar(b'0')));
    assert_eq!(base58_decode(b"abcOl"), Err(Base58Error::InvalidChar(b'O')));
    assert_eq!(base58_decode(b"zz!"), Err(Base58Error::InvalidChar(b'!')));
}

#[test]
fn base58_roundtrip_concrete() {
    let data: Vec<u8> = vec![0, 0, 0, 255, 1, 2, 3, 0, 200];
    let enc = base58_encode(&data);
    assert_eq!(base58_decode(&enc), Ok(data));
    let text = b"1112z9".to_vec();
    let dec = base58_decode(&text).unwrap();
    assert_eq!(base58_encode(&dec), text);
}
