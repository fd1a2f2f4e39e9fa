use ed25519_dalek::{Signer, SigningKey};
use reckon_nifs::crypto::{
    base64_decode_urlsafe, base64_encode_urlsafe, hash_sha256, hash_sha256_base64,
    secure_compare, verify_ed25519,
};

fn from_hex(s: &str) -> Vec<u8> {
    (0..s.len())
        .step_by(2)
        .map(|i| u8::from_str_radix(&s[i..i + 2], 16).unwrap())
        .collect()
}

#[test]
fn sha256_known_vector() {
    assert_eq!(
        hash_sha256(b"abc"),
        from_hex("ba7816bf8f01cfea414140de5dae2223b00361a396177a9cb410ff61f20015ad")
    );
    assert_eq!(
        hash_sha256(b""),
        from_hex("e3b0c44298fc1c149afbf4c8996fb92427ae41e4649b934ca495991b7852b855")
    );
}

#[test]
fn sha256_base64_known_vector() {
    assert_eq!(
        hash_sha256_base64(b"abc"),
        b"ungWv48Bz-pBQUDeXa4iI7ADYaOWF3qctBD_YfIAFa0".to_vec()
    );
}

#[test]
fn base64_urlsafe_encodes_without_padding() {
    assert_eq!(base64_encode_urlsafe(b""), b"".to_vec());
    assert_eq!(base64_encode_urlsafe(b"hello"), b"aGVsbG8".to_vec());
    assert_eq!(base64_encode_urlsafe(&[0xfb, 0xff]), b"-_8".to_vec());
    assert_eq!(base64_encode_urlsafe(b"abc"), b"YWJj".to_vec());
}

#[test]
fn base64_urlsafe_decodes() {
    assert_eq!(base64_decode_urlsafe(b"aGVsbG8"), Some(b"hello".to_vec()));
    assert_eq!(base64_decode_urlsafe(b"-_8"), Some(vec![0xfb, 0xff]));
    assert_eq!(base64_decode_urlsafe(b""), Some(vec![]));
}

#[test]
fn base64_urlsafe_rejects_bad_input() {
    assert_eq!(base64_decode_urlsafe(b"aGVsbG8="), None);
    assert_eq!(base64_decode_urlsafe(b"a"), None);
    assert_eq!(base64_decode_urlsafe(b"aGVsbG9"), None);
    assert_eq!(base64_decode_urlsafe(b"+/8"), None);
}

#[test]
fn base64_roundtrip_concrete() {
    let data: Vec<u8> = (0u8..=255).collect();
    let enc = base64_encode_urlsafe(&data);
    assert_eq!(base64_decode_urlsafe(&enc), Some(data));
}

#[test]
fn secure_compare_cases() {
    assert!(secure_compare(b"", b""));
    assert!(secure_compare(b"token", b"token"));
    assert!(!secure_compare(b"token", b"tokeN"));
    assert!(!secure_compare(b"token", b"tokens"));
}

#[test]
fn ed25519_rfc8032_vector() {
    let pk = from_hex("d75a980182b10ab7d54bfed3c964073a0ee172f3daa62325af021a68f707511a");
    let sig = from_hex(
        "e5564300c360ac729086e2cc806e828a84877f1eb8e5d974d873e065224901555fb8821590a33bacc61e39701cf9b46bd25bf5f0595bbe24655141438e7a100b",
    );
    assert!(verify_ed25519(b"", &sig, &pk));
    assert!(!verify_ed25519(b"x", &sig, &pk));
}

#[test]
fn ed25519_signed_message_verifies() {
    let key = SigningKey::from_bytes(&[7u8; 32]);
    let msg = b"capability token";
    let sig = key.sign(msg).to_bytes().to_vec();
    let pk = key.verifying_key().to_bytes().to_vec();
    assert!(verify_ed25519(msg, &sig, &pk));
    let mut bad = sig.clone();
    bad[0] ^= 1;
    assert!(!verify_ed25519(msg, &bad, &pk));
    assert!(!verify_ed25519(b"other message", &sig, &pk));
}

#[test]
fn ed25519_rejects_wrong_lengths() {
    let key = SigningKey::from_bytes(&[9u8; 32]);
    let msg = b"m";
    let sig = key.sign(msg).to_bytes().to_vec();
    let pk = key.verifying_key().to_bytes().to_vec();
    assert!(!verify_ed25519(msg, &sig[..63], &pk));
    assert!(!verify_ed25519(msg, &sig, &pk[..31]));
    let mut long_pk = pk.clone();
    long_pk.push(0);
    assert!(!verify_ed25519(msg, &sig, &long_pk));
}
