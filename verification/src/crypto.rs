//! Signature verification, SHA-256 digests, URL-safe Base64 and
//! constant-time comparison for capability tokens.
use vstd::prelude::*;

verus! {

#[verifier::external_type_specification]
#[verifier::external_body]
pub struct ExVerifyingKey(ed25519_dalek::VerifyingKey);

/// Whether `ed25519_dalek::VerifyingKey::from_bytes` accepts these 32 bytes
/// as a compressed Edwards point.
pub uninterp spec fn ed25519_key_decodes(public_key: Seq<u8>) -> bool;

/// Whether `ed25519_dalek` accepts `signature` (64 bytes) on `message` under
/// the public key with these 32 bytes (its non-strict `verify`).
pub uninterp spec fn ed25519_accepts(public_key: Seq<u8>, message: Seq<u8>, signature: Seq<u8>) -> bool;

/// The SHA-256 digest of `data`, as computed by `sha2`.
pub uninterp spec fn sha256_of(data: Seq<u8>) -> Seq<u8>;

/// A decoded Ed25519 public key together with the bytes it came from.
pub struct Ed25519PublicKey {
    key: ed25519_dalek::VerifyingKey,
    bytes: Vec<u8>,
}

impl Ed25519PublicKey {
    /// The 32 bytes this key was decoded from.
    pub closed spec fn encoded(&self) -> Seq<u8> {
        self.bytes@
    }
}

/// `ed25519_dalek::VerifyingKey::from_bytes` on a 32-byte slice.  Assumed to
/// succeed exactly when the bytes decode as a point (a fact of the bytes
/// alone); the key keeps a copy of the bytes.
#[verifier::external_body]
fn decode_verifying_key(public_key: &[u8]) -> (r: Option<Ed25519PublicKey>)
    requires
        public_key@.len() == 32,
    ensures
        r is Some <==> ed25519_key_decodes(public_key@),
        r matches Some(k) ==> k.encoded() == public_key@,
{
    let bytes: [u8; 32] = public_key.try_into().unwrap();
    match ed25519_dalek::VerifyingKey::from_bytes(&bytes) {
        Ok(key) => Some(Ed25519PublicKey { key, bytes: public_key.to_vec() }),
        Err(_) => None,
    }
}

/// `ed25519_dalek::Verifier::verify` of a 64-byte signature (read with
/// `Signature::from_bytes`, which accepts any 64 bytes).  Assumed to return
/// whether the library accepts the signature on the message under the key,
/// a fact of the key's bytes, the message and the signature alone.
#[verifier::external_body]
fn verify_with_key(key: &Ed25519PublicKey, message: &[u8], signature: &[u8]) -> (r: bool)
    requires
        signature@.len() == 64,
    ensures
        r == ed25519_accepts(key.encoded(), message@, signature@),
{
    let sig_bytes: [u8; 64] = signature.try_into().unwrap();
    let sig = ed25519_dalek::Signature::from_bytes(&sig_bytes);
    ed25519_dalek::Verifier::verify(&key.key, message, &sig).is_ok()
}

/// `sha2::Sha256`: a fresh hasher fed `data` and finalized.  Assumed to
/// return the 32-byte SHA-256 digest, a function of `data` alone.
#[verifier::external_body]
fn sha256_digest(data: &[u8]) -> (r: Vec<u8>)
    ensures
        r@ == sha256_of(data@),
        r@.len() == 32,
{
    let mut hasher = <sha2::Sha256 as sha2::Digest>::new();
    sha2::Digest::update(&mut hasher, data);
    sha2::Digest::finalize(hasher).to_vec()
}

/// The URL-safe Base64 symbol (`A-Z a-z 0-9 - _`) of a 6-bit value.
pub open spec fn b64url_symbol(v: int) -> u8 {
    if v < 26 {
        (65 + v) as u8
    } else if v < 52 {
        (97 + v - 26) as u8
    } else if v < 62 {
        (48 + v - 52) as u8
    } else if v == 62 {
        45u8
    } else {
        95u8
    }
}

/// URL-safe Base64 without padding: each 3 bytes become 4 symbols; a final
/// 2 bytes become 3 symbols and a final byte 2 symbols, the unused low bits
/// being zero.
pub open spec fn b64url_encode_spec(s: Seq<u8>) -> Seq<u8>
    decreases s.len(),
{
    if s.len() >= 3 {
        let n = s[0] as int * 65536 + s[1] as int * 256 + s[2] as int;
        seq![
            b64url_symbol(n / 262144),
            b64url_symbol((n / 4096) % 64),
            b64url_symbol((n / 64) % 64),
            b64url_symbol(n % 64),
        ] + b64url_encode_spec(s.skip(3))
    } else if s.len() == 2 {
        let n = (s[0] as int * 256 + s[1] as int) * 4;
        seq![b64url_symbol(n / 4096), b64url_symbol((n / 64) % 64), b64url_symbol(n % 64)]
    } else if s.len() == 1 {
        let n = s[0] as int * 16;
        seq![b64url_symbol(n / 64), b64url_symbol(n % 64)]
    } else {
        Seq::empty()
    }
}

/// `base64::Engine::encode` with `URL_SAFE_NO_PAD`, as bytes.  Assumed to
/// produce the unpadded URL-safe Base64 of the input, as the crate documents.
#[verifier::external_body]
fn b64url_encode(data: &[u8]) -> (r: Vec<u8>)
    ensures
        r@ == b64url_encode_spec(data@),
{
    base64::Engine::encode(&base64::engine::general_purpose::URL_SAFE_NO_PAD, data).into_bytes()
}

/// `base64::Engine::decode` with `URL_SAFE_NO_PAD` (no padding allowed,
/// trailing bits must be zero).  Assumed to accept exactly the canonical
/// encodings, and to give back the bytes they encode.
#[verifier::external_body]
fn b64url_decode(data: &[u8]) -> (r: Option<Vec<u8>>)
    ensures
        r matches Some(d) ==> b64url_encode_spec(d@) == data@,
        forall|x: Seq<u8>| #[trigger] b64url_encode_spec(x) == data@ ==> r is Some && r.unwrap()@ == x,
{
    base64::Engine::decode(&base64::engine::general_purpose::URL_SAFE_NO_PAD, data).ok()
}

/// Whether `signature` is a valid Ed25519 signature of `message` under
/// `public_key`.  A signature that is not 64 bytes, or a key that is not
/// 32 bytes or not a curve point, is rejected.
pub open spec fn ed25519_valid(message: Seq<u8>, signature: Seq<u8>, public_key: Seq<u8>) -> bool {
    &&& signature.len() == 64
    &&& public_key.len() == 32
    &&& ed25519_key_decodes(public_key)
    &&& ed25519_accepts(public_key, message, signature)
}

/// Verifies an Ed25519 signature.
pub fn verify_ed25519(message: &[u8], signature: &[u8], public_key: &[u8]) -> (r: bool)
    ensures
        r == ed25519_valid(message@, signature@, public_key@),
{
    if signature.len() != 64 {
        return false;
    }
    if public_key.len() != 32 {
        return false;
    }
    match decode_verifying_key(public_key) {
        Some(key) => verify_with_key(&key, message, signature),
        None => false,
    }
}

/// The SHA-256 digest of `data` (32 bytes).
pub fn hash_sha256(data: &[u8]) -> (r: Vec<u8>)
    ensures
        r@ == sha256_of(data@),
        r@.len() == 32,
{
    sha256_digest(data)
}

/// The SHA-256 digest of `data` in unpadded URL-safe Base64 (a token CID).
pub fn hash_sha256_base64(data: &[u8]) -> (r: Vec<u8>)
    ensures
        r@ == b64url_encode_spec(sha256_of(data@)),
{
    let digest = sha256_digest(data);
    b64url_encode(digest.as_slice())
}

/// Unpadded URL-safe Base64 encoding of `data`.
pub fn base64_encode_urlsafe(data: &[u8]) -> (r: Vec<u8>)
    ensures
        r@ == b64url_encode_spec(data@),
{
    b64url_encode(data)
}

/// Decodes unpadded URL-safe Base64; `None` when `data` is not the
/// encoding of any byte string.
pub fn base64_decode_urlsafe(data: &[u8]) -> (r: Option<Vec<u8>>)
    ensures
        r matches Some(d) ==> b64url_encode_spec(d@) == data@,
        r is None ==> forall|x: Seq<u8>| b64url_encode_spec(x) != data@,
        forall|x: Seq<u8>| #[trigger] b64url_encode_spec(x) == data@ ==> r is Some && r.unwrap()@ == x,
{
    b64url_decode(data)
}

/// Compares two byte strings in time that depends only on their lengths.
pub fn secure_compare(a: &[u8], b: &[u8]) -> (r: bool)
    ensures
        r == (a@ == b@),
{
    if a.len() != b.len() {
        return false;
    }
    let n = a.len();
    let mut acc: u8 = 0;
    let mut i: usize = 0;
    while i < n
        invariant
            i <= n,
            n == a@.len(),
            n == b@.len(),
            (acc == 0) == (forall|k: int| 0 <= k < i ==> #[trigger] a@[k] == b@[k]),
        decreases n - i,
    {
        let x = a[i];
        let y = b[i];
        let old_acc = acc;
        acc = acc | (x ^ y);
        assert((old_acc | (x ^ y)) == 0 <==> (old_acc == 0 && x == y)) by (bit_vector);
        i = i + 1;
    }
    assert((acc == 0) ==> a@ =~= b@);
    if acc != 0 {
        let ghost k = choose|k: int| 0 <= k < n && a@[k] != b@[k];
        assert(a@[k] != b@[k]);
    }
    acc == 0
}

} // verus!
