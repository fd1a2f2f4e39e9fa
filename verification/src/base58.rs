//! Base58 (Bitcoin alphabet) encoding and decoding, and resource pattern
//! matching for capability tokens.
use vstd::prelude::*;

use crate::bytes::{bytes_eq, is_prefix_of, starts_with};
use vstd::slice::slice_subrange;
use crate::radix::{
    be_value, canonical_digits, digits_below, is_canonical, le_value, leading_run, mul_add_digits,
    repeat, lemma_be_value_leading_zeros, lemma_be_value_reverse, lemma_canonical_digits,
    lemma_canonical_unique, lemma_leading_run, lemma_leading_run_shape,
};

verus! {

/// The Bitcoin Base58 alphabet: `123456789ABCDEFGHJKLMNPQRSTUVWXYZabcdefghijkmnopqrstuvwxyz`.
pub const BASE58_ALPHABET: [u8; 58] = [
    49, 50, 51, 52, 53, 54, 55, 56, 57, 65, 66, 67, 68, 69, 70, 71, 72, 74, 75, 76, 77, 78, 80,
    81, 82, 83, 84, 85, 86, 87, 88, 89, 90, 97, 98, 99, 100, 101, 102, 103, 104, 105, 106, 107,
    109, 110, 111, 112, 113, 114, 115, 116, 117, 118, 119, 120, 121, 122,
];

/// Reverse lookup for decoding: the digit value of each byte, or -1 when the
/// byte is not in the alphabet.
pub const BASE58_DECODE_TABLE: [i8; 256] = [
    -1, -1, -1, -1, -1, -1, -1, -1, -1, -1, -1, -1, -1, -1, -1, -1, -1, -1, -1, -1, -1, -1, -1,
    -1, -1, -1, -1, -1, -1, -1, -1, -1, -1, -1, -1, -1, -1, -1, -1, -1, -1, -1, -1, -1, -1, -1,
    -1, -1, -1, 0, 1, 2, 3, 4, 5, 6, 7, 8, -1, -1, -1, -1, -1, -1, -1, 9, 10, 11, 12, 13, 14,
    15, 16, -1, 17, 18, 19, 20, 21, -1, 22, 23, 24, 25, 26, 27, 28, 29, 30, 31, 32, -1, -1, -1,
    -1, -1, -1, 33, 34, 35, 36, 37, 38, 39, 40, 41, 42, 43, -1, 44, 45, 46, 47, 48, 49, 50, 51,
    52, 53, 54, 55, 56, 57, -1, -1, -1, -1, -1, -1, -1, -1, -1, -1, -1, -1, -1, -1, -1, -1, -1,
    -1, -1, -1, -1, -1, -1, -1, -1, -1, -1, -1, -1, -1, -1, -1, -1, -1, -1, -1, -1, -1, -1, -1,
    -1, -1, -1, -1, -1, -1, -1, -1, -1, -1, -1, -1, -1, -1, -1, -1, -1, -1, -1, -1, -1, -1, -1,
    -1, -1, -1, -1, -1, -1, -1, -1, -1, -1, -1, -1, -1, -1, -1, -1, -1, -1, -1, -1, -1, -1, -1,
    -1, -1, -1, -1, -1, -1, -1, -1, -1, -1, -1, -1, -1, -1, -1, -1, -1, -1, -1, -1, -1, -1, -1,
    -1, -1, -1, -1, -1, -1, -1, -1, -1, -1, -1, -1, -1, -1, -1, -1, -1, -1, -1, -1, -1, -1, -1,
    -1,
];

/// The character `'1'`, which stands for the digit zero.
pub const ZERO_CHAR: u8 = 49;

/// Decoding failed on a byte outside the alphabet.
#[derive(Debug, Clone, Copy, PartialEq, Eq, Structural)]
pub enum Base58Error {
    /// The first byte (in input order) that is not a Base58 character.
    InvalidChar(u8),
}

/// The alphabet character for digit `d`.
pub open spec fn alphabet_char(d: u8) -> u8 {
    BASE58_ALPHABET@[d as int]
}

/// The digit value of character `c`, or -1.
pub open spec fn char_value(c: u8) -> int {
    BASE58_DECODE_TABLE@[c as int] as int
}

/// `c` belongs to the Base58 alphabet.
pub open spec fn is_base58_char(c: u8) -> bool {
    char_value(c) >= 0
}

/// The digit values of a string of alphabet characters.
pub open spec fn digit_values(s: Seq<u8>) -> Seq<u8> {
    s.map_values(|c: u8| char_value(c) as u8)
}

/// Base58 encoding of `data`: one `'1'` per leading zero byte, followed by the
/// base-58 numeral (most significant digit first, without leading zero digits)
/// of the big-endian number that `data` denotes.
pub open spec fn base58_encode_spec(data: Seq<u8>) -> Seq<u8> {
    repeat(ZERO_CHAR, leading_run(data, 0)) + canonical_digits(
        be_value(data, 256),
        58,
    ).reverse().map_values(|d: u8| alphabet_char(d))
}

/// Base58 decoding of a string of alphabet characters: one zero byte per
/// leading `'1'`, followed by the big-endian bytes (without leading zeros) of
/// the number that the remaining characters denote in base 58.
pub open spec fn base58_decode_spec(s: Seq<u8>) -> Seq<u8> {
    let z = leading_run(s, ZERO_CHAR);
    repeat(0, z) + canonical_digits(be_value(digit_values(s.skip(z as int)), 58), 256).reverse()
}

/// Every character of `s` is in the alphabet.
pub open spec fn all_base58(s: Seq<u8>) -> bool {
    forall|i: int| 0 <= i < s.len() ==> is_base58_char(#[trigger] s[i])
}

/// `i` is the position of the first character of `s` outside the alphabet.
pub open spec fn first_invalid_at(s: Seq<u8>, i: int) -> bool {
    &&& 0 <= i < s.len()
    &&& !is_base58_char(s[i])
    &&& forall|j: int| 0 <= j < i ==> is_base58_char(#[trigger] s[j])
}

/// Facts about the two tables: they are inverse to each other and `'1'` is
/// the digit zero.
pub proof fn lemma_tables()
    ensures
        forall|d: u8| d < 58 ==> #[trigger] char_value(alphabet_char(d)) == d as int,
        forall|c: u8| #[trigger] char_value(c) >= 0 ==> char_value(c) < 58 && alphabet_char(
            char_value(c) as u8,
        ) == c,
        forall|c: u8| -1 <= #[trigger] char_value(c) < 58,
        alphabet_char(0) == ZERO_CHAR,
        char_value(ZERO_CHAR) == 0,
{
    assert(forall|d: u8| d < 58 ==> #[trigger] char_value(alphabet_char(d)) == d as int);
    assert(forall|c: u8| #[trigger] char_value(c) >= 0 ==> char_value(c) < 58 && alphabet_char(
        char_value(c) as u8,
    ) == c);
    assert(forall|c: u8| -1 <= #[trigger] char_value(c) < 58);
}

/// Whether the native helpers are present; always `true`.
pub fn is_loaded() -> (r: bool)
    ensures
        r,
{
    true
}

/// Counts the leading bytes of `data` equal to `x`.
fn count_leading(data: &[u8], x: u8) -> (n: usize)
    ensures
        n == leading_run(data@, x),
        n <= data@.len(),
{
    let len = data.len();
    let mut n: usize = 0;
    while n < len && data[n] == x
        invariant
            n <= len,
            len == data@.len(),
            forall|j: int| 0 <= j < n ==> data@[j] == x,
        decreases len - n,
    {
        n = n + 1;
    }
    proof {
        lemma_leading_run(data@, x, n as nat);
    }
    n
}

/// A vector of `n` copies of `x`.
fn filled(x: u8, n: usize) -> (v: Vec<u8>)
    ensures
        v@ == repeat(x, n as nat),
{
    let mut v: Vec<u8> = Vec::new();
    let mut k: usize = 0;
    while k < n
        invariant
            k <= n,
            v@ == repeat(x, k as nat),
        decreases n - k,
    {
        v.push(x);
        k = k + 1;
        assert(v@ =~= repeat(x, k as nat));
    }
    v
}

/// Encodes `data` in Base58 with the Bitcoin alphabet.
pub fn base58_encode(data: &[u8]) -> (out: Vec<u8>)
    ensures
        out@ == base58_encode_spec(data@),
{
    let len = data.len();
    let z = count_leading(data, 0);
    let mut result = filled(ZERO_CHAR, z);
    let mut digits: Vec<u8> = Vec::new();
    let mut i: usize = z;
    assert(data@.subrange(z as int, z as int) =~= Seq::<u8>::empty());
    assert(digits@ =~= Seq::<u8>::empty());
    while i < len
        invariant
            z <= i <= len,
            len == data@.len(),
            digits_below(digits@, 58),
            is_canonical(digits@),
            le_value(digits@, 58) == be_value(data@.subrange(z as int, i as int), 256),
        decreases len - i,
    {
        let byte = data[i];
        mul_add_digits(&mut digits, 58, 256, byte as u32);
        assert(data@.subrange(z as int, i + 1).drop_last() =~= data@.subrange(z as int, i as int));
        i = i + 1;
    }
    proof {
        lemma_leading_run_shape(data@, 0);
        assert(data@.subrange(z as int, len as int) =~= data@.skip(z as int));
        lemma_be_value_leading_zeros(z as nat, data@.skip(z as int), 256);
        lemma_canonical_unique(digits@, 58);
    }
    let ghost canon = digits@;
    assert(canon == canonical_digits(be_value(data@, 256), 58));
    let n = digits.len();
    let mut k: usize = 0;
    while k < n
        invariant
            k <= n,
            n == canon.len(),
            digits@ == canon,
            digits_below(canon, 58),
            result@.len() == z + k,
            forall|j: int| 0 <= j < z ==> result@[j] == ZERO_CHAR,
            forall|j: int|
                0 <= j < k ==> result@[z + j] == alphabet_char(#[trigger] canon[n - 1 - j]),
        decreases n - k,
    {
        let d = digits[n - 1 - k];
        assert((d as nat) < 58);
        result.push(BASE58_ALPHABET[d as usize]);
        k = k + 1;
    }
    assert(result@ =~= base58_encode_spec(data@));
    result
}

/// Decodes a Base58 string (Bitcoin alphabet).  Fails on the first byte
/// that is not in the alphabet.
pub fn base58_decode(input: &[u8]) -> (res: Result<Vec<u8>, Base58Error>)
    ensures
        res is Ok <==> all_base58(input@),
        res matches Ok(v) ==> v@ == base58_decode_spec(input@),
        res matches Err(Base58Error::InvalidChar(c)) ==> exists|i: int|
            first_invalid_at(input@, i) && input@[i] == c,
{
    proof {
        lemma_tables();
    }
    let len = input.len();
    let z = count_leading(input, ZERO_CHAR);
    proof {
        lemma_leading_run_shape(input@, ZERO_CHAR);
    }
    let mut result = filled(0, z);
    let mut digits: Vec<u8> = Vec::new();
    let mut i: usize = z;
    assert(digit_values(input@.subrange(z as int, z as int)) =~= Seq::<u8>::empty());
    assert(digits@ =~= Seq::<u8>::empty());
    while i < len
        invariant
            z <= i <= len,
            len == input@.len(),
            z == leading_run(input@, ZERO_CHAR),
            forall|j: int| 0 <= j < z ==> input@[j] == ZERO_CHAR,
            char_value(ZERO_CHAR) == 0,
            forall|c: u8| -1 <= #[trigger] char_value(c) < 58,
            forall|j: int| 0 <= j < i ==> is_base58_char(#[trigger] input@[j]),
            digits_below(digits@, 256),
            is_canonical(digits@),
            le_value(digits@, 256) == be_value(
                digit_values(input@.subrange(z as int, i as int)),
                58,
            ),
        decreases len - i,
    {
        let c = input[i];
        let v = BASE58_DECODE_TABLE[c as usize];
        assert(v as int == char_value(c));
        if v < 0 {
            assert(first_invalid_at(input@, i as int));
            return Err(Base58Error::InvalidChar(c));
        }
        mul_add_digits(&mut digits, 256, 58, v as u32);
        assert(digit_values(input@.subrange(z as int, i + 1)).drop_last() =~= digit_values(
            input@.subrange(z as int, i as int),
        ));
        i = i + 1;
    }
    proof {
        assert(input@.subrange(z as int, len as int) =~= input@.skip(z as int));
        lemma_canonical_unique(digits@, 256);
    }
    let ghost canon = digits@;
    let n = digits.len();
    let mut k: usize = 0;
    while k < n
        invariant
            k <= n,
            n == canon.len(),
            digits@ == canon,
            result@.len() == z + k,
            forall|j: int| 0 <= j < z ==> result@[j] == 0,
            forall|j: int| 0 <= j < k ==> result@[z + j] == #[trigger] canon[n - 1 - j],
        decreases n - k,
    {
        result.push(digits[n - 1 - k]);
        k = k + 1;
    }
    assert(result@ =~= base58_decode_spec(input@));
    Ok(result)
}

/// Whether `resource` matches `pattern`: equal, or `pattern` ends in `*` and
/// `resource` starts with what precedes the `*`.
pub open spec fn resource_pattern_matches(pattern: Seq<u8>, resource: Seq<u8>) -> bool {
    ||| pattern == resource
    ||| (pattern.len() > 0 && pattern.last() == 42 && is_prefix_of(pattern.drop_last(), resource))
}

/// A resource matches a pattern exactly when it equals the pattern, or the
/// pattern ends in `*` and the resource begins with everything before the
/// `*`.
pub proof fn law_resource_pattern_match(pattern: Seq<u8>, resource: Seq<u8>)
    ensures
        resource_pattern_matches(pattern, resource) <==> (pattern == resource || (pattern.len() >= 1
            && pattern[pattern.len() - 1] == 42 && resource.len() >= pattern.len() - 1 && forall|i: int|
            0 <= i < pattern.len() - 1 ==> resource[i] == pattern[i])),
{
    if pattern.len() >= 1 && pattern[pattern.len() - 1] == 42 && resource.len() >= pattern.len() - 1
        && forall|i: int| 0 <= i < pattern.len() - 1 ==> resource[i] == pattern[i] {
        assert(resource.subrange(0, pattern.drop_last().len() as int) =~= pattern.drop_last());
    }
    if pattern.len() > 0 && pattern.last() == 42 && is_prefix_of(pattern.drop_last(), resource) {
        assert forall|i: int| 0 <= i < pattern.len() - 1 implies resource[i] == pattern[i] by {
            assert(resource.subrange(0, pattern.len() - 1)[i] == pattern.drop_last()[i]);
        }
    }
}

/// Matches a capability resource pattern against a resource URI: exact
/// match, or a trailing `*` wildcard matching any continuation.
pub fn match_resource_pattern(pattern: &[u8], resource: &[u8]) -> (r: bool)
    ensures
        r == resource_pattern_matches(pattern@, resource@),
        r <==> (pattern@ == resource@ || (pattern@.len() >= 1 && pattern@[pattern@.len() - 1] == 42
            && resource@.len() >= pattern@.len() - 1 && forall|i: int|
            0 <= i < pattern@.len() - 1 ==> resource@[i] == pattern@[i])),
{
    proof {
        law_resource_pattern_match(pattern@, resource@);
    }
    if bytes_eq(pattern, resource) {
        return true;
    }
    let n = pattern.len();
    if n > 0 && pattern[n - 1] == 42 {
        let prefix = slice_prefix(pattern, n - 1);
        assert(prefix@ =~= pattern@.drop_last());
        return starts_with(resource, prefix);
    }
    false
}

/// The first `n` bytes of `s`.
fn slice_prefix(s: &[u8], n: usize) -> (r: &[u8])
    requires
        n <= s@.len(),
    ensures
        r@ == s@.subrange(0, n as int),
{
    slice_subrange(s, 0, n)
}

/// Decoding an encoding gives back the data, for every byte string.
pub proof fn law_base58_decode_encode(data: Seq<u8>)
    ensures
        all_base58(base58_encode_spec(data)),
        base58_decode_spec(base58_encode_spec(data)) == data,
{
    lemma_tables();
    let e = base58_encode_spec(data);
    let z = leading_run(data, 0);
    let v = be_value(data, 256);
    let c = canonical_digits(v, 58);
    lemma_canonical_digits(v, 58);
    let body = c.reverse().map_values(|d: u8| alphabet_char(d));
    assert(e == repeat(ZERO_CHAR, z) + body);
    assert forall|i: int| 0 <= i < e.len() implies is_base58_char(#[trigger] e[i]) by {
        if i >= z {
            assert(e[i] == body[i - z]);
            assert(body[i - z] == alphabet_char(c[c.len() - 1 - (i - z)]));
            assert((c[c.len() - 1 - (i - z)] as nat) < 58);
        }
    }
    // the body starts with a non-zero digit, so the leading '1's are exactly z
    assert forall|j: int| 0 <= j < z implies e[j] == ZERO_CHAR by {}
    if body.len() > 0 {
        assert(body[0] == alphabet_char(c.last()));
        assert(c.last() != 0);
        assert(char_value(body[0]) == c.last() as int);
        assert(e[z as int] != ZERO_CHAR);
    }
    lemma_leading_run(e, ZERO_CHAR, z);
    assert(e.skip(z as int) =~= body);
    let dv = digit_values(body);
    assert(dv =~= c.reverse()) by {
        assert forall|i: int| 0 <= i < dv.len() implies dv[i] == c.reverse()[i] by {
            let d = c[c.len() - 1 - i];
            assert((d as nat) < 58);
            assert(char_value(alphabet_char(d)) == d as int);
        }
    }
    lemma_be_value_reverse(c, 58);
    // the remaining bytes of data are the canonical base-256 numeral of v
    lemma_leading_run_shape(data, 0);
    let rest = data.skip(z as int);
    lemma_be_value_leading_zeros(z, rest, 256);
    lemma_be_value_reverse(rest.reverse(), 256);
    assert(rest.reverse().reverse() =~= rest);
    let rr = rest.reverse();
    assert(digits_below(rr, 256)) by {
        assert forall|i: int| 0 <= i < rr.len() implies (#[trigger] rr[i] as nat) < 256 by {}
    }
    assert(is_canonical(rr)) by {
        if rr.len() > 0 {
            assert(rr.last() == rest[0]);
            assert(rest[0] == data[z as int]);
        }
    }
    lemma_canonical_unique(rr, 256);
    assert(canonical_digits(v, 256).reverse() =~= rest);
    assert(base58_decode_spec(e) =~= data);
}

/// Encoding a valid Base58 string's decoding gives back the string: every
/// string of alphabet characters is the encoding of exactly one byte string.
pub proof fn law_base58_encode_decode(s: Seq<u8>)
    requires
        all_base58(s),
    ensures
        base58_encode_spec(base58_decode_spec(s)) == s,
{
    lemma_tables();
    let z = leading_run(s, ZERO_CHAR);
    lemma_leading_run_shape(s, ZERO_CHAR);
    let rest = s.skip(z as int);
    let dv = digit_values(rest);
    let n = be_value(dv, 58);
    let c = canonical_digits(n, 256);
    lemma_canonical_digits(n, 256);
    let d = base58_decode_spec(s);
    assert(d == repeat(0, z) + c.reverse());
    // leading zero bytes of the decoding are exactly z
    assert forall|j: int| 0 <= j < z implies d[j] == 0 by {}
    if c.len() > 0 {
        assert(d[z as int] == c.last());
    }
    lemma_leading_run(d, 0, z);
    // the decoding denotes n
    assert(d.skip(z as int) =~= c.reverse());
    lemma_be_value_leading_zeros(z, c.reverse(), 256);
    lemma_be_value_reverse(c, 256);
    // the digits of the rest are the canonical base-58 numeral of n
    let dr = dv.reverse();
    assert(dr.reverse() =~= dv);
    lemma_be_value_reverse(dr, 58);
    assert(digits_below(dr, 58)) by {
        assert forall|i: int| 0 <= i < dr.len() implies (#[trigger] dr[i] as nat) < 58 by {
            assert(dr[i] == dv[dv.len() - 1 - i]);
            assert(is_base58_char(rest[dv.len() - 1 - i]));
            assert(rest[dv.len() - 1 - i] == s[z + dv.len() - 1 - i]);
        }
    }
    assert(is_canonical(dr)) by {
        if dr.len() > 0 {
            assert(dr.last() == dv[0]);
            assert(rest[0] == s[z as int]);
            assert(s[z as int] != ZERO_CHAR);
            assert(is_base58_char(s[z as int]));
            if char_value(rest[0]) == 0 {
                assert(alphabet_char(0) == rest[0]);
            }
        }
    }
    lemma_canonical_unique(dr, 58);
    let body = canonical_digits(n, 58).reverse().map_values(|x: u8| alphabet_char(x));
    assert(body =~= rest) by {
        assert forall|i: int| 0 <= i < body.len() implies body[i] == rest[i] by {
            assert(canonical_digits(n, 58) == dr);
            assert(body[i] == alphabet_char(dv[i]));
            assert(is_base58_char(s[z + i]));
            assert(rest[i] == s[z + i]);
        }
    }
    assert(base58_encode_spec(d) =~= s);
}

} // verus!
