//! Comparisons of byte strings.
use vstd::prelude::*;

verus! {

/// `prefix` is an initial segment of `text`.
pub open spec fn is_prefix_of(prefix: Seq<u8>, text: Seq<u8>) -> bool {
    prefix.len() <= text.len() && text.subrange(0, prefix.len() as int) == prefix
}

/// `suffix` is a final segment of `text`.
pub open spec fn is_suffix_of(suffix: Seq<u8>, text: Seq<u8>) -> bool {
    suffix.len() <= text.len() && text.subrange(text.len() - suffix.len(), text.len() as int)
        == suffix
}

/// Compares `a[a_start..a_start + n]` with `b[b_start..b_start + n]`.
pub fn range_eq(a: &[u8], a_start: usize, b: &[u8], b_start: usize, n: usize) -> (r: bool)
    requires
        a_start + n <= a@.len(),
        b_start + n <= b@.len(),
    ensures
        r == (a@.subrange(a_start as int, a_start + n) == b@.subrange(
            b_start as int,
            b_start + n,
        )),
{
    let mut i: usize = 0;
    while i < n
        invariant
            i <= n,
            a_start + n <= a.len(),
            b_start + n <= b.len(),
            forall|k: int| 0 <= k < i ==> #[trigger] a@[a_start + k] == b@[b_start + k],
        decreases n - i,
    {
        if a[a_start + i] != b[b_start + i] {
            assert(a@.subrange(a_start as int, a_start + n)[i as int] != b@.subrange(
                b_start as int,
                b_start + n,
            )[i as int]);
            return false;
        }
        i = i + 1;
    }
    assert forall|k: int| 0 <= k < n implies #[trigger] a@.subrange(a_start as int, a_start + n)[k]
        == b@.subrange(b_start as int, b_start + n)[k] by {
        assert(a@[a_start + k] == b@[b_start + k]);
    }
    assert(a@.subrange(a_start as int, a_start + n) =~= b@.subrange(b_start as int, b_start + n));
    true
}

/// Byte-for-byte equality.
pub fn bytes_eq(a: &[u8], b: &[u8]) -> (r: bool)
    ensures
        r == (a@ == b@),
{
    if a.len() != b.len() {
        return false;
    }
    let r = range_eq(a, 0, b, 0, a.len());
    assert(a@.subrange(0, a@.len() as int) =~= a@);
    assert(b@.subrange(0, b@.len() as int) =~= b@);
    r
}

/// Whether `text` starts with `prefix`.
pub fn starts_with(text: &[u8], prefix: &[u8]) -> (r: bool)
    ensures
        r == is_prefix_of(prefix@, text@),
{
    if prefix.len() > text.len() {
        return false;
    }
    let r = range_eq(text, 0, prefix, 0, prefix.len());
    assert(prefix@.subrange(0, prefix@.len() as int) =~= prefix@);
    r
}

/// Whether `text` ends with `suffix`.
pub fn ends_with(text: &[u8], suffix: &[u8]) -> (r: bool)
    ensures
        r == is_suffix_of(suffix@, text@),
{
    if suffix.len() > text.len() {
        return false;
    }
    let start = text.len() - suffix.len();
    let r = range_eq(text, start, suffix, 0, suffix.len());
    assert(suffix@.subrange(0, suffix@.len() as int) =~= suffix@);
    r
}

/// Appends the bytes of `s` to `v`.
pub fn append_bytes(v: &mut Vec<u8>, s: &[u8])
    ensures
        final(v)@ == old(v)@ + s@,
{
    let ghost start = v@;
    let mut i: usize = 0;
    while i < s.len()
        invariant
            i <= s@.len(),
            v@ == start + s@.subrange(0, i as int),
        decreases s@.len() - i,
    {
        v.push(s[i]);
        i = i + 1;
        assert(v@ =~= start + s@.subrange(0, i as int));
    }
    assert(s@.subrange(0, s@.len() as int) =~= s@);
}

} // verus!
