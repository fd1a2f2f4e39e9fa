//! Non-cryptographic hashing for routing streams and subscriptions to
//! partitions.
use vstd::prelude::*;

use crate::bytes::append_bytes;

verus! {

/// The xxHash64 digest of `data` with `seed`, as computed by `xxhash_rust`.
pub uninterp spec fn xxh64_of(data: Seq<u8>, seed: u64) -> u64;

/// The 64-bit xxHash3 digest of `data`, as computed by `xxhash_rust`.
pub uninterp spec fn xxh3_64_of(data: Seq<u8>) -> u64;

/// `xxhash_rust::xxh64::xxh64`: assumed to return the xxHash64 digest of its
/// input under the seed, a value that depends on the two arguments alone.
pub assume_specification[ xxhash_rust::xxh64::xxh64 ](input: &[u8], seed: u64) -> (h: u64)
    ensures
        h == xxh64_of(input@, seed),
;

/// `xxhash_rust::xxh3::xxh3_64`: assumed to return the xxHash3 digest of its
/// input, a value that depends on the input alone.
pub assume_specification[ xxhash_rust::xxh3::xxh3_64 ](input: &[u8]) -> (h: u64)
    ensures
        h == xxh3_64_of(input@),
;

/// The 64-bit FNV offset basis.
pub const FNV_OFFSET_BASIS: u64 = 0xcbf29ce484222325;

/// The 64-bit FNV prime.
pub const FNV_PRIME: u64 = 0x100000001b3;

/// One FNV-1a step: xor in the byte, then multiply by the prime modulo 2^64.
pub open spec fn fnv1a_step(h: u64, byte: u8) -> u64 {
    (((h ^ (byte as u64)) as int * FNV_PRIME as int) % 0x1_0000_0000_0000_0000) as u64
}

/// The 64-bit FNV-1a hash of `data`.
pub open spec fn fnv1a_of(data: Seq<u8>) -> u64
    decreases data.len(),
{
    if data.len() == 0 {
        FNV_OFFSET_BASIS
    } else {
        fnv1a_step(fnv1a_of(data.drop_last()), data.last())
    }
}

/// `fnv::FnvHasher`: a default hasher fed `data` with `write` and read with
/// `finish`.  Assumed to compute FNV-1a (offset basis 0xcbf29ce484222325,
/// xor each byte, wrapping multiply by 0x100000001b3), as the crate's
/// source does.
#[verifier::external_body]
fn fnv_hasher_digest(data: &[u8]) -> (h: u64)
    ensures
        h == fnv1a_of(data@),
{
    let mut hasher = fnv::FnvHasher::default();
    std::hash::Hasher::write(&mut hasher, data);
    std::hash::Hasher::finish(&hasher)
}

/// Errors of the partitioning functions.
#[derive(Debug, Clone, Copy, PartialEq, Eq, Structural)]
pub enum HashError {
    /// The number of partitions was zero.
    ZeroPartitions,
    /// The range was zero.
    ZeroRange,
}

/// The bucket of a 64-bit hash among `n` buckets.
pub open spec fn bucket(h: u64, n: u32) -> u32 {
    (h % (n as u64)) as u32
}

/// A hash routed among `n` partitions lands on one of them: `0..n`.
pub proof fn law_bucket_in_range(h: u64, n: u32)
    requires
        n > 0,
    ensures
        bucket(h, n) < n,
{
}

/// xxHash64 of `data` with seed 0.
pub fn xxhash64(data: &[u8]) -> (h: u64)
    ensures
        h == xxh64_of(data@, 0),
{
    xxhash_rust::xxh64::xxh64(data, 0)
}

/// xxHash64 of `data` with the given seed.
pub fn xxhash64_seed(data: &[u8], seed: u64) -> (h: u64)
    ensures
        h == xxh64_of(data@, seed),
{
    xxhash_rust::xxh64::xxh64(data, seed)
}

/// 64-bit xxHash3 of `data`.
pub fn xxhash3(data: &[u8]) -> (h: u64)
    ensures
        h == xxh3_64_of(data@),
{
    xxhash_rust::xxh3::xxh3_64(data)
}

/// The partition (0 to `partitions - 1`) that `data` routes to: its xxHash3
/// modulo the number of partitions.
pub fn partition_hash(data: &[u8], partitions: u32) -> (r: Result<u32, HashError>)
    ensures
        partitions == 0 ==> r == Err::<u32, HashError>(HashError::ZeroPartitions),
        partitions > 0 ==> r == Ok::<u32, HashError>(bucket(xxh3_64_of(data@), partitions)),
        r matches Ok(p) ==> p < partitions,
{
    if partitions == 0 {
        return Err(HashError::ZeroPartitions);
    }
    let h = xxhash_rust::xxh3::xxh3_64(data);
    Ok((h % (partitions as u64)) as u32)
}

/// The key that a `{StoreId, StreamId}` pair is hashed under: the two ids
/// joined by a zero byte.
pub open spec fn stream_key(store_id: Seq<u8>, stream_id: Seq<u8>) -> Seq<u8> {
    store_id + seq![0u8] + stream_id
}

/// The partition of a stream: xxHash3 of `store_id ++ [0] ++ stream_id`
/// modulo the number of partitions.
pub fn stream_partition(store_id: &[u8], stream_id: &[u8], partitions: u32) -> (r: Result<
    u32,
    HashError,
>)
    ensures
        partitions == 0 ==> r == Err::<u32, HashError>(HashError::ZeroPartitions),
        partitions > 0 ==> r == Ok::<u32, HashError>(
            bucket(xxh3_64_of(stream_key(store_id@, stream_id@)), partitions),
        ),
{
    if partitions == 0 {
        return Err(HashError::ZeroPartitions);
    }
    let mut combined: Vec<u8> = Vec::new();
    append_bytes(&mut combined, store_id);
    combined.push(0);
    append_bytes(&mut combined, stream_id);
    assert(combined@ =~= stream_key(store_id@, stream_id@));
    let h = xxhash_rust::xxh3::xxh3_64(combined.as_slice());
    Ok((h % (partitions as u64)) as u32)
}

/// The partition of each item, in input order.
pub fn partition_hash_batch(items: &[Vec<u8>], partitions: u32) -> (r: Result<
    Vec<u32>,
    HashError,
>)
    ensures
        partitions == 0 ==> r == Err::<Vec<u32>, HashError>(HashError::ZeroPartitions),
        r is Err <==> partitions == 0,
        r matches Ok(v) ==> v@.len() == items@.len() && forall|i: int|
            0 <= i < items@.len() ==> #[trigger] v@[i] == bucket(xxh3_64_of(items@[i]@), partitions)
                && v@[i] < partitions,
{
    if partitions == 0 {
        return Err(HashError::ZeroPartitions);
    }
    let mut out: Vec<u32> = Vec::new();
    let mut i: usize = 0;
    while i < items.len()
        invariant
            partitions > 0,
            i <= items@.len(),
            out@.len() == i,
            forall|j: int|
                0 <= j < i ==> #[trigger] out@[j] == bucket(xxh3_64_of(items@[j]@), partitions)
                    && out@[j] < partitions,
        decreases items@.len() - i,
    {
        let h = xxhash_rust::xxh3::xxh3_64(items[i].as_slice());
        out.push((h % (partitions as u64)) as u32);
        i = i + 1;
    }
    Ok(out)
}

/// The 64-bit FNV-1a hash of `data`.
pub fn fnv1a(data: &[u8]) -> (h: u64)
    ensures
        h == fnv1a_of(data@),
{
    fnv_hasher_digest(data)
}

/// A hash of `data` in `[0, range)`, in the manner of `erlang:phash2/2`:
/// xxHash3 modulo the range.
pub fn fast_phash(data: &[u8], range: u32) -> (r: Result<u32, HashError>)
    ensures
        range == 0 ==> r == Err::<u32, HashError>(HashError::ZeroRange),
        range > 0 ==> r == Ok::<u32, HashError>(bucket(xxh3_64_of(data@), range)),
        r matches Ok(p) ==> p < range,
{
    if range == 0 {
        return Err(HashError::ZeroRange);
    }
    let h = xxhash_rust::xxh3::xxh3_64(data);
    Ok((h % (range as u64)) as u32)
}

} // verus!
