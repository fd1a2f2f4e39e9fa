use reckon_nifs::hash::{
    fast_phash, fnv1a, partition_hash, partition_hash_batch, stream_partition, xxhash3, xxhash64,
    xxhash64_seed, HashError,
};

#[test]
fn xxhash_known_empty_values() {
    assert_eq!(xxhash64(b""), 0xef46db3751d8e999);
    assert_eq!(xxhash3(b""), 0x2d06800538d394c2);
}

#[test]
fn xxhash_agrees_with_crate() {
    let data = b"reckon-db event payload";
    assert_eq!(xxhash64(data), xxhash_rust::xxh64::xxh64(data, 0));
    assert_eq!(xxhash64_seed(data, 42), xxhash_rust::xxh64::xxh64(data, 42));
    assert_eq!(xxhash3(data), xxhash_rust::xxh3::xxh3_64(data));
    assert_ne!(xxhash64_seed(data, 1), xxhash64_seed(data, 2));
    assert_eq!(xxhash64_seed(data, 0), xxhash64(data));
}

#[test]
fn fnv1a_known_values() {
    assert_eq!(fnv1a(b""), 0xcbf29ce484222325);
    assert_eq!(fnv1a(b"a"), 0xaf63dc4c8601ec8c);
    assert_eq!(fnv1a(b"foobar"), 0x85944171f73967e8);
}

#[test]
fn partition_is_hash_modulo() {
    let data = b"stream-123";
    let h = xxhash_rust::xxh3::xxh3_64(data);
    assert_eq!(partition_hash(data, 16), Ok((h % 16) as u32));
    assert_eq!(partition_hash(data, 1), Ok(0));
    assert_eq!(fast_phash(data, 1000), Ok((h % 1000) as u32));
}

#[test]
fn zero_partitions_and_range_are_errors() {
    assert_eq!(partition_hash(b"x", 0), Err(HashError::ZeroPartitions));
    assert_eq!(stream_partition(b"s", b"t", 0), Err(HashError::ZeroPartitions));
    assert_eq!(partition_hash_batch(&[b"x".to_vec()], 0), Err(HashError::ZeroPartitions));
    assert_eq!(fast_phash(b"x", 0), Err(HashError::ZeroRange));
}

#[test]
fn stream_partition_hashes_joined_key() {
    let joined = b"store\0orders-1";
    let h = xxhash_rust::xxh3::xxh3_64(joined);
    assert_eq!(stream_partition(b"store", b"orders-1", 7), Ok((h % 7) as u32));
}

#[test]
fn batch_matches_single_partitions() {
    let items = vec![b"a".to_vec(), b"bb".to_vec(), b"".to_vec(), b"stream".to_vec()];
    let batch = partition_hash_batch(&items, 13).unwrap();
    assert_eq!(batch.len(), items.len());
    for (i, item) in items.iter().enumerate() {
        assert_eq!(Ok(batch[i]), partition_hash(item, 13));
        assert!(batch[i] < 13);
    }
    assert_eq!(partition_hash_batch(&[], 5), Ok(vec![]));
}
