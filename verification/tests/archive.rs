use reckon_nifs::archive::{
    compress, compress_lz4, compress_zlib, compress_zstd, compression_stats, decompress,
    decompress_lz4, decompress_zlib, decompress_zstd, Algorithm, ArchiveError,
};

fn sample() -> Vec<u8> {
    let mut v = Vec::new();
    for i in 0..2000u32 {
        v.extend_from_slice(format!("event-{} ", i % 37).as_bytes());
    }
    v
}

#[test]
fn lz4_roundtrip() {
    let data = sample();
    let c = compress_lz4(&data);
    assert!(c.len() < data.len());
    assert_eq!(&c[..4], &(data.len() as u32).to_le_bytes());
    assert_eq!(decompress_lz4(&c), Some(data));
    assert_eq!(decompress_lz4(&compress_lz4(b"")), Some(vec![]));
}

#[test]
fn zstd_roundtrip() {
    let data = sample();
    let c = compress_zstd(&data, 3).unwrap();
    assert!(c.len() < data.len());
    assert_eq!(decompress_zstd(&c), Some(data.clone()));
    let c19 = compress_zstd(&data, 19).unwrap();
    assert_eq!(decompress_zstd(&c19), Some(data));
}

#[test]
fn zlib_roundtrip_and_level_clamp() {
    let data = sample();
    for level in [0u32, 1, 6, 9, 42] {
        let c = compress_zlib(&data, level).unwrap();
        assert_ne!(c, data);
        if level > 0 {
            assert!(c.len() < data.len());
        }
        assert_eq!(decompress_zlib(&c), Some(data.clone()));
    }
    assert_eq!(compress_zlib(&data, 42), compress_zlib(&data, 9));
}

#[test]
fn decompress_rejects_garbage() {
    let junk = b"definitely not compressed".to_vec();
    assert_eq!(decompress_zstd(&junk), None);
    assert_eq!(decompress_zlib(&junk), None);
    assert_eq!(decompress_lz4(&[1, 2]), None);
    assert_eq!(decompress(&[1, 2], Algorithm::Lz4), Err(ArchiveError::DecompressionFailed));
    assert_eq!(decompress(&junk, Algorithm::Zstd), Err(ArchiveError::DecompressionFailed));
    assert_eq!(decompress(&junk, Algorithm::Zlib), Err(ArchiveError::DecompressionFailed));
}

#[test]
fn unified_api_roundtrips() {
    let data = sample();
    for alg in [Algorithm::Lz4, Algorithm::Zstd, Algorithm::Zlib] {
        let c = compress(&data, alg, 5).unwrap();
        assert_eq!(decompress(&c, alg), Ok(data.clone()));
    }
}

#[test]
fn unified_api_matches_direct_calls() {
    let data = sample();
    assert_eq!(compress(&data, Algorithm::Lz4, 0), Ok(compress_lz4(&data)));
    assert_eq!(compress(&data, Algorithm::Zstd, 7), Ok(compress_zstd(&data, 7).unwrap()));
    assert_eq!(compress(&data, Algorithm::Zlib, 4), Ok(compress_zlib(&data, 4).unwrap()));
    // Out-of-range zlib levels mean 9.
    assert_eq!(compress(&data, Algorithm::Zlib, -1), Ok(compress_zlib(&data, 9).unwrap()));
    assert_eq!(compress(&data, Algorithm::Zlib, 12), Ok(compress_zlib(&data, 9).unwrap()));
}

#[test]
fn unknown_algorithm_is_an_error() {
    assert_eq!(compress(b"x", Algorithm::Unknown, 1), Err(ArchiveError::UnknownAlgorithm));
    assert_eq!(decompress(b"x", Algorithm::Unknown), Err(ArchiveError::UnknownAlgorithm));
    assert_eq!(
        compression_stats(b"x", Algorithm::Unknown, 1),
        Err(ArchiveError::UnknownAlgorithm)
    );
}

#[test]
fn stats_give_both_sizes() {
    let data = sample();
    let (orig, comp) = compression_stats(&data, Algorithm::Zstd, 3).unwrap();
    assert_eq!(orig, data.len());
    assert_eq!(comp, compress_zstd(&data, 3).unwrap().len());
    let (orig, comp) = compression_stats(&data, Algorithm::Lz4, 0).unwrap();
    assert_eq!(orig, data.len());
    assert_eq!(comp, compress_lz4(&data).len());
}
