//! Compression of archived events with LZ4, Zstandard or zlib.
use vstd::prelude::*;

verus! {

/// The LZ4 block encoding of `data` with its length prepended, as produced
/// by `lz4_flex::compress_prepend_size`.
pub uninterp spec fn lz4_compressed(data: Seq<u8>) -> Seq<u8>;

/// What `lz4_flex::decompress_size_prepended` makes of `data` (`None` on error).
pub uninterp spec fn lz4_decompressed(data: Seq<u8>) -> Option<Seq<u8>>;

/// What `zstd::encode_all` makes of `data` at `level` (`None` on error).
pub uninterp spec fn zstd_encoded(data: Seq<u8>, level: i32) -> Option<Seq<u8>>;

/// What `zstd::decode_all` makes of `data` (`None` on error).
pub uninterp spec fn zstd_decoded(data: Seq<u8>) -> Option<Seq<u8>>;

/// What a `flate2` zlib encoder at `level` makes of `data` (`None` on error).
pub uninterp spec fn zlib_encoded(data: Seq<u8>, level: u32) -> Option<Seq<u8>>;

/// What a `flate2` zlib decoder makes of `data` (`None` on error).
pub uninterp spec fn zlib_decoded(data: Seq<u8>) -> Option<Seq<u8>>;

/// The contents of an optional buffer.
pub open spec fn opt_view(o: Option<Vec<u8>>) -> Option<Seq<u8>> {
    match o {
        Some(v) => Some(v@),
        None => None,
    }
}

/// `lz4_flex::compress_prepend_size`.  Assumed to return a value that
/// depends on the input alone.
#[verifier::external_body]
fn lz4_compress_call(data: &[u8]) -> (r: Vec<u8>)
    ensures
        r@ == lz4_compressed(data@),
{
    lz4_flex::compress_prepend_size(data)
}

/// `lz4_flex::decompress_size_prepended`.  Assumed to depend on the input
/// alone, and to give back any input of at most `u32::MAX` bytes from its
/// compression (the size prefix is a little-endian u32).
#[verifier::external_body]
fn lz4_decompress_call(data: &[u8]) -> (r: Option<Vec<u8>>)
    ensures
        opt_view(r) == lz4_decompressed(data@),
        forall|x: Seq<u8>|
            x.len() <= u32::MAX && #[trigger] lz4_compressed(x) == data@ ==> opt_view(r) == Some(x),
{
    lz4_flex::decompress_size_prepended(data).ok()
}

/// `zstd::encode_all` over a byte slice.  Assumed to depend on the input and
/// the level alone.
#[verifier::external_body]
fn zstd_encode_call(data: &[u8], level: i32) -> (r: Option<Vec<u8>>)
    ensures
        opt_view(r) == zstd_encoded(data@, level),
{
    zstd::encode_all(data, level).ok()
}

/// `zstd::decode_all` over a byte slice.  Assumed to depend on the input
/// alone, and to give back the data of any frame that `encode_all` produced.
#[verifier::external_body]
fn zstd_decode_call(data: &[u8]) -> (r: Option<Vec<u8>>)
    ensures
        opt_view(r) == zstd_decoded(data@),
        forall|x: Seq<u8>, level: i32| #[trigger] zstd_encoded(x, level) == Some(data@) ==> opt_view(r)
            == Some(x),
{
    zstd::decode_all(data).ok()
}

/// A `flate2::read::ZlibEncoder` at `Compression::new(level)` read to the
/// end.  Assumed to depend on the input and the level alone.
#[verifier::external_body]
fn zlib_encode_call(data: &[u8], level: u32) -> (r: Option<Vec<u8>>)
    requires
        level <= 9,
    ensures
        opt_view(r) == zlib_encoded(data@, level),
{
    let mut encoder = flate2::read::ZlibEncoder::new(data, flate2::Compression::new(level));
    let mut out = Vec::new();
    match std::io::Read::read_to_end(&mut encoder, &mut out) {
        Ok(_) => Some(out),
        Err(_) => None,
    }
}

/// A `flate2::read::ZlibDecoder` read to the end.  Assumed to depend on the
/// input alone, and to give back the data of any stream the encoder produced.
#[verifier::external_body]
fn zlib_decode_call(data: &[u8]) -> (r: Option<Vec<u8>>)
    ensures
        opt_view(r) == zlib_decoded(data@),
        forall|x: Seq<u8>, level: u32|
            level <= 9 && #[trigger] zlib_encoded(x, level) == Some(data@) ==> opt_view(r) == Some(x),
{
    let mut decoder = flate2::read::ZlibDecoder::new(data);
    let mut out = Vec::new();
    match std::io::Read::read_to_end(&mut decoder, &mut out) {
        Ok(_) => Some(out),
        Err(_) => None,
    }
}

/// The compression algorithms, and any other name a caller may give.
#[derive(Debug, Clone, Copy, PartialEq, Eq, Structural)]
pub enum Algorithm {
    Lz4,
    Zstd,
    Zlib,
    Unknown,
}

/// Why a compression request failed.
#[derive(Debug, Clone, Copy, PartialEq, Eq, Structural)]
pub enum ArchiveError {
    /// The algorithm is not one of LZ4, Zstandard and zlib.
    UnknownAlgorithm,
    /// The compressor reported an error.
    CompressionFailed,
    /// The input is not valid compressed data.
    DecompressionFailed,
}

/// The zlib level used for a signed level: 0 to 9 as given, anything else 9.
pub open spec fn zlib_level(level: i32) -> u32 {
    if 0 <= level <= 9 {
        level as u32
    } else {
        9
    }
}

/// The compressed form of `data` with `algorithm` at `level`.
pub open spec fn compressed_spec(data: Seq<u8>, algorithm: Algorithm, level: i32) -> Result<
    Seq<u8>,
    ArchiveError,
> {
    match algorithm {
        Algorithm::Lz4 => Ok(lz4_compressed(data)),
        Algorithm::Zstd => match zstd_encoded(data, level) {
            Some(c) => Ok(c),
            None => Err(ArchiveError::CompressionFailed),
        },
        Algorithm::Zlib => match zlib_encoded(data, zlib_level(level)) {
            Some(c) => Ok(c),
            None => Err(ArchiveError::CompressionFailed),
        },
        Algorithm::Unknown => Err(ArchiveError::UnknownAlgorithm),
    }
}

/// The decompressed form of `data` with `algorithm`.
pub open spec fn decompressed_spec(data: Seq<u8>, algorithm: Algorithm) -> Result<
    Seq<u8>,
    ArchiveError,
> {
    let d = match algorithm {
        Algorithm::Lz4 => lz4_decompressed(data),
        Algorithm::Zstd => zstd_decoded(data),
        Algorithm::Zlib => zlib_decoded(data),
        Algorithm::Unknown => None,
    };
    if algorithm == Algorithm::Unknown {
        Err(ArchiveError::UnknownAlgorithm)
    } else {
        match d {
            Some(x) => Ok(x),
            None => Err(ArchiveError::DecompressionFailed),
        }
    }
}

/// The contents of a buffer result.
pub open spec fn result_view(r: Result<Vec<u8>, ArchiveError>) -> Result<Seq<u8>, ArchiveError> {
    match r {
        Ok(v) => Ok(v@),
        Err(e) => Err(e),
    }
}

/// LZ4 compression with the uncompressed size prepended.
pub fn compress_lz4(data: &[u8]) -> (r: Vec<u8>)
    ensures
        r@ == lz4_compressed(data@),
{
    lz4_compress_call(data)
}

/// LZ4 decompression of size-prepended data; `None` when it is not valid.
pub fn decompress_lz4(data: &[u8]) -> (r: Option<Vec<u8>>)
    ensures
        opt_view(r) == lz4_decompressed(data@),
        forall|x: Seq<u8>|
            x.len() <= u32::MAX && #[trigger] lz4_compressed(x) == data@ ==> opt_view(r) == Some(x),
{
    lz4_decompress_call(data)
}

/// Zstandard compression at `level`; `None` when the compressor fails.
pub fn compress_zstd(data: &[u8], level: i32) -> (r: Option<Vec<u8>>)
    ensures
        opt_view(r) == zstd_encoded(data@, level),
{
    zstd_encode_call(data, level)
}

/// Zstandard decompression; `None` when `data` is not a valid frame.
pub fn decompress_zstd(data: &[u8]) -> (r: Option<Vec<u8>>)
    ensures
        opt_view(r) == zstd_decoded(data@),
        forall|x: Seq<u8>, level: i32| #[trigger] zstd_encoded(x, level) == Some(data@) ==> opt_view(r)
            == Some(x),
{
    zstd_decode_call(data)
}

/// zlib compression at `level`, levels above 9 being taken as 9; `None`
/// when the compressor fails.
pub fn compress_zlib(data: &[u8], level: u32) -> (r: Option<Vec<u8>>)
    ensures
        opt_view(r) == zlib_encoded(data@, if level <= 9 { level } else { 9 }),
{
    let l = if level <= 9 { level } else { 9 };
    zlib_encode_call(data, l)
}

/// zlib decompression; `None` when `data` is not a valid stream.
pub fn decompress_zlib(data: &[u8]) -> (r: Option<Vec<u8>>)
    ensures
        opt_view(r) == zlib_decoded(data@),
        forall|x: Seq<u8>, level: u32|
            level <= 9 && #[trigger] zlib_encoded(x, level) == Some(data@) ==> opt_view(r) == Some(x),
{
    zlib_decode_call(data)
}

/// Compresses `data` with `algorithm`; `level` is the Zstandard level, or
/// the zlib level (clamped to 0..=9, negative levels meaning 9).
pub fn compress(data: &[u8], algorithm: Algorithm, level: i32) -> (r: Result<Vec<u8>, ArchiveError>)
    ensures
        result_view(r) == compressed_spec(data@, algorithm, level),
{
    match algorithm {
        Algorithm::Lz4 => Ok(lz4_compress_call(data)),
        Algorithm::Zstd => match zstd_encode_call(data, level) {
            Some(c) => Ok(c),
            None => Err(ArchiveError::CompressionFailed),
        },
        Algorithm::Zlib => {
            let l: u32 = if 0 <= level && level <= 9 {
                level as u32
            } else {
                9
            };
            match zlib_encode_call(data, l) {
                Some(c) => Ok(c),
                None => Err(ArchiveError::CompressionFailed),
            }
        },
        Algorithm::Unknown => Err(ArchiveError::UnknownAlgorithm),
    }
}

/// Decompresses `data` with `algorithm`.  Whatever `compress` produced with
/// the same algorithm (LZ4 inputs of at most `u32::MAX` bytes) comes back
/// unchanged.
pub fn decompress(data: &[u8], algorithm: Algorithm) -> (r: Result<Vec<u8>, ArchiveError>)
    ensures
        result_view(r) == decompressed_spec(data@, algorithm),
        forall|x: Seq<u8>, level: i32|
            (algorithm == Algorithm::Lz4 ==> x.len() <= u32::MAX) && #[trigger] compressed_spec(
                x,
                algorithm,
                level,
            ) == Ok::<Seq<u8>, ArchiveError>(data@) ==> result_view(r) == Ok::<
                Seq<u8>,
                ArchiveError,
            >(x),
{
    let d = match algorithm {
        Algorithm::Lz4 => lz4_decompress_call(data),
        Algorithm::Zstd => zstd_decode_call(data),
        Algorithm::Zlib => zlib_decode_call(data),
        Algorithm::Unknown => {
            return Err(ArchiveError::UnknownAlgorithm);
        },
    };
    match d {
        Some(x) => Ok(x),
        None => Err(ArchiveError::DecompressionFailed),
    }
}

/// The uncompressed and compressed sizes of `data` under `algorithm`.
pub fn compression_stats(data: &[u8], algorithm: Algorithm, level: i32) -> (r: Result<
    (usize, usize),
    ArchiveError,
>)
    ensures
        match compressed_spec(data@, algorithm, level) {
            Ok(c) => r == Ok::<(usize, usize), ArchiveError>((data@.len() as usize, c.len() as usize)),
            Err(e) => r == Err::<(usize, usize), ArchiveError>(e),
        },
{
    let plain_len = data.len();
    match compress(data, algorithm, level) {
        Ok(c) => Ok((plain_len, c.len())),
        Err(e) => Err(e),
    }
}

} // verus!
