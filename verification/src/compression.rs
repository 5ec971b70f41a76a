use vstd::prelude::*;

use crate::error::{DecodeFailure, DecodingError, EncodeFailure, EncodingError};

verus! {

use vstd::string::StringExecFns;

/// The closed set of byte transforms a container version can select.
#[derive(Clone, Copy, Debug)]
pub enum CompressionFormat {
    Stored,
    Zlib,
    Zstd,
}

/// What flate2's zlib encoder produces for the given input, `None` when the
/// encoder reports an error. Deterministic: a function of the bytes alone.
pub uninterp spec fn zlib_compress_of(s: Seq<u8>) -> Option<Seq<u8>>;

/// What flate2's zlib decoder produces for the given stream, `None` when the
/// stream is not a well-formed zlib stream.
pub uninterp spec fn zlib_decompress_of(s: Seq<u8>) -> Option<Seq<u8>>;

/// What zstd's encoder at the default level produces for the given input.
pub uninterp spec fn zstd_compress_of(s: Seq<u8>) -> Option<Seq<u8>>;

/// What zstd's decoder produces for the given stream, `None` when the stream
/// is not a well-formed zstd stream.
pub uninterp spec fn zstd_decompress_of(s: Seq<u8>) -> Option<Seq<u8>>;

/// The compressed bytes for `s` under `f`; `None` is the identity transform.
pub open spec fn spec_compress(s: Seq<u8>, f: CompressionFormat) -> Option<Seq<u8>> {
    match f {
        CompressionFormat::Stored => Some(s),
        CompressionFormat::Zlib => zlib_compress_of(s),
        CompressionFormat::Zstd => zstd_compress_of(s),
    }
}

/// The decompressed bytes for `s` under `f`; `None` is the identity transform.
pub open spec fn spec_decompress(s: Seq<u8>, f: CompressionFormat) -> Option<Seq<u8>> {
    match f {
        CompressionFormat::Stored => Some(s),
        CompressionFormat::Zlib => zlib_decompress_of(s),
        CompressionFormat::Zstd => zstd_decompress_of(s),
    }
}

/// Relies on flate2's `read::ZlibEncoder` at `Compression::best`: the encoded
/// stream is a function of the input bytes alone, flate2's own decoder
/// inflates it back to exactly the input, and compressing from an in-memory
/// slice cannot fail (the only error source is the underlying reader, and a
/// slice read never fails).
#[verifier::external_body]
fn compress_zlib(data: &[u8]) -> (r: Option<Vec<u8>>)
    ensures
        r is Some,
        r matches Some(v) ==> zlib_compress_of(data@) == Some(v@) && zlib_decompress_of(v@)
            == Some(data@),
{
    let mut buf = vec![];
    let mut encoder = flate2::read::ZlibEncoder::new(data, flate2::Compression::best());
    match std::io::Read::read_to_end(&mut encoder, &mut buf) {
        Ok(_) => Some(buf),
        Err(_) => None,
    }
}

/// Relies on flate2's `read::ZlibDecoder`: whether a stream inflates, and to
/// what, is a function of the stream bytes alone.
#[verifier::external_body]
fn decompress_zlib(data: &[u8]) -> (r: Option<Vec<u8>>)
    ensures
        match r {
            Some(v) => zlib_decompress_of(data@) == Some(v@),
            None => zlib_decompress_of(data@) is None,
        },
{
    let mut buf = vec![];
    let mut decoder = flate2::read::ZlibDecoder::new(data);
    match std::io::Read::read_to_end(&mut decoder, &mut buf) {
        Ok(_) => Some(buf),
        Err(_) => None,
    }
}

/// Relies on zstd's `encode_all` at the default level: the encoded stream is
/// a function of the input bytes alone, zstd's own decoder inflates it back
/// to exactly the input, and encoding from an in-memory slice at the default
/// level cannot fail.
#[verifier::external_body]
fn compress_zstd(data: &[u8]) -> (r: Option<Vec<u8>>)
    ensures
        r is Some,
        r matches Some(v) ==> zstd_compress_of(data@) == Some(v@) && zstd_decompress_of(v@)
            == Some(data@),
{
    match zstd::encode_all(data, 0) {
        Ok(v) => Some(v),
        Err(_) => None,
    }
}

/// Relies on zstd's `decode_all`: whether a stream inflates, and to what, is
/// a function of the stream bytes alone.
#[verifier::external_body]
fn decompress_zstd(data: &[u8]) -> (r: Option<Vec<u8>>)
    ensures
        match r {
            Some(v) => zstd_decompress_of(data@) == Some(v@),
            None => zstd_decompress_of(data@) is None,
        },
{
    match zstd::decode_all(data) {
        Ok(v) => Some(v),
        Err(_) => None,
    }
}

/// Decompress `data` with the algorithm selected by `format`.
/// A malformed stream is reported as a distinct decompression error; the
/// caller owns the entry context and substitutes its own identifier/offset.
pub fn decompress(data: &[u8], format: CompressionFormat) -> (r: Result<Vec<u8>, DecodingError>)
    ensures
        match r {
            Ok(v) => spec_decompress(data@, format) == Some(v@),
            Err(e) => spec_decompress(data@, format) is None && e.kind() == (
            DecodeFailure::Decompress { identifier: 0, offset: 0 }),
        },
{
    let out = match format {
        CompressionFormat::Stored => Some(vstd::slice::slice_to_vec(data)),
        CompressionFormat::Zlib => decompress_zlib(data),
        CompressionFormat::Zstd => decompress_zstd(data),
    };
    match out {
        Some(v) => Ok(v),
        None => Err(DecodingError::DecompressError { identifier: 0, offset: 0 }),
    }
}

/// Compress `data` with the algorithm selected by `format`: this always
/// succeeds, and decompressing the compressed bytes with the same algorithm
/// yields the input back — the one promise the container round trip rests
/// on.
pub fn compress(data: &[u8], format: CompressionFormat) -> (r: Result<Vec<u8>, EncodingError>)
    ensures
        r matches Ok(v) && spec_compress(data@, format) == Some(v@) && spec_decompress(v@, format)
            == Some(data@),
{
    let out = match format {
        CompressionFormat::Stored => Some(vstd::slice::slice_to_vec(data)),
        CompressionFormat::Zlib => compress_zlib(data),
        CompressionFormat::Zstd => compress_zstd(data),
    };
    match out {
        Some(v) => Ok(v),
        None => Err(EncodingError::IOError(String::from_str("compression failed"))),
    }
}

} // verus!
