//! The compression gateway: a thin verified front over the three
//! DEFLATE-family stream formats.  The codec itself is an outside
//! collaborator; each call stands behind a trusted wrapper whose contract
//! names its result, and the named results are tied together by the
//! documented lossless round trip.

use std::io::Write;
use vstd::prelude::*;

verus! {

/// The three DEFLATE-family stream formats: zlib-wrapped, gzip-wrapped,
/// and headerless raw deflate.
#[derive(Debug, Clone, Copy, PartialEq, Eq, Structural)]
pub enum CompressionFormat {
    Deflate,
    Gzip,
    DeflateRaw,
}

/// Failure of the underlying codec, reported as a value.
#[derive(Debug, Clone, Copy, PartialEq, Eq, Structural)]
pub struct CompressionError;

/// The zlib-wrapped deflate stream of a byte sequence at the default
/// compression level.
pub uninterp spec fn zlib_deflate_of(data: Seq<u8>) -> Seq<u8>;

/// What inflating a zlib-wrapped stream yields, if it is well-formed.
pub uninterp spec fn zlib_inflate_of(data: Seq<u8>) -> Option<Seq<u8>>;

/// The gzip-wrapped deflate stream of a byte sequence at the default
/// compression level.
pub uninterp spec fn gzip_deflate_of(data: Seq<u8>) -> Seq<u8>;

/// What un-gzipping a stream yields, if it is well-formed.
pub uninterp spec fn gzip_inflate_of(data: Seq<u8>) -> Option<Seq<u8>>;

/// The headerless deflate stream of a byte sequence at the default
/// compression level.
pub uninterp spec fn raw_deflate_of(data: Seq<u8>) -> Seq<u8>;

/// What inflating a headerless deflate stream yields, if well-formed.
pub uninterp spec fn raw_inflate_of(data: Seq<u8>) -> Option<Seq<u8>>;

/// Relies on flate2's `ZlibEncoder` over a `Vec` sink: a `Vec`'s `Write`
/// impl never fails and a fresh encoder at the default level never
/// errors, so compression always succeeds; the result is the zlib stream
/// of the input, and `ZlibDecoder` inverts it losslessly.
#[verifier::external_body]
fn zlib_compress(data: &[u8]) -> (r: Result<Vec<u8>, CompressionError>)
    ensures
        r is Ok,
        r matches Ok(v) ==> v@ == zlib_deflate_of(data@) && zlib_inflate_of(v@) == Some(data@),
{
    let mut encoder = flate2::write::ZlibEncoder::new(Vec::new(), flate2::Compression::default());
    encoder.write_all(data).map_err(|_| CompressionError)?;
    encoder.finish().map_err(|_| CompressionError)
}

/// Relies on flate2's `ZlibDecoder` over a `Vec` sink: it returns the
/// bytes the stream encodes, or fails on a malformed stream.
#[verifier::external_body]
fn zlib_decompress(data: &[u8]) -> (r: Result<Vec<u8>, CompressionError>)
    ensures
        r matches Ok(v) ==> zlib_inflate_of(data@) == Some(v@),
        r matches Err(_) ==> zlib_inflate_of(data@) is None,
{
    let mut decoder = flate2::write::ZlibDecoder::new(Vec::new());
    decoder.write_all(data).map_err(|_| CompressionError)?;
    decoder.finish().map_err(|_| CompressionError)
}

/// Relies on flate2's `GzEncoder` over a `Vec` sink, as `zlib_compress`
/// relies on `ZlibEncoder`; the gzip header is written with fixed fields
/// (zero mtime, unknown OS), so the stream too is a function of the
/// input bytes alone and compression always succeeds.
#[verifier::external_body]
fn gzip_compress(data: &[u8]) -> (r: Result<Vec<u8>, CompressionError>)
    ensures
        r is Ok,
        r matches Ok(v) ==> v@ == gzip_deflate_of(data@) && gzip_inflate_of(v@) == Some(data@),
{
    let mut encoder = flate2::write::GzEncoder::new(Vec::new(), flate2::Compression::default());
    encoder.write_all(data).map_err(|_| CompressionError)?;
    encoder.finish().map_err(|_| CompressionError)
}

/// Relies on flate2's `GzDecoder` over a `Vec` sink, as
/// `zlib_decompress` relies on `ZlibDecoder`.
#[verifier::external_body]
fn gzip_decompress(data: &[u8]) -> (r: Result<Vec<u8>, CompressionError>)
    ensures
        r matches Ok(v) ==> gzip_inflate_of(data@) == Some(v@),
        r matches Err(_) ==> gzip_inflate_of(data@) is None,
{
    let mut decoder = flate2::write::GzDecoder::new(Vec::new());
    decoder.write_all(data).map_err(|_| CompressionError)?;
    decoder.finish().map_err(|_| CompressionError)
}

/// Relies on flate2's `DeflateEncoder` over a `Vec` sink, as
/// `zlib_compress` relies on `ZlibEncoder`: compression always succeeds.
#[verifier::external_body]
fn raw_compress(data: &[u8]) -> (r: Result<Vec<u8>, CompressionError>)
    ensures
        r is Ok,
        r matches Ok(v) ==> v@ == raw_deflate_of(data@) && raw_inflate_of(v@) == Some(data@),
{
    let mut encoder = flate2::write::DeflateEncoder::new(
        Vec::new(),
        flate2::Compression::default(),
    );
    encoder.write_all(data).map_err(|_| CompressionError)?;
    encoder.finish().map_err(|_| CompressionError)
}

/// Relies on flate2's `DeflateDecoder` over a `Vec` sink, as
/// `zlib_decompress` relies on `ZlibDecoder`.
#[verifier::external_body]
fn raw_decompress(data: &[u8]) -> (r: Result<Vec<u8>, CompressionError>)
    ensures
        r matches Ok(v) ==> raw_inflate_of(data@) == Some(v@),
        r matches Err(_) ==> raw_inflate_of(data@) is None,
{
    let mut decoder = flate2::write::DeflateDecoder::new(Vec::new());
    decoder.write_all(data).map_err(|_| CompressionError)?;
    decoder.finish().map_err(|_| CompressionError)
}

/// The compressed stream of `data` under `format`.
pub open spec fn spec_compress(data: Seq<u8>, format: CompressionFormat) -> Seq<u8> {
    match format {
        CompressionFormat::Deflate => zlib_deflate_of(data),
        CompressionFormat::Gzip => gzip_deflate_of(data),
        CompressionFormat::DeflateRaw => raw_deflate_of(data),
    }
}

/// What decompressing `data` under `format` yields, if it succeeds.
pub open spec fn spec_decompress(data: Seq<u8>, format: CompressionFormat) -> Option<Seq<u8>> {
    match format {
        CompressionFormat::Deflate => zlib_inflate_of(data),
        CompressionFormat::Gzip => gzip_inflate_of(data),
        CompressionFormat::DeflateRaw => raw_inflate_of(data),
    }
}

/// Compresses a byte buffer under the chosen stream format.  It always
/// succeeds: the result is the format's stream of the input, and
/// decompressing it under the same format gives the input back.
pub fn compress(data: &[u8], format: CompressionFormat) -> (r: Result<Vec<u8>, CompressionError>)
    ensures
        r matches Ok(v) && v@ == spec_compress(data@, format) && spec_decompress(v@, format)
            == Some(data@),
{
    match format {
        CompressionFormat::Deflate => zlib_compress(data),
        CompressionFormat::Gzip => gzip_compress(data),
        CompressionFormat::DeflateRaw => raw_compress(data),
    }
}

/// Decompresses a byte buffer under the chosen stream format; it
/// succeeds exactly on the streams the format can decode, and returns
/// the bytes the stream encodes.
pub fn decompress(data: &[u8], format: CompressionFormat) -> (r: Result<Vec<u8>, CompressionError>)
    ensures
        r matches Ok(v) ==> spec_decompress(data@, format) == Some(v@),
        r matches Err(_) ==> spec_decompress(data@, format) is None,
{
    match format {
        CompressionFormat::Deflate => zlib_decompress(data),
        CompressionFormat::Gzip => gzip_decompress(data),
        CompressionFormat::DeflateRaw => raw_decompress(data),
    }
}

} // verus!
