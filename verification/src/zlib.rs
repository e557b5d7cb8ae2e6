//! The codec's only outside calls: zlib compression and zlib/gzip
//! decompression, provided by the flate2 crate. Each stream transform is a
//! pure function of its input bytes, so the contracts name the results and
//! the rest of the library reasons over those names.

use std::io::{Read, Write};
use vstd::prelude::*;

use crate::chunk::RegionError;

verus! {

/// The zlib stream that compressing `data` at the encoder's highest setting
/// produces.
pub uninterp spec fn zlib_of(data: Seq<u8>) -> Seq<u8>;

/// The bytes that decoding the zlib stream `data` yields.
pub uninterp spec fn zlib_inflate_of(data: Seq<u8>) -> Seq<u8>;

/// The bytes that decoding the gzip stream `data` yields.
pub uninterp spec fn gzip_inflate_of(data: Seq<u8>) -> Seq<u8>;

/// Relies on flate2::write::ZlibEncoder at Compression::best() writing into a
/// Vec: the compressed stream is a function of the input bytes alone, and the
/// encode cannot fail. The encoder surfaces failures only from its sink --
/// infallible for a Vec -- or as a compressor error status, which a fresh
/// deflate session at a fixed valid level never reports.
#[verifier::external_body]
pub(crate) fn zlib_compress(data: &[u8]) -> (r: Vec<u8>)
    ensures
        r@ == zlib_of(data@),
{
    let mut encoder = flate2::write::ZlibEncoder::new(Vec::new(), flate2::Compression::best());
    encoder.write_all(data).expect("writing into a Vec cannot fail");
    encoder.finish().expect("writing into a Vec cannot fail")
}

/// Relies on flate2::read::ZlibDecoder: reading the decoder to its end yields
/// the decompressed bytes, a corrupt stream is rejected with an error, and
/// decoding a stream that the zlib encoder produced gives the encoder's input
/// back.
#[verifier::external_body]
pub(crate) fn zlib_decompress(data: &[u8]) -> (r: Result<Vec<u8>, RegionError>)
    ensures
        r matches Ok(v) ==> v@ == zlib_inflate_of(data@),
        r matches Err(e) ==> e == RegionError::DecompressionFailed,
        r is Err ==> forall|d: Seq<u8>| data@ != zlib_of(d),
        r matches Ok(v) ==> forall|d: Seq<u8>| data@ == zlib_of(d) ==> v@ == d,
{
    let mut decoder = flate2::read::ZlibDecoder::new(data);
    let mut out: Vec<u8> = Vec::new();
    match decoder.read_to_end(&mut out) {
        Ok(_) => Ok(out),
        Err(_) => Err(RegionError::DecompressionFailed),
    }
}

/// Relies on flate2::read::GzDecoder: reading the decoder to its end yields
/// the decompressed bytes, and a corrupt stream is rejected with an error.
#[verifier::external_body]
pub(crate) fn gzip_decompress(data: &[u8]) -> (r: Result<Vec<u8>, RegionError>)
    ensures
        r matches Ok(v) ==> v@ == gzip_inflate_of(data@),
        r matches Err(e) ==> e == RegionError::DecompressionFailed,
{
    let mut decoder = flate2::read::GzDecoder::new(data);
    let mut out: Vec<u8> = Vec::new();
    match decoder.read_to_end(&mut out) {
        Ok(_) => Ok(out),
        Err(_) => Err(RegionError::DecompressionFailed),
    }
}

} // verus!
