//! Compression of segment blocks.

use vstd::prelude::*;

use crate::error::Error;

verus! {

/// Compression level handed to the encoder.
pub const ZSTD_COMPRESSION_LEVEL: i32 = 3;

/// What the zstd encoder, at the fixed level, makes of a byte string: a
/// pure function of the bytes, computed by an outside crate.
pub uninterp spec fn zstd_compress_of(data: Seq<u8>) -> Seq<u8>;

/// What the zstd decoder makes of a byte string: the decompressed bytes,
/// or nothing where the input is no frame it can decode. A pure function
/// of the bytes.
pub uninterp spec fn zstd_decompress_of(data: Seq<u8>) -> Option<Seq<u8>>;

/// Relies on zstd's `encode_all` at the fixed level: the output depends
/// on the input bytes alone, and, compression being lossless, decoding
/// the output gives the input back.
#[verifier::external_body]
pub fn zstd_compress(data: &[u8]) -> (r: Result<Vec<u8>, Error>)
    ensures
        r matches Ok(v) ==> v@ == zstd_compress_of(data@) && zstd_decompress_of(v@) == Some(
            data@,
        ),
        r matches Err(e) ==> e is Storage,
{
    match zstd::encode_all(data, ZSTD_COMPRESSION_LEVEL) {
        Ok(v) => Ok(v),
        Err(e) => Err(Error::Storage(format!("ZSTD compression failed: {}", e))),
    }
}

/// Relies on zstd's `decode_all`: whether it succeeds, and with what
/// bytes, depends on the input bytes alone.
#[verifier::external_body]
pub fn zstd_decompress(data: &[u8]) -> (r: Result<Vec<u8>, Error>)
    ensures
        r matches Ok(v) ==> zstd_decompress_of(data@) == Some(v@),
        r is Err ==> zstd_decompress_of(data@) is None,
        r matches Err(e) ==> e is Storage,
{
    match zstd::decode_all(data) {
        Ok(v) => Ok(v),
        Err(e) => Err(Error::Storage(format!("ZSTD decompression failed: {}", e))),
    }
}

} // verus!
