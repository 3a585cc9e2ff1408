//! The zlib boundary: loose objects and pack records hold deflated bytes,
//! and the store logic only ever sees them through these two calls.

use std::io::Read;
use std::io::Write;

use vstd::prelude::*;

use crate::errors::ObjectStoreError;

verus! {

/// What zlib inflation yields for a byte sequence: the inflated bytes, or
/// `None` for a stream the decoder rejects.
pub uninterp spec fn inflate_of(s: Seq<u8>) -> Option<Seq<u8>>;

/// The stream zlib deflation produces for a byte sequence, at the default
/// compression level.
pub uninterp spec fn deflate_of(s: Seq<u8>) -> Seq<u8>;

/// Relies on flate2's `ZlibEncoder`: the stream depends on the input bytes
/// alone, and inflating it gives the original bytes back.
#[verifier::external_body]
pub(crate) fn zlib_deflate(data: &Vec<u8>) -> (r: Vec<u8>)
    ensures
        r@ == deflate_of(data@),
        inflate_of(r@) == Some(data@),
{
    let mut enc = flate2::write::ZlibEncoder::new(Vec::new(), flate2::Compression::default());
    enc.write_all(&data[..]).unwrap();
    enc.finish().unwrap()
}

/// Relies on flate2's `ZlibDecoder`: what inflation returns depends on the
/// input bytes alone, and rejected streams fail.
#[verifier::external_body]
pub(crate) fn zlib_inflate(data: &Vec<u8>) -> (r: Result<Vec<u8>, ObjectStoreError>)
    ensures
        match r {
            Ok(v) => inflate_of(data@) == Some(v@),
            Err(e) => e is CompressionError && inflate_of(data@) is None,
        },
{
    let mut dec = flate2::bufread::ZlibDecoder::new(&data[..]);
    let mut out = Vec::new();
    match dec.read_to_end(&mut out) {
        Ok(_) => Ok(out),
        Err(_) => Err(ObjectStoreError::CompressionError),
    }
}

} // verus!
