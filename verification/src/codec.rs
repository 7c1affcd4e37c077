//! Decompression of gzip and zlib streams, through flate2.
//!
//! Readers of the original stream stop at the first decoding error; what they
//! see is the output that the decoder produced before it. These functions
//! return exactly that output.

use vstd::prelude::*;

verus! {

/// The bytes that reading flate2's gzip decoder over `data` to the end leaves
/// in the output: all of the first gzip member when it decodes, else what
/// the reads before the failing one produced.
pub uninterp spec fn spec_gunzip(data: Seq<u8>) -> Seq<u8>;

/// The bytes that reading flate2's zlib decoder over `data` to the end leaves
/// in the output: the whole stream when it decodes, else what the reads
/// before the failing one produced.
pub uninterp spec fn spec_inflate_zlib(data: Seq<u8>) -> Seq<u8>;

/// `flate2::read::GzDecoder` read with `read_to_end`, which keeps the bytes
/// of the reads that succeeded before an error (not those of the failing
/// read); the error itself is dropped. Nothing more is stated: the DEFLATE
/// algorithm is flate2's.
#[verifier::external_body]
pub(crate) fn gunzip(data: &[u8]) -> (r: Vec<u8>)
    ensures
        r@ == spec_gunzip(data@),
{
    let mut out = Vec::new();
    let _ = std::io::Read::read_to_end(&mut flate2::read::GzDecoder::new(data), &mut out);
    out
}

/// `flate2::read::ZlibDecoder` read with `read_to_end`, keeping the bytes of
/// the reads that succeeded before an error. Nothing more is stated: the
/// algorithm is flate2's.
#[verifier::external_body]
pub(crate) fn inflate_zlib(data: &[u8]) -> (r: Vec<u8>)
    ensures
        r@ == spec_inflate_zlib(data@),
{
    let mut out = Vec::new();
    let _ = std::io::Read::read_to_end(&mut flate2::read::ZlibDecoder::new(data), &mut out);
    out
}

} // verus!
