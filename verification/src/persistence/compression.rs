//! LZ4 compression of save-file payloads (size-prepended block format).
use lz4_flex::block::DecompressError;
use vstd::prelude::*;

use super::bytes::le_value;

verus! {

/// The error `lz4_flex` reports for malformed compressed data.
#[verifier::external_type_specification]
#[verifier::external_body]
pub struct ExDecompressError(DecompressError);

/// What `lz4_flex::compress_prepend_size` produces for `data`.
pub uninterp spec fn lz4_compressed(data: Seq<u8>) -> Seq<u8>;

/// What `lz4_flex::decompress_size_prepended` produces for `data`, or `None`
/// where it reports an error.
pub uninterp spec fn lz4_decompressed(data: Seq<u8>) -> Option<Seq<u8>>;

/// Calls `lz4_flex::compress_prepend_size`.
///
/// Trusted: the result is the crate's compressed block for `data`, behind a
/// four-byte little-endian copy of `data`'s length (the crate writes
/// `data.len() as u32`). The crate allocates
/// `get_maximum_output_size(len) + 4` bytes, that is
/// `16 + 4 + len * 110 / 100 + 4`, and truncates the result to what it
/// wrote, so the result is no longer (stated where that size does not
/// overflow `usize`).
#[verifier::external_body]
pub(crate) fn compress_lz4(data: &[u8]) -> (r: Vec<u8>)
    ensures
        r@ == lz4_compressed(data@),
        r@.len() >= 4,
        le_value(r@.subrange(0, 4)) == data@.len() % 0x1_0000_0000,
        data@.len() * 110 <= usize::MAX ==> r@.len() <= 24 + data@.len() * 110 / 100,
{
    lz4_flex::compress_prepend_size(data)
}

/// Calls `lz4_flex::decompress_size_prepended`.
///
/// Trusted: `Ok` carries the crate's decompression of `data`; an input of
/// fewer than four bytes is an error; and, as the crate documents it as the
/// inverse of `compress_prepend_size`, decompressing what that function
/// produced for at most `u32::MAX` bytes gives those bytes back. The crate
/// allocates the size the input's prefix announces before decompressing;
/// whether the machine can satisfy that allocation is not covered here.
#[verifier::external_body]
pub(crate) fn decompress_lz4(data: &[u8]) -> (r: Result<Vec<u8>, DecompressError>)
    ensures
        r matches Ok(v) ==> lz4_decompressed(data@) == Some(v@),
        r is Err ==> lz4_decompressed(data@) is None,
        data@.len() < 4 ==> r is Err,
        r is Err ==> forall|orig: Seq<u8>| orig.len() <= u32::MAX ==> data@ != lz4_compressed(orig),
        r matches Ok(v) ==> forall|orig: Seq<u8>| orig.len() <= u32::MAX && data@ == lz4_compressed(orig) ==> v@ == orig,
{
    lz4_flex::decompress_size_prepended(data)
}

} // verus!
