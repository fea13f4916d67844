//! Decompression of raw deflate streams by `miniz_oxide`.

use vstd::prelude::*;

verus! {

/// What `miniz_oxide::inflate::decompress_to_vec` gives for a deflate stream:
/// the decompressed bytes, or `None` where it reports an error.
pub uninterp spec fn inflated(data: Seq<u8>) -> Option<Seq<u8>>;

/// `miniz_oxide::inflate::decompress_to_vec`: decompresses a raw deflate stream
/// (no zlib header). Its result depends on the input alone; it is named, not stated.
#[verifier::external_body]
pub(crate) fn inflate(data: &[u8]) -> (r: Option<Vec<u8>>)
    ensures
        r is Some <==> inflated(data@) is Some,
        r matches Some(v) ==> inflated(data@) == Some(v@),
{
    miniz_oxide::inflate::decompress_to_vec(data).ok()
}

} // verus!
