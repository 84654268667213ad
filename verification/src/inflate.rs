//! Raw DEFLATE decompression, done by `miniz_oxide`.
use vstd::prelude::*;

verus! {

/// What `miniz_oxide::inflate::decompress_to_vec_with_limit` gives for a raw DEFLATE
/// stream and an output limit: the decompressed bytes, or `None` where it fails.
pub uninterp spec fn inflated_with_limit(input: Seq<u8>, max_size: usize) -> Option<Seq<u8>>;

/// What `miniz_oxide::inflate::decompress_slice_iter_to_slice` writes for a raw DEFLATE
/// stream given in one slice, without a zlib header, into an output buffer of
/// `capacity` bytes: the bytes written, or `None` where it fails.
pub uninterp spec fn inflated_into(input: Seq<u8>, capacity: nat) -> Option<Seq<u8>>;

/// Calls `miniz_oxide::inflate::decompress_to_vec_with_limit`. Trusted: the result is the
/// named function of the input and the limit, and (as the crate documents) a vector it
/// returns holds at most `max_size` bytes.
#[verifier::external_body]
pub(crate) fn inflate_to_vec(input: &[u8], max_size: usize) -> (r: Option<Vec<u8>>)
    ensures
        r is Some <==> inflated_with_limit(input@, max_size) is Some,
        r matches Some(v) ==> v@ == inflated_with_limit(input@, max_size).unwrap() && v@.len()
            <= max_size,
{
    miniz_oxide::inflate::decompress_to_vec_with_limit(input, max_size).ok()
}

/// Calls `miniz_oxide::inflate::decompress_slice_iter_to_slice` with `input` as the only
/// slice, no zlib header and no checksum to skip. Trusted: it returns the number of bytes
/// that it wrote at the start of `out`, those bytes are the named function of the input
/// and the size of `out`, and it fails exactly where that function is `None`. Both this
/// function and `decompress_to_vec_with_limit` run the crate's `inflate::core::decompress`
/// on a raw DEFLATE stream into a non-wrapping output buffer, which only stops early when
/// it has a byte to write and no room; so where `decompress_to_vec_with_limit` inflates
/// the stream within a limit that `out` can hold, this call gives the same bytes. What it
/// leaves in `out` after the written bytes, or after a failure, is not stated.
#[verifier::external_body]
pub(crate) fn inflate_to_slice(out: &mut [u8], input: &[u8]) -> (r: Option<usize>)
    ensures
        final(out)@.len() == old(out)@.len(),
        r is Some <==> inflated_into(input@, old(out)@.len()) is Some,
        r matches Some(n) ==> n <= old(out)@.len() && final(out)@.take(n as int)
            == inflated_into(input@, old(out)@.len()).unwrap(),
        forall|lim: usize|
            #![trigger inflated_with_limit(input@, lim)]
            inflated_with_limit(input@, lim) is Some && lim <= old(out)@.len() ==> (r matches Some(
                n,
            ) && n == inflated_with_limit(input@, lim).unwrap().len() && final(out)@.take(n as int)
                == inflated_with_limit(input@, lim).unwrap()),
{
    miniz_oxide::inflate::decompress_slice_iter_to_slice(out, core::iter::once(input), false, false).ok()
}

} // verus!
