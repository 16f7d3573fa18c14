//! Deterministic block compression used for the canonical piece form.

use vstd::prelude::*;

verus! {

/// Largest input length the block codec accepts.
pub const MAX_COMPRESS_INPUT: usize = 0x7E000000;

/// The compressed form of a byte sequence, for the fixed default compression
/// mode with a length prefix. Compression is deterministic: the result is a
/// pure function of the input bytes, which is all that is stated here.
pub uninterp spec fn compressed_of(data: Seq<u8>) -> Seq<u8>;

/// Relies on lz4::block::compress (default mode, size prepended): the output
/// depends on the input bytes alone, and compression succeeds for any input
/// no longer than `LZ4_MAX_INPUT_SIZE` (0x7E000000 bytes) since the output
/// buffer is sized to `LZ4_compressBound`.
#[verifier::external_body]
pub(crate) fn compress_block(data: &[u8]) -> (r: Option<Vec<u8>>)
    ensures
        r matches Some(c) ==> c@ == compressed_of(data@),
        data@.len() <= MAX_COMPRESS_INPUT ==> r is Some,
{
    lz4::block::compress(data, None, true).ok()
}

/// Relies on lz4::block::decompress: decompressing the output of
/// lz4::block::compress (with its prepended size) yields the original input.
#[verifier::external_body]
pub(crate) fn decompress_block(data: &[u8]) -> (r: Option<Vec<u8>>)
    ensures
        r matches Some(d) ==> forall|orig: Seq<u8>| data@ == compressed_of(orig) ==> d@ == orig,
        r is None ==> forall|orig: Seq<u8>| data@ != compressed_of(orig),
{
    lz4::block::decompress(data, None).ok()
}

} // verus!
