//! The LZ4 block decoder of `lz4_flex`, as the loader calls it.

use vstd::prelude::*;

use lz4_flex::block::DecompressError;

use crate::error::Lz4Error;

verus! {

/// What `lz4_flex::block::decompress(input, min_uncompressed_size)` returns:
/// the decoded bytes, or the reason it gives for failing.
pub uninterp spec fn lz4_block_decompressed(input: Seq<u8>, min_uncompressed_size: usize) -> Result<
    Seq<u8>,
    Lz4Error,
>;

/// Calls `lz4_flex::block::decompress`, which decodes one LZ4 block into a
/// fresh vector of at most `min_uncompressed_size` bytes, and gives each variant
/// of its `DecompressError` as the `Lz4Error` of the same name. Claimed: the
/// result is a function of the two arguments alone (`lz4_block_decompressed`).
/// With the crate's default features (`safe-decode`, `checked-decode`) an output
/// larger than the given size is reported as `OutputTooSmall` rather than by a
/// panic.
#[verifier::external_body]
pub(crate) fn lz4_decompress(input: &[u8], min_uncompressed_size: usize) -> (r: Result<
    Vec<u8>,
    Lz4Error,
>)
    ensures
        match r {
            Ok(v) => lz4_block_decompressed(input@, min_uncompressed_size) == Ok::<Seq<u8>, Lz4Error>(v@),
            Err(e) => lz4_block_decompressed(input@, min_uncompressed_size) == Err::<Seq<u8>, Lz4Error>(e),
        },
{
    match lz4_flex::block::decompress(input, min_uncompressed_size) {
        Ok(v) => Ok(v),
        Err(DecompressError::OutputTooSmall { expected, actual }) => {
            Err(Lz4Error::OutputTooSmall { expected, actual })
        },
        Err(DecompressError::LiteralOutOfBounds) => Err(Lz4Error::LiteralOutOfBounds),
        Err(DecompressError::ExpectedAnotherByte) => Err(Lz4Error::ExpectedAnotherByte),
        Err(DecompressError::OffsetZero) => Err(Lz4Error::OffsetZero),
        Err(DecompressError::OffsetOutOfBounds) => Err(Lz4Error::OffsetOutOfBounds),
        Err(_) => Err(Lz4Error::Other),
    }
}

} // verus!
