//! Errors of the loader.

use vstd::prelude::*;

verus! {

/// Why an LZ4 block could not be decoded.
#[derive(Debug, Clone, Copy, PartialEq, Eq, Structural)]
pub enum Lz4Error {
    /// The decoded data does not fit in the output of the given size.
    OutputTooSmall { expected: usize, actual: usize },
    /// A literal reaches past the end of the input.
    LiteralOutOfBounds,
    /// The input ended where another byte was expected.
    ExpectedAnotherByte,
    /// A match has offset 0.
    OffsetZero,
    /// A match reaches before the start of the decoded data.
    OffsetOutOfBounds,
    /// A reason the decoder added after these.
    Other,
}

/// Why a file is not a well-formed NSO image.
#[derive(Debug, Clone, Copy, PartialEq, Eq, Structural)]
pub enum FormatError {
    /// The file is shorter than the 0x100-byte header.
    HeaderTooSmall,
    /// The first four bytes are not the NSO magic.
    InvalidMagic,
    /// A compressed segment reaches past the end of the file.
    CompressedSegmentOutOfBounds,
    /// An uncompressed segment reaches past the end of the file.
    UncompressedSegmentOutOfBounds,
    /// The LZ4 block of a segment could not be decompressed.
    DecompressionFailed(Lz4Error),
}

/// Errors of the loader.
#[derive(Debug, Clone, Copy, PartialEq, Eq, Structural)]
pub enum Error {
    /// The input is not a well-formed NSO image.
    InvalidFormat(FormatError),
    /// A virtual address lies in none of the image's segments.
    AddressNotMapped(u64),
    /// A read or write went past the end of the stream.
    EndOfStream,
}

} // verus!
