//! The ways in which decoding a stream can fail.
use vstd::prelude::*;

verus! {

/// Why a stream, block or record could not be decoded. Every failure is final
/// for the stream it came from.
#[derive(Clone, Copy, Debug, PartialEq, Eq)]
pub enum OsmError {
    /// The input ended inside a frame.
    Truncated,
    /// A header or a payload is larger than the format allows.
    SizeLimitExceeded,
    /// A decompressed payload does not have its declared size.
    SizeMismatch,
    /// A compressed payload could not be decompressed.
    DecompressionFailed,
    /// The payload's encoding or the block's kind is not one this library reads.
    UnsupportedEncoding,
    /// A record is malformed: bad wire data, a missing required field, columns
    /// of unequal length, an index out of range, an unsupported offset, or a
    /// running sum that leaves the signed 64-bit range.
    SchemaViolation,
}

} // verus!
