//! Decode errors surfaced while turning encoded pages into arrays.

use vstd::prelude::*;

verus! {

/// Everything that can go wrong while decoding a page.
///
/// Malformed-encoding errors cover exhausted or truncated value streams,
/// dictionary indices out of bounds, and length/byte-slab mismatches in the
/// delta encodings. Invalid UTF-8 in a string-typed column is a distinct
/// error. Source exhaustion before the row budget is met is not an error.
#[derive(Clone, Copy, Debug, PartialEq, Eq, Structural)]
pub enum DecodeError {
    /// The value, index, or length stream ended before the requested rows.
    ExhaustedValues,
    /// A plain-encoded value declares more bytes than the stream holds.
    TruncatedValue,
    /// A dictionary index is not below the dictionary's length.
    OutOfBoundsIndex,
    /// The shared byte slab is shorter than the declared value lengths.
    SlabTooShort,
    /// A shared-prefix length exceeds the previous value's length.
    PrefixTooLong,
    /// The null-run descriptor holds fewer rows than requested.
    ExhaustedValidity,
    /// The accumulated value bytes exceed what the offset width can index.
    OffsetOverflow,
    /// A string-typed range of decoded bytes is not valid UTF-8.
    InvalidUtf8,
    /// A dictionary-encoded data page arrived before any dictionary page.
    MissingDictionary,
}

} // verus!
