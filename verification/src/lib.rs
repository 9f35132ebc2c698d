//! Streaming decoder for Parquet binary/string column pages.
//!
//! Encoded pages (plain, dictionary, delta-length-byte-array,
//! delta-byte-array) are decoded into contiguous columnar arrays of
//! variable-length byte values, with an optional per-row validity mask,
//! batched UTF-8 validation for string-typed columns, and a resumable
//! chunked iterator bounded by a total row budget.

pub mod error;
pub mod utf8;
pub mod buffer;
pub mod cursor;
pub mod dict;
pub mod array;
pub mod decode;
pub mod chunks;
pub mod laws;
