//! The ways in which reading or editing a container can fail.

use vstd::prelude::*;

verus! {

/// What went wrong, with the values that tell the caller why.
#[derive(Debug)]
pub enum PngError {
    /// A chunk type string, `given`, is not exactly four ASCII letters.
    InvalidChunkType { given: String },
    /// A field needs more bytes than are left.
    TruncatedInput { needed: u64, available: u64 },
    /// The stored checksum differs from the one computed over type and payload.
    ChecksumMismatch { stored: u32, computed: u32 },
    /// The buffer does not start with the PNG signature.
    BadSignature,
    /// No chunk has the requested type.
    ChunkNotFound { chunk_type: String },
    /// Bytes that were to be read as text are not UTF-8.
    NotUtf8,
}

} // verus!
