//! Reading, checking, editing and writing PNG-style chunk containers.

pub mod be;
pub mod chunk;
pub mod chunk_type;
pub mod error;
pub mod png;

pub use chunk::Chunk;
pub use chunk_type::ChunkType;
pub use error::PngError;
pub use png::Png;
