//! A verified codec for sectored region files: a header-indexed, compressed
//! container holding up to 1024 chunks of a hierarchical binary tag format.
//!
//! The library decodes region bytes into chunk payloads, encodes chunks into
//! fresh region bytes with aligned sector allocation, and prunes derived tags
//! from a chunk's tag tree. All file and terminal I/O lives outside of it:
//! callers hand in the bytes of a region file and receive the bytes to store.

pub mod chunk;
pub mod header;
pub mod laws;
pub mod names;
pub mod nbt;
pub mod options;
pub mod region;
pub mod strip;
pub mod writer;
pub mod zlib;

pub use chunk::{Chunk, ChunkPos, CompressionMode, RegionError};
pub use header::RegionEntry;
pub use region::{ChunkIterator, RegionFile};
pub use strip::{strip_chunk, strip_file};
pub use writer::RegionFileWriter;
