//! The value layer shared by the region reader and writer: chunk positions,
//! decoded chunks, compression tags, and the codec's error kinds.

use vstd::prelude::*;

verus! {

/// A chunk's position: either its world coordinates or its slot within a
/// 32-by-32 region grid, depending on context.
#[derive(Copy, Clone, Debug, Hash, Eq, PartialEq, Structural)]
pub struct ChunkPos {
    pub x: i32,
    pub z: i32,
}

/// A decoded chunk: its position and its decompressed tag-tree bytes.
#[derive(Clone)]
pub struct Chunk {
    pub data: Vec<u8>,
    pub position: ChunkPos,
}

impl Chunk {
    /// A copy of this chunk carrying `data` in place of the old payload.
    pub fn with_data(&self, data: Vec<u8>) -> (r: Self)
        ensures
            r.data@ == data@,
            r.position == self.position,
    {
        Chunk { data, position: self.position }
    }
}

/// The compression scheme named by the byte that follows a chunk frame's
/// length field on disk.
#[derive(Copy, Clone, Debug, Eq, PartialEq, Structural)]
pub enum CompressionMode {
    Gzip,
    Zlib,
    Uncompressed,
}

impl CompressionMode {
    /// Decodes an on-disk compression tag; tags other than 1, 2 and 3 have
    /// no meaning.
    pub fn from_int(tag: u8) -> (r: Option<CompressionMode>)
        ensures
            r == spec_mode_of_int(tag),
    {
        match tag {
            1u8 => Some(CompressionMode::Gzip),
            2u8 => Some(CompressionMode::Zlib),
            3u8 => Some(CompressionMode::Uncompressed),
            _ => None,
        }
    }

    /// The on-disk tag for this compression scheme.
    pub fn to_int(&self) -> (r: u8)
        ensures
            spec_mode_of_int(r) == Some(*self),
    {
        match self {
            CompressionMode::Gzip => 1u8,
            CompressionMode::Zlib => 2u8,
            CompressionMode::Uncompressed => 3u8,
        }
    }
}

/// The meaning of an on-disk compression tag.
pub open spec fn spec_mode_of_int(tag: u8) -> Option<CompressionMode> {
    if tag == 1u8 {
        Some(CompressionMode::Gzip)
    } else if tag == 2u8 {
        Some(CompressionMode::Zlib)
    } else if tag == 3u8 {
        Some(CompressionMode::Uncompressed)
    } else {
        None
    }
}

/// Everything that can go wrong inside the codec. Filesystem failures are the
/// caller's to report: the library never touches a file.
#[derive(Copy, Clone, Debug, Eq, PartialEq, Structural)]
pub enum RegionError {
    /// A region file violates the sectored format: truncated sector range,
    /// unknown compression tag, or a length field inconsistent with its
    /// sector range.
    Corrupt,
    /// A compressed chunk payload was rejected by the decompressor.
    DecompressionFailed,
    /// A chunk's tag-tree bytes were rejected by the tag parser.
    MalformedTagTree,
    /// A chunk's pruned tag tree could not be re-encoded within the format's
    /// size limits.
    SerializationFailed,
    /// A chunk frame too large for its header entry was handed to the writer,
    /// or the writer ran out of addressable sectors.
    ChunkTooLarge,
}

} // verus!
