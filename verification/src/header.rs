//! The location header of a region file: 1024 entries of 4 big-endian bytes,
//! one per chunk slot. An entry packs a 24-bit sector index above an 8-bit
//! sector count; an all-zero entry marks an absent slot.

use vstd::prelude::*;

use crate::chunk::ChunkPos;

verus! {

/// Bytes per sector.
pub const SECTOR_SIZE: usize = 4096;

/// Chunk slots per region: a 32-by-32 grid.
pub const ENTRY_COUNT: usize = 1024;

/// Bytes per location-header entry.
pub const ENTRY_LENGTH: usize = 4;

/// Bytes in the location header: two whole sectors.
pub const HEADER_SIZE: usize = 8192;

/// A decoded location-header entry: where a chunk slot's payload sits.
#[derive(Copy, Clone, Debug, Eq, PartialEq, Structural)]
pub struct RegionEntry {
    pub position: ChunkPos,
    /// First sector of the payload; at least 2 in a well-formed file, since
    /// sectors 0 and 1 hold the header.
    pub sector_index: u32,
    /// Whole sectors the payload occupies.
    pub sector_count: u32,
}

/// The unsigned value of four big-endian bytes starting at `off`.
pub open spec fn spec_be32(bytes: Seq<u8>, off: int) -> int
    recommends
        0 <= off,
        off + 4 <= bytes.len(),
{
    bytes[off] * 0x1000000 + bytes[off + 1] * 0x10000 + bytes[off + 2] * 0x100 + bytes[off + 3]
}

/// The packed 32-bit field of an entry: sector index above sector count.
pub open spec fn spec_entry_field(sector_index: int, sector_count: int) -> int {
    sector_index * 0x100 + sector_count
}

/// The sector index held by a packed entry field.
pub open spec fn spec_field_index(field: int) -> int {
    field / 0x100
}

/// The sector count held by a packed entry field.
pub open spec fn spec_field_count(field: int) -> int {
    field % 0x100
}

/// Reads four big-endian bytes from `bytes` starting at `off`.
pub fn read_be32(bytes: &[u8], off: usize) -> (r: u32)
    requires
        off + 4 <= bytes@.len(),
    ensures
        r == spec_be32(bytes@, off as int),
{
    let b0 = bytes[off] as u32;
    let b1 = bytes[off + 1] as u32;
    let b2 = bytes[off + 2] as u32;
    let b3 = bytes[off + 3] as u32;
    b0 * 0x1000000 + b1 * 0x10000 + b2 * 0x100 + b3
}

/// The four big-endian bytes of `v`, most significant first.
pub open spec fn spec_be32_bytes(v: int) -> Seq<u8> {
    seq![
        (v / 0x1000000 % 0x100) as u8,
        (v / 0x10000 % 0x100) as u8,
        (v / 0x100 % 0x100) as u8,
        (v % 0x100) as u8,
    ]
}

/// Splitting a 32-bit value into big-endian bytes inverts `spec_be32`.
pub proof fn lemma_be32_roundtrip(v: int)
    requires
        0 <= v < 0x100000000,
    ensures
        spec_be32(spec_be32_bytes(v), 0) == v,
{
    let b = spec_be32_bytes(v);
    assert(b[0] == (v / 0x1000000 % 0x100) as u8);
    assert(v / 0x1000000 % 0x100 == v / 0x1000000) by (nonlinear_arith)
        requires 0 <= v < 0x100000000;
    assert(b[0] * 0x1000000 + b[1] * 0x10000 + b[2] * 0x100 + b[3] == v) by (nonlinear_arith)
        requires
            0 <= v < 0x100000000,
            b[0] == v / 0x1000000,
            b[1] == (v / 0x10000 % 0x100) as u8,
            b[2] == (v / 0x100 % 0x100) as u8,
            b[3] == (v % 0x100) as u8;
}

impl RegionEntry {
    /// The packed 32-bit header field for this entry.
    ///
    /// Requires the stored ranges of the format: a 24-bit sector index and an
    /// 8-bit sector count.
    pub fn encode_field(&self) -> (r: u32)
        requires
            self.sector_index < 0x1000000,
            self.sector_count < 0x100,
        ensures
            r == spec_entry_field(self.sector_index as int, self.sector_count as int),
    {
        self.sector_index * 0x100 + self.sector_count
    }

    /// Decodes a packed header field read for the slot at `position`.
    /// A zero field means the slot is absent and decodes to `None`.
    pub fn decode_field(position: ChunkPos, field: u32) -> (r: Option<RegionEntry>)
        ensures
            field == 0 <==> r is None,
            r matches Some(e) ==> {
                &&& e.position == position
                &&& e.sector_index == spec_field_index(field as int)
                &&& e.sector_count == spec_field_count(field as int)
                &&& e.sector_index < 0x1000000
                &&& e.sector_count < 0x100
            },
    {
        if field == 0 {
            None
        } else {
            Some(RegionEntry {
                position,
                sector_index: field / 0x100,
                sector_count: field % 0x100,
            })
        }
    }
}

/// Header round-trip: packing any in-range sector index and sector count into
/// an entry field and splitting the field again yields the same pair, and a
/// present entry never packs to the absent (zero) field.
pub proof fn lemma_entry_field_roundtrip(sector_index: int, sector_count: int)
    requires
        2 <= sector_index < 0x1000000,
        1 <= sector_count < 0x100,
    ensures
        spec_field_index(spec_entry_field(sector_index, sector_count)) == sector_index,
        spec_field_count(spec_entry_field(sector_index, sector_count)) == sector_count,
        spec_entry_field(sector_index, sector_count) != 0,
        0 <= spec_entry_field(sector_index, sector_count) < 0x100000000,
{
    let f = spec_entry_field(sector_index, sector_count);
    assert(f / 0x100 == sector_index && f % 0x100 == sector_count) by (nonlinear_arith)
        requires
            f == sector_index * 0x100 + sector_count,
            2 <= sector_index < 0x1000000,
            1 <= sector_count < 0x100;
    assert(f < 0x100000000) by (nonlinear_arith)
        requires
            f == sector_index * 0x100 + sector_count,
            sector_index < 0x1000000,
            sector_count < 0x100;
}

} // verus!
