//! The region reader: interprets the bytes of a sectored region file and
//! decodes each of its 1024 chunk slots independently.
//!
//! The on-disk shape, stated once here as spec functions over the raw bytes
//! and shared with the writer: the location header's entry for a slot names a
//! sector range; the range begins with a four-byte big-endian length field
//! counting the compression tag byte plus the compressed payload; the tag
//! byte names gzip, zlib, or no compression.

use vstd::prelude::*;

use crate::chunk::{Chunk, ChunkPos, CompressionMode, RegionError, spec_mode_of_int};
use crate::header::{
    ENTRY_COUNT, RegionEntry, SECTOR_SIZE, read_be32, spec_be32, spec_field_count,
    spec_field_index,
};
use crate::zlib::{gzip_decompress, gzip_inflate_of, zlib_decompress, zlib_inflate_of, zlib_of};

verus! {

/// The packed header field of `slot`, read from the region's bytes.
pub open spec fn spec_entry_field_at(bytes: Seq<u8>, slot: int) -> int {
    spec_be32(bytes, slot * 4)
}

/// A slot is absent when its header entry is all zero, or when the file is
/// too short to hold the entry at all.
pub open spec fn spec_slot_absent(bytes: Seq<u8>, slot: int) -> bool {
    bytes.len() < slot * 4 + 4 || spec_entry_field_at(bytes, slot) == 0
}

/// The sector index named by `slot`'s header entry.
pub open spec fn spec_slot_index(bytes: Seq<u8>, slot: int) -> int {
    spec_field_index(spec_entry_field_at(bytes, slot))
}

/// The sector count named by `slot`'s header entry.
pub open spec fn spec_slot_count(bytes: Seq<u8>, slot: int) -> int {
    spec_field_count(spec_entry_field_at(bytes, slot))
}

/// A well-formed chunk frame in the sector range `[idx, idx + cnt)`: the
/// range lies inside the file, and its leading big-endian length field --
/// which counts the compression tag byte plus the payload -- is at least 1
/// and consistent with the range.
pub open spec fn spec_frame_wf(bytes: Seq<u8>, idx: int, cnt: int) -> bool {
    &&& 0 <= idx
    &&& 0 <= cnt
    &&& (idx + cnt) * (SECTOR_SIZE as int) <= bytes.len()
    &&& 1 <= spec_be32(bytes, idx * (SECTOR_SIZE as int))
    &&& 4 + spec_be32(bytes, idx * (SECTOR_SIZE as int)) <= cnt * (SECTOR_SIZE as int)
}

/// The compression tag byte of the frame starting at sector `idx`.
pub open spec fn spec_frame_mode(bytes: Seq<u8>, idx: int) -> u8 {
    bytes[idx * (SECTOR_SIZE as int) + 4]
}

/// The compressed payload of the frame starting at sector `idx`: the bytes
/// after the compression tag, as counted by the length field.
pub open spec fn spec_frame_payload(bytes: Seq<u8>, idx: int) -> Seq<u8> {
    let start = idx * (SECTOR_SIZE as int);
    bytes.subrange(start + 5, start + 4 + spec_be32(bytes, start))
}

/// A present slot whose frame is well formed.
pub open spec fn spec_slot_frame_wf(bytes: Seq<u8>, slot: int) -> bool {
    &&& !spec_slot_absent(bytes, slot)
    &&& spec_frame_wf(bytes, spec_slot_index(bytes, slot), spec_slot_count(bytes, slot))
}

/// The compression tag byte of a present slot.
pub open spec fn spec_slot_mode(bytes: Seq<u8>, slot: int) -> u8 {
    spec_frame_mode(bytes, spec_slot_index(bytes, slot))
}

/// The compressed payload of a present slot.
pub open spec fn spec_slot_payload(bytes: Seq<u8>, slot: int) -> Seq<u8> {
    spec_frame_payload(bytes, spec_slot_index(bytes, slot))
}

/// A present slot that the reader must reject: its sector range leaves the
/// file, its length field is inconsistent with the range, or its compression
/// tag is unknown.
pub open spec fn spec_slot_corrupt(bytes: Seq<u8>, slot: int) -> bool {
    &&& !spec_slot_absent(bytes, slot)
    &&& {
        ||| !spec_slot_frame_wf(bytes, slot)
        ||| spec_mode_of_int(spec_slot_mode(bytes, slot)) is None
    }
}

/// A present slot holding a zlib-compressed frame whose payload is exactly
/// `comp`. This is the shape the region writer emits.
pub open spec fn spec_slot_holds_zlib(bytes: Seq<u8>, slot: int, comp: Seq<u8>) -> bool {
    &&& spec_slot_frame_wf(bytes, slot)
    &&& spec_slot_mode(bytes, slot) == 2u8
    &&& spec_slot_payload(bytes, slot) == comp
}

/// What a present slot's frame decodes to, by its compression tag: the
/// payload itself for an uncompressed frame, otherwise the decompressed
/// stream.
pub open spec fn spec_slot_decoded(bytes: Seq<u8>, slot: int) -> Seq<u8> {
    let mode = spec_slot_mode(bytes, slot);
    let payload = spec_slot_payload(bytes, slot);
    if mode == 1u8 {
        gzip_inflate_of(payload)
    } else if mode == 2u8 {
        zlib_inflate_of(payload)
    } else {
        payload
    }
}

/// The chunk position a slot decodes to: row-major, x varies fastest.
pub open spec fn spec_slot_position(slot: int) -> ChunkPos {
    ChunkPos { x: (slot % 32) as i32, z: (slot / 32) as i32 }
}

/// A read-only region file, fully resident as bytes. Callers load the file
/// (or map it) and hand the bytes in; decoding never touches the filesystem.
pub struct RegionFile {
    data: Vec<u8>,
}

impl RegionFile {
    /// The raw bytes of the region file.
    pub closed spec fn bytes(&self) -> Seq<u8> {
        self.data@
    }

    /// Wraps the bytes of a region file for decoding. Accepts anything,
    /// including empty or truncated files, whose slots all read as absent.
    pub fn open(data: Vec<u8>) -> (r: RegionFile)
        ensures
            r.bytes() == data@,
    {
        RegionFile { data }
    }

    /// Decodes the location-header entry of slot `entry_index`: `None` for an
    /// absent slot, otherwise the sector range named by the header.
    fn read_entry(&self, entry_index: usize) -> (r: Option<RegionEntry>)
        requires
            entry_index < ENTRY_COUNT,
        ensures
            r is None <==> spec_slot_absent(self.bytes(), entry_index as int),
            r matches Some(e) ==> {
                &&& e.sector_index == spec_slot_index(self.bytes(), entry_index as int)
                &&& e.sector_count == spec_slot_count(self.bytes(), entry_index as int)
                &&& e.sector_index < 0x1000000
                &&& e.sector_count < 0x100
                &&& e.position == spec_slot_position(entry_index as int)
            },
    {
        let entry_offset = entry_index * 4;
        if self.data.len() < entry_offset + 4 {
            return None;
        }
        let field = read_be32(self.data.as_slice(), entry_offset);
        let position = ChunkPos {
            x: (entry_index % 32) as i32,
            z: (entry_index / 32) as i32,
        };
        RegionEntry::decode_field(position, field)
    }

    /// Decodes the chunk frame that `entry` points at. Rejects frames whose
    /// sector range or length field leaves the file, and unknown compression
    /// tags, as `Corrupt`; payloads the decompressor rejects fail with
    /// `DecompressionFailed`.
    fn get_chunk_from_entry(&self, entry: RegionEntry) -> (r: Result<Chunk, RegionError>)
        requires
            entry.sector_index < 0x1000000,
            entry.sector_count < 0x100,
        ensures
            ({
                let idx = entry.sector_index as int;
                let cnt = entry.sector_count as int;
                let wf = spec_frame_wf(self.bytes(), idx, cnt);
                let mode = spec_frame_mode(self.bytes(), idx);
                let payload = spec_frame_payload(self.bytes(), idx);
                &&& (r == Err::<Chunk, RegionError>(RegionError::Corrupt) <==> (!wf
                    || spec_mode_of_int(mode) is None))
                &&& (r matches Ok(c) ==> c.position == entry.position)
                &&& (wf && mode == 3u8 ==> (r matches Ok(c) && c.data@ == payload))
                &&& (wf && mode == 1u8 ==> {
                    &&& (r matches Ok(c) ==> c.data@ == gzip_inflate_of(payload))
                    &&& (r is Err ==> r == Err::<Chunk, RegionError>(
                        RegionError::DecompressionFailed))
                })
                &&& (wf && mode == 2u8 ==> {
                    &&& (r matches Ok(c) ==> c.data@ == zlib_inflate_of(payload))
                    &&& (r is Err ==> r == Err::<Chunk, RegionError>(
                        RegionError::DecompressionFailed))
                    &&& (forall|d: Seq<u8>|
                        payload == zlib_of(d) ==> (r matches Ok(c) && c.data@ == d))
                })
            }),
    {
        let len_u64 = self.data.len() as u64;
        let idx_u64 = entry.sector_index as u64;
        let cnt_u64 = entry.sector_count as u64;
        let sect = SECTOR_SIZE as u64;

        if (idx_u64 + cnt_u64) * sect > len_u64 {
            return Err(RegionError::Corrupt);
        }
        assert((idx_u64 + cnt_u64) * sect == (entry.sector_index as int + entry.sector_count as int)
            * (SECTOR_SIZE as int)) by (nonlinear_arith)
            requires
                idx_u64 == entry.sector_index as int,
                cnt_u64 == entry.sector_count as int,
                sect == SECTOR_SIZE as int,
                idx_u64 < 0x1000000,
                cnt_u64 < 0x100;
        let start = (idx_u64 * sect) as usize;
        let range_len = (cnt_u64 * sect) as usize;
        assert(idx_u64 * sect + cnt_u64 * sect == (idx_u64 + cnt_u64) * sect) by (nonlinear_arith);
        assert(0 <= idx_u64 * sect && 0 <= cnt_u64 * sect) by (nonlinear_arith);

        if range_len < 4 {
            return Err(RegionError::Corrupt);
        }
        let exact_length = read_be32(self.data.as_slice(), start);
        if exact_length < 1 {
            return Err(RegionError::Corrupt);
        }
        if 4 + (exact_length as u64) > range_len as u64 {
            return Err(RegionError::Corrupt);
        }
        let mode_byte = self.data[start + 4];
        let payload: &[u8] = &self.data.as_slice()[start + 5..start + 4 + exact_length as usize];
        assert(payload@ == spec_frame_payload(self.bytes(), entry.sector_index as int));

        let mode = match CompressionMode::from_int(mode_byte) {
            Some(mode) => mode,
            None => {
                return Err(RegionError::Corrupt);
            },
        };

        let data = match mode {
            CompressionMode::Gzip => gzip_decompress(payload)?,
            CompressionMode::Zlib => zlib_decompress(payload)?,
            CompressionMode::Uncompressed => {
                let mut copy: Vec<u8> = Vec::new();
                copy_bytes(&mut copy, payload);
                copy
            },
        };

        Ok(Chunk { data, position: entry.position })
    }

    /// Decodes one slot of the region: `Ok(None)` for an absent slot,
    /// `Ok(Some(chunk))` for a present one, and an error that leaves other
    /// slots unaffected otherwise. A zlib frame written by the region writer
    /// for data `d` always decodes back to `d`.
    pub fn get_chunk_from_index(&self, index: usize) -> (r: Result<Option<Chunk>, RegionError>)
        requires
            index < ENTRY_COUNT,
        ensures
            ({
                let bytes = self.bytes();
                let slot = index as int;
                let mode = spec_slot_mode(bytes, slot);
                let payload = spec_slot_payload(bytes, slot);
                &&& (r == Ok::<Option<Chunk>, RegionError>(None) <==> spec_slot_absent(
                    bytes, slot))
                &&& (r == Err::<Option<Chunk>, RegionError>(RegionError::Corrupt)
                    <==> spec_slot_corrupt(bytes, slot))
                &&& (r matches Ok(Some(c)) ==> {
                    &&& c.position == spec_slot_position(slot)
                    &&& spec_slot_frame_wf(bytes, slot)
                })
                &&& (spec_slot_frame_wf(bytes, slot) && mode == 3u8 ==> (r matches Ok(Some(c))
                    && c.data@ == payload))
                &&& (spec_slot_frame_wf(bytes, slot) && mode == 1u8 ==> {
                    &&& (r matches Ok(Some(c)) ==> c.data@ == gzip_inflate_of(payload))
                    &&& (r is Err ==> r == Err::<Option<Chunk>, RegionError>(
                        RegionError::DecompressionFailed))
                })
                &&& (spec_slot_frame_wf(bytes, slot) && mode == 2u8 ==> {
                    &&& (r matches Ok(Some(c)) ==> c.data@ == zlib_inflate_of(payload))
                    &&& (r is Err ==> r == Err::<Option<Chunk>, RegionError>(
                        RegionError::DecompressionFailed))
                })
                &&& (forall|d: Seq<u8>|
                    spec_slot_holds_zlib(bytes, slot, zlib_of(d)) ==> (r matches Ok(Some(c))
                        && c.data@ == d))
            }),
    {
        match self.read_entry(index) {
            None => Ok(None),
            Some(entry) => match self.get_chunk_from_entry(entry) {
                Ok(chunk) => Ok(Some(chunk)),
                Err(e) => Err(e),
            },
        }
    }

    /// The slots of this region, decoded lazily in row-major order.
    pub fn stream_chunks(&self) -> (it: ChunkIterator<'_>)
        ensures
            it.region.bytes() == self.bytes(),
            it.index == 0,
    {
        ChunkIterator { region: self, index: 0 }
    }
}

/// A lazy, non-restartable pass over a region's 1024 slots.
pub struct ChunkIterator<'a> {
    pub region: &'a RegionFile,
    pub index: usize,
}

impl<'a> ChunkIterator<'a> {
    /// Decodes the next slot, or returns `None` after the last one. Errors
    /// are carried per slot and do not end the pass.
    pub fn next(&mut self) -> (r: Option<Result<Option<Chunk>, RegionError>>)
        ensures
            old(self).index >= ENTRY_COUNT ==> r is None && *final(self) == *old(self),
            old(self).index < ENTRY_COUNT ==> {
                &&& final(self).index == old(self).index + 1
                &&& final(self).region == old(self).region
                &&& (r matches Some(one) && spec_chunk_result_matches(
                    one, old(self).region.bytes(), old(self).index as int))
            },
    {
        if self.index >= ENTRY_COUNT {
            None
        } else {
            let result = self.region.get_chunk_from_index(self.index);
            self.index = self.index + 1;
            Some(result)
        }
    }
}

/// What one decoded slot may look like: the per-slot contract of
/// `RegionFile::get_chunk_from_index`, named so that iterator clients can
/// reuse it.
pub open spec fn spec_chunk_result_matches(
    r: Result<Option<Chunk>, RegionError>,
    bytes: Seq<u8>,
    slot: int,
) -> bool {
    let mode = spec_slot_mode(bytes, slot);
    let payload = spec_slot_payload(bytes, slot);
    &&& (r == Ok::<Option<Chunk>, RegionError>(None) <==> spec_slot_absent(bytes, slot))
    &&& (r == Err::<Option<Chunk>, RegionError>(RegionError::Corrupt) <==> spec_slot_corrupt(
        bytes, slot))
    &&& (r matches Ok(Some(c)) ==> {
        &&& c.position == spec_slot_position(slot)
        &&& spec_slot_frame_wf(bytes, slot)
    })
    &&& (spec_slot_frame_wf(bytes, slot) && mode == 3u8 ==> (r matches Ok(Some(c)) && c.data@
        == payload))
    &&& (spec_slot_frame_wf(bytes, slot) && mode == 1u8 ==> {
        &&& (r matches Ok(Some(c)) ==> c.data@ == gzip_inflate_of(payload))
        &&& (r is Err ==> r == Err::<Option<Chunk>, RegionError>(
            RegionError::DecompressionFailed))
    })
    &&& (spec_slot_frame_wf(bytes, slot) && mode == 2u8 ==> {
        &&& (r matches Ok(Some(c)) ==> c.data@ == zlib_inflate_of(payload))
        &&& (r is Err ==> r == Err::<Option<Chunk>, RegionError>(
            RegionError::DecompressionFailed))
    })
    &&& (forall|d: Seq<u8>|
        spec_slot_holds_zlib(bytes, slot, zlib_of(d)) ==> (r matches Ok(Some(c)) && c.data@ == d))
}

/// A failed slot read, classified: the slot is present; `Corrupt` marks
/// exactly a corrupt slot; any other failure is a decompression failure of a
/// well-formed compressed frame.
pub proof fn lemma_slot_error_classified(
    r: Result<Option<Chunk>, RegionError>,
    bytes: Seq<u8>,
    slot: int,
)
    requires
        spec_chunk_result_matches(r, bytes, slot),
        r is Err,
    ensures
        !spec_slot_absent(bytes, slot),
        r == Err::<Option<Chunk>, RegionError>(RegionError::Corrupt) <==> spec_slot_corrupt(
            bytes, slot),
        r != Err::<Option<Chunk>, RegionError>(RegionError::Corrupt) ==> {
            &&& spec_slot_frame_wf(bytes, slot)
            &&& (spec_slot_mode(bytes, slot) == 1 || spec_slot_mode(bytes, slot) == 2)
            &&& r == Err::<Option<Chunk>, RegionError>(RegionError::DecompressionFailed)
        },
{
    if r != Err::<Option<Chunk>, RegionError>(RegionError::Corrupt) {
        assert(!spec_slot_corrupt(bytes, slot));
        let mode = spec_slot_mode(bytes, slot);
        assert(spec_mode_of_int(mode) is Some);
        assert(mode != 3);
    }
}

/// A present slot read carries the decoded frame: whatever the compression
/// tag, the chunk's data is exactly what the slot's payload decodes to.
pub proof fn lemma_slot_present_decoded(
    r: Result<Option<Chunk>, RegionError>,
    bytes: Seq<u8>,
    slot: int,
)
    requires
        spec_chunk_result_matches(r, bytes, slot),
        r matches Ok(oc) && oc is Some,
    ensures
        !spec_slot_absent(bytes, slot),
        spec_slot_frame_wf(bytes, slot),
        (r matches Ok(oc) && oc matches Some(c) && c.data@ == spec_slot_decoded(bytes, slot)),
{
    assert(r != Ok::<Option<Chunk>, RegionError>(None));
    assert(r != Err::<Option<Chunk>, RegionError>(RegionError::Corrupt));
    assert(!spec_slot_corrupt(bytes, slot));
    let mode = spec_slot_mode(bytes, slot);
    assert(spec_mode_of_int(mode) is Some);
    assert(mode == 1 || mode == 2 || mode == 3);
}

/// Appends every byte of `src` to `dst`.
pub fn copy_bytes(dst: &mut Vec<u8>, src: &[u8])
    ensures
        final(dst)@ == old(dst)@ + src@,
{
    let mut i: usize = 0;
    while i < src.len()
        invariant
            i <= src@.len(),
            dst@ == old(dst)@ + src@.subrange(0, i as int),
        decreases src@.len() - i,
    {
        dst.push(src[i]);
        i = i + 1;
        assert(dst@ == old(dst)@ + src@.subrange(0, i as int));
    }
    assert(src@.subrange(0, src@.len() as int) == src@);
}

} // verus!
