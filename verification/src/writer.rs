//! The region writer: builds a fresh region file in memory, appending each
//! chunk to the next free sector and keeping the location header current.
//!
//! The writer owns the sector counter. Chunks arrive in any order; each one
//! is zlib-compressed, framed, padded to whole sectors, and appended, and its
//! slot's header entry is repointed at the new sectors. Re-writing a slot
//! orphans the old sectors and never reclaims them. Closing the writer hands
//! the finished bytes to the caller, who stores them; the library itself
//! never touches a file.

use vstd::prelude::*;

use crate::chunk::{Chunk, ChunkPos, RegionError};
use crate::header::{
    ENTRY_COUNT, HEADER_SIZE, RegionEntry, SECTOR_SIZE, lemma_be32_roundtrip,
    lemma_entry_field_roundtrip, spec_be32, spec_be32_bytes, spec_entry_field,
};
use crate::region::{
    copy_bytes, spec_entry_field_at, spec_frame_wf, spec_slot_count, spec_slot_holds_zlib,
    spec_slot_index,
};
use crate::zlib::{zlib_compress, zlib_of};

verus! {

/// The largest whole-sector frame a header entry can describe: the sector
/// count is stored in eight bits.
pub const MAX_FRAME_BYTES: usize = 1044480;

/// The sector count past which a sector index no longer fits its 24 bits.
pub const MAX_SECTORS: usize = 0x1000000;

/// Sectors needed for a frame of `1 + comp_len` payload bytes plus its
/// four-byte length field, rounded up to a whole sector.
pub open spec fn spec_sectors_for(comp_len: int) -> int {
    (comp_len + 5 + 4095) / 4096
}

/// Whether a chunk whose compressed payload is `comp` can still be appended
/// to a writer that has used `used` sectors: the frame must fit an 8-bit
/// sector count, the file must stay within 24-bit sector indices, and the
/// buffer must stay addressable on this machine.
pub open spec fn spec_chunk_fits(comp: Seq<u8>, used: int) -> bool {
    &&& comp.len() + 5 <= MAX_FRAME_BYTES
    &&& used + spec_sectors_for(comp.len() as int) <= MAX_SECTORS
    &&& (used + spec_sectors_for(comp.len() as int)) * (SECTOR_SIZE as int) <= usize::MAX
}

/// The header slot a chunk position lands in: both coordinates reduced into
/// `[0, 32)`, row-major. Out-of-range world coordinates wrap into the grid
/// rather than faulting; numerical policy on negatives is the caller's.
pub open spec fn spec_slot_of_pos(pos: ChunkPos) -> int {
    (pos.x as int) % 32 + ((pos.z as int) % 32) * 32
}

/// One written slot, as the writer maintains it: the header entry points at
/// a zlib frame, fully below the `used` watermark and above the header.
pub open spec fn spec_writer_slot_wf(bytes: Seq<u8>, slot: int, used: int, data: Seq<u8>) -> bool {
    &&& spec_slot_holds_zlib(bytes, slot, zlib_of(data))
    &&& 2 <= spec_slot_index(bytes, slot)
    &&& spec_slot_index(bytes, slot) + spec_slot_count(bytes, slot) <= used
}

/// An append-only writer for one fresh region file.
pub struct RegionFileWriter {
    buffer: Vec<u8>,
    used_sectors: usize,
    written: Ghost<Map<int, Seq<u8>>>,
}

impl RegionFileWriter {
    /// The bytes of the region file built so far.
    pub closed spec fn bytes(&self) -> Seq<u8> {
        self.buffer@
    }

    /// Sectors used so far, header included.
    pub closed spec fn used(&self) -> int {
        self.used_sectors as int
    }

    /// The chunks written so far: each slot maps to the decompressed data it
    /// was most recently written with.
    pub closed spec fn chunks(&self) -> Map<int, Seq<u8>> {
        self.written@
    }

    /// The writer's invariant. The file is always a whole number of sectors,
    /// exactly the used count; every written slot's header entry points at
    /// its zlib frame; every other slot reads absent.
    pub open spec fn wf(&self) -> bool {
        &&& self.bytes().len() == self.used() * (SECTOR_SIZE as int)
        &&& 2 <= self.used() <= MAX_SECTORS
        &&& self.bytes().len() <= usize::MAX
        &&& forall|s: int| #[trigger]
            self.chunks().dom().contains(s) ==> 0 <= s < ENTRY_COUNT
        &&& forall|s: int| #[trigger]
            self.chunks().dom().contains(s) ==> spec_writer_slot_wf(
                self.bytes(), s, self.used(), self.chunks()[s])
        &&& forall|s: int|
            0 <= s < ENTRY_COUNT && !self.chunks().dom().contains(s)
                ==> spec_entry_field_at(self.bytes(), s) == 0
    }

    /// A fresh region: two zeroed header sectors, no chunks, every slot
    /// absent.
    pub fn create() -> (w: RegionFileWriter)
        ensures
            w.wf(),
            w.used() == 2,
            w.chunks() == Map::<int, Seq<u8>>::empty(),
            w.bytes().len() == HEADER_SIZE,
            forall|i: int| 0 <= i < w.bytes().len() ==> w.bytes()[i] == 0u8,
    {
        let mut buffer: Vec<u8> = Vec::new();
        let mut i: usize = 0;
        while i < HEADER_SIZE
            invariant
                i <= HEADER_SIZE,
                buffer@.len() == i,
                forall|j: int| 0 <= j < i ==> buffer@[j] == 0u8,
            decreases HEADER_SIZE - i,
        {
            buffer.push(0u8);
            i = i + 1;
        }
        let w = RegionFileWriter {
            buffer,
            used_sectors: 2,
            written: Ghost(Map::empty()),
        };
        proof {
            assert forall|s: int| 0 <= s < ENTRY_COUNT implies spec_entry_field_at(
                w.bytes(), s) == 0 by {
                assert(w.bytes()[s * 4] == 0);
                assert(w.bytes()[s * 4 + 1] == 0);
                assert(w.bytes()[s * 4 + 2] == 0);
                assert(w.bytes()[s * 4 + 3] == 0);
            }
        }
        w
    }

    /// Compresses, frames, and appends one chunk, then repoints its slot's
    /// header entry at the new sectors. Succeeds exactly when the compressed
    /// frame fits the format's limits at the current watermark; otherwise the
    /// writer is unchanged and the chunk is `ChunkTooLarge`. On success only
    /// the appended sectors and the slot's own four entry bytes change: every
    /// other header entry and every previously written payload byte stays.
    #[verifier::rlimit(100)]
    pub fn add_chunk(&mut self, chunk: &Chunk) -> (r: Result<(), RegionError>)
        requires
            old(self).wf(),
        ensures
            final(self).wf(),
            r is Ok <==> spec_chunk_fits(zlib_of(chunk.data@), old(self).used()),
            r is Err ==> *final(self) == *old(self) && r == Err::<(), RegionError>(
                RegionError::ChunkTooLarge),
            r is Ok ==> ({
                let comp = zlib_of(chunk.data@);
                let slot = spec_slot_of_pos(chunk.position);
                &&& final(self).used() == old(self).used() + spec_sectors_for(comp.len() as int)
                &&& final(self).bytes().len() == final(self).used() * (SECTOR_SIZE as int)
                &&& final(self).chunks() == old(self).chunks().insert(slot, chunk.data@)
                &&& spec_slot_index(final(self).bytes(), slot) == old(self).used()
                &&& forall|i: int|
                    0 <= i < old(self).bytes().len() && !(slot * 4 <= i < slot * 4 + 4)
                        ==> final(self).bytes()[i] == old(self).bytes()[i]
            }),
    {
        let comp = zlib_compress(chunk.data.as_slice());
        if comp.len() > MAX_FRAME_BYTES - 5 {
            return Err(RegionError::ChunkTooLarge);
        }
        let frame_len = comp.len() + 5;
        let sector_count = (frame_len + 4095) / SECTOR_SIZE;
        proof {
            assert(1 <= sector_count < 0x100 && frame_len <= sector_count * 4096 && sector_count
                == (comp@.len() + 5 + 4095) / 4096) by (nonlinear_arith)
                requires
                    frame_len == comp@.len() + 5,
                    5 <= frame_len <= 1044480,
                    sector_count == (frame_len + 4095) / 4096;
        }
        if self.used_sectors > MAX_SECTORS - sector_count {
            return Err(RegionError::ChunkTooLarge);
        }
        let new_used = self.used_sectors + sector_count;
        proof {
            assert((new_used as int) * 4096 <= 0x1000000 * 4096) by (nonlinear_arith)
                requires
                    new_used <= 0x1000000;
        }
        let total: u64 = (new_used as u64) * (SECTOR_SIZE as u64);
        if total > usize::MAX as u64 {
            return Err(RegionError::ChunkTooLarge);
        }
        let sector_index = self.used_sectors;

        let slot = Self::slot_for(chunk.position);
        let entry = RegionEntry {
            position: chunk.position,
            sector_index: sector_index as u32,
            sector_count: sector_count as u32,
        };

        let ghost pre = *self;
        self.write_data(sector_count, &comp);
        let ghost mid = *self;
        self.write_entry(entry, slot);
        self.used_sectors = new_used;
        self.written = Ghost(pre.written@.insert(slot as int, chunk.data@));

        proof {
            let slot_i = slot as int;
            let comp_s = zlib_of(chunk.data@);
            let used0 = pre.used();
            let sect = SECTOR_SIZE as int;
            lemma_entry_field_roundtrip(sector_index as int, sector_count as int);
            lemma_be32_roundtrip(spec_entry_field(sector_index as int, sector_count as int));

            // The new slot's entry decodes to the sectors just written.
            assert(spec_entry_field_at(self.bytes(), slot_i) == spec_entry_field(
                sector_index as int, sector_count as int));
            assert(spec_slot_index(self.bytes(), slot_i) == sector_index as int);
            assert(spec_slot_count(self.bytes(), slot_i) == sector_count as int);

            // The frame the new entry points at is untouched by the header
            // write and holds the compressed chunk.
            let start = (sector_index as int) * sect;
            assert(start == pre.bytes().len());
            assert forall|i: int| #![trigger self.bytes()[i]]
                HEADER_SIZE <= i < self.bytes().len() implies self.bytes()[i]
                == mid.bytes()[i] by {
                assert(slot_i * 4 + 4 <= 4096);
            }
            lemma_frame_agree(mid.bytes(), self.bytes(), sector_index as int,
                sector_count as int, comp_s);
            assert(spec_slot_holds_zlib(self.bytes(), slot_i, comp_s));
            assert(spec_writer_slot_wf(self.bytes(), slot_i, self.used(), chunk.data@));

            // Every previously written slot is untouched: its entry bytes
            // and its sectors both lie outside what this call wrote.
            assert forall|s: int| #[trigger] pre.chunks().dom().contains(s) && s != slot_i
                implies spec_writer_slot_wf(self.bytes(), s, self.used(), pre.chunks()[s]) by {
                assert(spec_writer_slot_wf(pre.bytes(), s, used0, pre.chunks()[s]));
                assert(0 <= s < ENTRY_COUNT);
                let o = s * 4;
                assert(o + 4 <= 4096 <= pre.bytes().len());
                assert(o + 4 <= slot_i * 4 || o >= slot_i * 4 + 4);
                assert(mid.bytes().subrange(0, pre.bytes().len() as int)[o] == pre.bytes()[o]);
                assert(mid.bytes().subrange(0, pre.bytes().len() as int)[o + 1]
                    == pre.bytes()[o + 1]);
                assert(mid.bytes().subrange(0, pre.bytes().len() as int)[o + 2]
                    == pre.bytes()[o + 2]);
                assert(mid.bytes().subrange(0, pre.bytes().len() as int)[o + 3]
                    == pre.bytes()[o + 3]);
                lemma_entry_field_agree(pre.bytes(), self.bytes(), s);
                let idx = spec_slot_index(pre.bytes(), s);
                let cnt = spec_slot_count(pre.bytes(), s);
                assert((idx + cnt) * sect <= used0 * sect) by (nonlinear_arith)
                    requires
                        idx + cnt <= used0,
                        sect == 4096,
                        0 <= idx,
                        0 <= cnt;
                assert(2 * sect <= idx * sect) by (nonlinear_arith)
                    requires
                        2 <= idx,
                        sect == 4096;
                assert forall|i: int| #![trigger self.bytes()[i]]
                    idx * sect <= i < (idx + cnt) * sect implies self.bytes()[i]
                    == pre.bytes()[i] by {
                    assert(i >= HEADER_SIZE);
                    assert(i < pre.bytes().len());
                    assert(mid.bytes().subrange(0, pre.bytes().len() as int)[i]
                        == pre.bytes()[i]);
                    assert(self.bytes()[i] == mid.bytes()[i]);
                }
                lemma_frame_agree(pre.bytes(), self.bytes(), idx, cnt, zlib_of(pre.chunks()[s]));
            }

            // Absent slots keep their all-zero entries.
            assert forall|s: int|
                0 <= s < ENTRY_COUNT && !pre.chunks().dom().contains(s) && s != slot_i implies
                spec_entry_field_at(self.bytes(), s) == 0 by {
                let o = s * 4;
                assert(o + 4 <= 4096 <= pre.bytes().len());
                assert(o + 4 <= slot_i * 4 || o >= slot_i * 4 + 4);
                assert(mid.bytes().subrange(0, pre.bytes().len() as int)[o] == pre.bytes()[o]);
                assert(mid.bytes().subrange(0, pre.bytes().len() as int)[o + 1]
                    == pre.bytes()[o + 1]);
                assert(mid.bytes().subrange(0, pre.bytes().len() as int)[o + 2]
                    == pre.bytes()[o + 2]);
                assert(mid.bytes().subrange(0, pre.bytes().len() as int)[o + 3]
                    == pre.bytes()[o + 3]);
                lemma_entry_field_agree(pre.bytes(), self.bytes(), s);
            }
            // The invariant holds of the new state, conjunct by conjunct.
            assert(self.bytes().len() == self.used() * sect);
            assert forall|s: int| #[trigger] self.chunks().dom().contains(s) implies
                0 <= s < ENTRY_COUNT by {
                if s != slot_i {
                    assert(pre.chunks().dom().contains(s));
                }
            }
            assert forall|s: int| #[trigger] self.chunks().dom().contains(s) implies
                spec_writer_slot_wf(self.bytes(), s, self.used(), self.chunks()[s]) by {
                if s == slot_i {
                } else {
                    assert(pre.chunks().dom().contains(s));
                    assert(self.chunks()[s] == pre.chunks()[s]);
                }
            }
            assert(forall|s: int|
                0 <= s < ENTRY_COUNT && !self.chunks().dom().contains(s)
                    ==> spec_entry_field_at(self.bytes(), s) == 0);
            // Everything below the old watermark, except this slot's four
            // entry bytes, is byte-for-byte unchanged.
            assert forall|i: int| #![trigger self.bytes()[i]]
                0 <= i < pre.bytes().len() && !(slot_i * 4 <= i < slot_i * 4 + 4) implies
                self.bytes()[i] == pre.bytes()[i] by {
                assert(mid.bytes().subrange(0, pre.bytes().len() as int)[i] == pre.bytes()[i]);
                assert(self.bytes()[i] == mid.bytes()[i]);
            }
            assert(self.wf());
        }
        Ok(())
    }

    /// The finished region file: the caller persists these bytes. The header
    /// becomes visible to readers only through this handoff, so a writer
    /// abandoned without closing leaves nothing half-flushed behind.
    pub fn close(self) -> (r: Vec<u8>)
        ensures
            r@ == self.bytes(),
    {
        self.buffer
    }

    /// Appends `data` framed to `sector_count` whole sectors: the frame bytes
    /// first, zero padding after.
    fn write_data(&mut self, sector_count: usize, comp: &Vec<u8>)
        requires
            old(self).wf(),
            1 <= sector_count < 0x100,
            comp@.len() + 5 <= sector_count * (SECTOR_SIZE as int),
            old(self).used() + sector_count <= MAX_SECTORS,
            (old(self).used() + sector_count) * (SECTOR_SIZE as int) <= usize::MAX,
            comp@.len() + 1 <= u32::MAX,
        ensures
            final(self).used_sectors == old(self).used_sectors,
            final(self).written@ == old(self).written@,
            final(self).bytes().len() == (old(self).used() + sector_count) * (
                SECTOR_SIZE as int),
            final(self).bytes().subrange(0, old(self).bytes().len() as int) == old(self).bytes(),
            spec_frame_wf(final(self).bytes(), old(self).used(), sector_count as int),
            spec_be32(final(self).bytes(), old(self).used() * (SECTOR_SIZE as int)) == comp@.len()
                + 1,
            final(self).bytes()[old(self).used() * (SECTOR_SIZE as int) + 4] == 2u8,
            final(self).bytes().subrange(old(self).used() * (SECTOR_SIZE as int) + 5, old(
                self).used() * (SECTOR_SIZE as int) + 5 + comp@.len() as int) == comp@,
    {
        let ghost old_bytes = self.buffer@;
        let ghost used0 = old(self).used();
        let ghost start = old(self).used() * (SECTOR_SIZE as int);
        proof {
            assert(old_bytes.len() == start);
            assert(start + sector_count * (SECTOR_SIZE as int) == (used0 + sector_count) * (
                SECTOR_SIZE as int)) by (nonlinear_arith)
                requires
                    start == used0 * (SECTOR_SIZE as int);
            assert(sector_count * (SECTOR_SIZE as int) <= 0x100 * 4096) by (nonlinear_arith)
                requires
                    sector_count < 0x100,
                    SECTOR_SIZE == 4096;
        }
        let exact_length: u32 = (comp.len() + 1) as u32;
        push_be32(&mut self.buffer, exact_length);
        self.buffer.push(2u8);
        copy_bytes(&mut self.buffer, comp.as_slice());
        let ghost total_sectors = old(self).used() + sector_count;
        proof {
            assert(total_sectors * 4096 <= 0x1000000 * 4096) by (nonlinear_arith)
                requires
                    total_sectors <= 0x1000000;
        }
        let target: usize = ((self.used_sectors as u64 + sector_count as u64) * (
            SECTOR_SIZE as u64)) as usize;
        let ghost staged = self.buffer@;
        while self.buffer.len() < target
            invariant
                staged.len() <= self.buffer@.len() <= target,
                self.buffer@.subrange(0, staged.len() as int) == staged,
                forall|i: int| staged.len() <= i < self.buffer@.len() ==> self.buffer@[i] == 0u8,
                self.used_sectors == old(self).used_sectors,
                self.written == old(self).written,
            decreases target - self.buffer.len(),
        {
            self.buffer.push(0u8);
            proof {
                assert(self.buffer@.subrange(0, staged.len() as int) =~= staged);
            }
        }
        proof {
            let bytes = self.buffer@;
            assert(bytes.len() == target);
            // The length field, mode byte, and payload all sit inside the
            // staged prefix, which the padding loop preserved.
            assert forall|i: int| 0 <= i < staged.len() implies bytes[i] == staged[i] by {
                assert(bytes.subrange(0, staged.len() as int)[i] == staged[i]);
            }
            assert(bytes.subrange(0, old_bytes.len() as int) =~= old_bytes);
            assert(spec_be32_bytes(exact_length as int).len() == 4);
            assert(bytes[start] == spec_be32_bytes(exact_length as int)[0]);
            assert(bytes[start + 1] == spec_be32_bytes(exact_length as int)[1]);
            assert(bytes[start + 2] == spec_be32_bytes(exact_length as int)[2]);
            assert(bytes[start + 3] == spec_be32_bytes(exact_length as int)[3]);
            lemma_be32_roundtrip(exact_length as int);
            assert(spec_be32(bytes, start) == exact_length as int);
            assert(bytes[start + 4] == 2u8);
            assert(bytes.subrange(start + 5, start + 5 + comp@.len() as int) =~= comp@);
        }
    }

    /// Packs `entry` into four big-endian bytes at `slot`'s offset in the
    /// location header.
    fn write_entry(&mut self, entry: RegionEntry, slot: usize)
        requires
            slot < ENTRY_COUNT,
            old(self).bytes().len() >= HEADER_SIZE,
            entry.sector_index < 0x1000000,
            entry.sector_count < 0x100,
        ensures
            final(self).used_sectors == old(self).used_sectors,
            final(self).written@ == old(self).written@,
            final(self).bytes().len() == old(self).bytes().len(),
            forall|i: int|
                0 <= i < old(self).bytes().len() && !(slot * 4 <= i < slot * 4 + 4)
                    ==> final(self).bytes()[i] == old(self).bytes()[i],
            ({
                let field = spec_entry_field(entry.sector_index as int, entry.sector_count as int);
                &&& final(self).bytes()[slot * 4] == spec_be32_bytes(field)[0]
                &&& final(self).bytes()[slot * 4 + 1] == spec_be32_bytes(field)[1]
                &&& final(self).bytes()[slot * 4 + 2] == spec_be32_bytes(field)[2]
                &&& final(self).bytes()[slot * 4 + 3] == spec_be32_bytes(field)[3]
            }),
    {
        let field = entry.encode_field();
        let offset = slot * 4;
        self.buffer.set(offset, (field / 0x1000000 % 0x100) as u8);
        self.buffer.set(offset + 1, (field / 0x10000 % 0x100) as u8);
        self.buffer.set(offset + 2, (field / 0x100 % 0x100) as u8);
        self.buffer.set(offset + 3, (field % 0x100) as u8);
    }

    /// The header slot for a chunk position: both coordinates wrap into the
    /// 32-by-32 grid. Never faults, even on negative coordinates.
    fn slot_for(pos: ChunkPos) -> (r: usize)
        ensures
            r as int == spec_slot_of_pos(pos),
            r < ENTRY_COUNT,
    {
        let x = ((pos.x % 32) + 32) % 32;
        let z = ((pos.z % 32) + 32) % 32;
        (x as usize) + (z as usize) * 32
    }
}

/// Appends the four big-endian bytes of `v` to `dst`.
fn push_be32(dst: &mut Vec<u8>, v: u32)
    ensures
        final(dst)@ == old(dst)@ + spec_be32_bytes(v as int),
{
    dst.push((v / 0x1000000 % 0x100) as u8);
    dst.push((v / 0x10000 % 0x100) as u8);
    dst.push((v / 0x100 % 0x100) as u8);
    dst.push((v % 0x100) as u8);
    assert(dst@ =~= old(dst)@ + spec_be32_bytes(v as int));
}

/// Two byte strings that agree on a slot's four entry bytes hold the same
/// packed entry field there.
proof fn lemma_entry_field_agree(b1: Seq<u8>, b2: Seq<u8>, s: int)
    requires
        0 <= s,
        s * 4 + 4 <= b1.len(),
        b2.len() >= b1.len(),
        b2[s * 4] == b1[s * 4],
        b2[s * 4 + 1] == b1[s * 4 + 1],
        b2[s * 4 + 2] == b1[s * 4 + 2],
        b2[s * 4 + 3] == b1[s * 4 + 3],
    ensures
        spec_entry_field_at(b2, s) == spec_entry_field_at(b1, s),
{
}

/// Two byte strings that agree on a frame's sector range see the same
/// well-formed frame, mode byte, and payload there.
proof fn lemma_frame_agree(b1: Seq<u8>, b2: Seq<u8>, idx: int, cnt: int, payload: Seq<u8>)
    requires
        spec_frame_wf(b1, idx, cnt),
        spec_be32(b1, idx * (SECTOR_SIZE as int)) == payload.len() + 1,
        b1[idx * (SECTOR_SIZE as int) + 4] == 2u8,
        b1.subrange(idx * (SECTOR_SIZE as int) + 5, idx * (SECTOR_SIZE as int) + 5
            + payload.len() as int) == payload,
        b2.len() >= b1.len(),
        forall|i: int|
            idx * (SECTOR_SIZE as int) <= i < (idx + cnt) * (SECTOR_SIZE as int) ==> b2[i]
                == b1[i],
    ensures
        spec_frame_wf(b2, idx, cnt),
        spec_be32(b2, idx * (SECTOR_SIZE as int)) == payload.len() + 1,
        b2[idx * (SECTOR_SIZE as int) + 4] == 2u8,
        b2.subrange(idx * (SECTOR_SIZE as int) + 5, idx * (SECTOR_SIZE as int) + 5
            + payload.len() as int) == payload,
{
    let start = idx * (SECTOR_SIZE as int);
    assert(start + cnt * (SECTOR_SIZE as int) == (idx + cnt) * (SECTOR_SIZE as int)) by (
        nonlinear_arith)
        requires
            start == idx * (SECTOR_SIZE as int);
    assert(b2[start] == b1[start]);
    assert(b2[start + 1] == b1[start + 1]);
    assert(b2[start + 2] == b1[start + 2]);
    assert(b2[start + 3] == b1[start + 3]);
    assert(spec_be32(b2, start) == spec_be32(b1, start));
    assert(b2.subrange(start + 5, start + 5 + payload.len() as int) =~= b1.subrange(start + 5,
        start + 5 + payload.len() as int));
}

} // verus!
