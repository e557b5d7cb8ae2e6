//! The library's cross-function guarantees, stated and proved once: what a
//! reader finds in a file the writer built, the writer's alignment invariant,
//! a fresh region's emptiness, and what tag surgery leaves untouched.

use vstd::prelude::*;

use crate::chunk::{Chunk, RegionError};
use crate::header::{ENTRY_COUNT, HEADER_SIZE, SECTOR_SIZE};
use crate::nbt::Nbt;
use crate::region::{spec_chunk_result_matches, spec_slot_absent, spec_slot_position};
use crate::strip::{
    name_level, name_sections, spec_filter_lights, spec_light_name, spec_prune_top,
    spec_removed_name,
};
use crate::writer::{RegionFileWriter, spec_writer_slot_wf};
use crate::zlib::zlib_of;

verus! {

/// Write-then-read identity, per slot: any result that satisfies the
/// reader's per-slot contract on the bytes a well-formed writer holds, at a
/// slot that writer wrote, is a present chunk carrying exactly the data most
/// recently written there, at that slot's position.
pub proof fn lemma_write_then_read(
    w: &RegionFileWriter,
    slot: int,
    r: Result<Option<Chunk>, RegionError>,
)
    requires
        w.wf(),
        w.chunks().dom().contains(slot),
        spec_chunk_result_matches(r, w.bytes(), slot),
    ensures
        r matches Ok(chunk) && chunk matches Some(c) && c.data@ == w.chunks()[slot]
            && c.position == spec_slot_position(slot),
{
    assert(spec_writer_slot_wf(w.bytes(), slot, w.used(), w.chunks()[slot]));
    assert(crate::region::spec_slot_holds_zlib(w.bytes(), slot, zlib_of(w.chunks()[slot])));
}

/// A slot the writer never wrote reads back absent.
pub proof fn lemma_unwritten_slot_reads_absent(
    w: &RegionFileWriter,
    slot: int,
    r: Result<Option<Chunk>, RegionError>,
)
    requires
        w.wf(),
        0 <= slot < ENTRY_COUNT,
        !w.chunks().dom().contains(slot),
        spec_chunk_result_matches(r, w.bytes(), slot),
    ensures
        r == Ok::<Option<Chunk>, RegionError>(None),
{
    assert(crate::region::spec_entry_field_at(w.bytes(), slot) == 0);
    assert(spec_slot_absent(w.bytes(), slot));
}

/// Sector alignment: a well-formed writer's file length is always the used
/// sector count times the sector size, a whole multiple of the sector size.
pub proof fn lemma_sector_alignment(w: &RegionFileWriter)
    requires
        w.wf(),
    ensures
        w.bytes().len() == w.used() * (SECTOR_SIZE as int),
        (w.bytes().len() as int) % (SECTOR_SIZE as int) == 0,
{
    assert((w.used() * (SECTOR_SIZE as int)) % (SECTOR_SIZE as int) == 0) by (nonlinear_arith)
        requires
            SECTOR_SIZE == 4096;
}

/// Absent-slot fidelity: a writer that wrote nothing holds exactly the two
/// zeroed header sectors, and every one of its 1024 slots reads absent.
pub proof fn lemma_new_region_all_absent(w: &RegionFileWriter)
    requires
        w.wf(),
        w.used() == 2,
        w.chunks() == Map::<int, Seq<u8>>::empty(),
    ensures
        w.bytes().len() == HEADER_SIZE,
        forall|s: int| 0 <= s < ENTRY_COUNT ==> spec_slot_absent(w.bytes(), s),
{
    assert forall|s: int| 0 <= s < ENTRY_COUNT implies spec_slot_absent(w.bytes(), s) by {
        assert(!w.chunks().dom().contains(s));
        assert(crate::region::spec_entry_field_at(w.bytes(), s) == 0);
    }
}

/// Strip preserves unrelated top-level tags: an entry whose name is none of
/// the handled ones survives pruning unchanged, in order.
pub proof fn lemma_strip_preserves_unrelated(entries: Seq<(Seq<u8>, Nbt)>, i: int, k: int)
    requires
        0 <= i <= k < entries.len(),
        !spec_removed_name(entries[k].0),
        entries[k].0 != name_sections(),
        entries[k].0 != name_level(),
    ensures
        spec_prune_top(entries, i).contains(entries[k]),
    decreases entries.len() - i,
{
    let e = entries[i];
    let rest = spec_prune_top(entries, i + 1);
    if i == k {
        assert(spec_prune_top(entries, i)[0] == e);
    } else {
        lemma_strip_preserves_unrelated(entries, i + 1, k);
        let w = choose|m: int| 0 <= m < rest.len() && rest[m] == entries[k];
        if spec_removed_name(e.0) {
            assert(spec_prune_top(entries, i)[w] == entries[k]);
        } else {
            assert(spec_prune_top(entries, i)[w + 1] == entries[k]);
        }
    }
}

/// Strip preserves unrelated section fields: an entry of a section compound
/// that is not a light array survives the light filter unchanged.
pub proof fn lemma_strip_preserves_section_fields(es: Seq<(Seq<u8>, Nbt)>, i: int, k: int)
    requires
        0 <= i <= k < es.len(),
        !spec_light_name(es[k].0),
    ensures
        spec_filter_lights(es, i).contains(es[k]),
    decreases es.len() - i,
{
    let e = es[i];
    let rest = spec_filter_lights(es, i + 1);
    if i == k {
        assert(spec_filter_lights(es, i)[0] == e);
    } else {
        lemma_strip_preserves_section_fields(es, i + 1, k);
        let w = choose|m: int| 0 <= m < rest.len() && rest[m] == es[k];
        if spec_light_name(e.0) {
            assert(spec_filter_lights(es, i)[w] == es[k]);
        } else {
            assert(spec_filter_lights(es, i)[w + 1] == es[k]);
        }
    }
}

} // verus!
