//! Tag surgery: prunes derived, regenerable subtrees from a chunk's tag
//! tree and re-serializes it.
//!
//! At the top level of a compound root the children named `Heightmaps` and
//! `isLightOn` are removed; each compound element of a `sections` list child
//! loses its `SkyLight` and `BlockLight` children. Worlds that keep their
//! chunk state under a `Level` compound get the same treatment applied to
//! that compound's children. Everything else survives byte for byte.

use vstd::prelude::*;

use crate::chunk::{Chunk, RegionError};
use crate::header::ENTRY_COUNT;
use crate::region::{
    RegionFile, lemma_slot_error_classified, lemma_slot_present_decoded,
    spec_chunk_result_matches, spec_slot_absent, spec_slot_corrupt, spec_slot_decoded,
    spec_slot_frame_wf, spec_slot_holds_zlib, spec_slot_mode, spec_slot_position,
};
use crate::writer::{RegionFileWriter, spec_slot_of_pos};
use crate::zlib::zlib_of;
use crate::nbt::{
    Nbt, NbtEntry, NbtTag, lemma_parse_payload_wf, lemma_view_entries_index,
    lemma_view_entries_prepend, lemma_view_elems_index, lemma_view_elems_prepend,
    nbt_entries_wf, nbt_entry_wf, nbt_wf, nbt_view, parse_root, ser_root, spec_parse_root,
    spec_ser_root, spec_tag_of, spec_view_elems, spec_view_entries,
};

verus! {

/// The bytes of the name `Heightmaps`.
pub open spec fn name_heightmaps() -> Seq<u8> {
    seq![0x48u8, 0x65u8, 0x69u8, 0x67u8, 0x68u8, 0x74u8, 0x6du8, 0x61u8, 0x70u8, 0x73u8]
}

/// The bytes of the name `isLightOn`.
pub open spec fn name_is_light_on() -> Seq<u8> {
    seq![0x69u8, 0x73u8, 0x4cu8, 0x69u8, 0x67u8, 0x68u8, 0x74u8, 0x4fu8, 0x6eu8]
}

/// The bytes of the name `sections`.
pub open spec fn name_sections() -> Seq<u8> {
    seq![0x73u8, 0x65u8, 0x63u8, 0x74u8, 0x69u8, 0x6fu8, 0x6eu8, 0x73u8]
}

/// The bytes of the name `SkyLight`.
pub open spec fn name_sky_light() -> Seq<u8> {
    seq![0x53u8, 0x6bu8, 0x79u8, 0x4cu8, 0x69u8, 0x67u8, 0x68u8, 0x74u8]
}

/// The bytes of the name `BlockLight`.
pub open spec fn name_block_light() -> Seq<u8> {
    seq![0x42u8, 0x6cu8, 0x6fu8, 0x63u8, 0x6bu8, 0x4cu8, 0x69u8, 0x67u8, 0x68u8, 0x74u8]
}

/// The bytes of the name `Level`.
pub open spec fn name_level() -> Seq<u8> {
    seq![0x4cu8, 0x65u8, 0x76u8, 0x65u8, 0x6cu8]
}

/// A name removed from a pruned compound.
pub open spec fn spec_removed_name(name: Seq<u8>) -> bool {
    name == name_heightmaps() || name == name_is_light_on()
}

/// A per-section light array's name.
pub open spec fn spec_light_name(name: Seq<u8>) -> bool {
    name == name_sky_light() || name == name_block_light()
}

/// The entries of one section compound with its light arrays removed.
pub open spec fn spec_filter_lights(es: Seq<(Seq<u8>, Nbt)>, i: int) -> Seq<(Seq<u8>, Nbt)>
    decreases es.len() - i,
{
    if 0 <= i < es.len() {
        let rest = spec_filter_lights(es, i + 1);
        if spec_light_name(es[i].0) {
            rest
        } else {
            seq![es[i]] + rest
        }
    } else {
        Seq::empty()
    }
}

/// One element of a `sections` list after pruning: compounds lose their light
/// arrays, anything else is untouched.
pub open spec fn spec_prune_section_elem(v: Nbt) -> Nbt {
    match v {
        Nbt::Compound(es) => Nbt::Compound(spec_filter_lights(es, 0)),
        _ => v,
    }
}

/// The elements of a `sections` list after pruning, in order.
pub open spec fn spec_prune_section_elems(elems: Seq<Nbt>, i: int) -> Seq<Nbt>
    decreases elems.len() - i,
{
    if 0 <= i < elems.len() {
        seq![spec_prune_section_elem(elems[i])] + spec_prune_section_elems(elems, i + 1)
    } else {
        Seq::empty()
    }
}

/// The value of a `sections` child after pruning: a list is pruned element by
/// element, anything else is untouched.
pub open spec fn spec_prune_sections_value(v: Nbt) -> Nbt {
    match v {
        Nbt::List(t, elems) => Nbt::List(t, spec_prune_section_elems(elems, 0)),
        _ => v,
    }
}

/// A compound's entries after pruning, without `Level` handling: the removed
/// names are dropped and a `sections` child is pruned.
pub open spec fn spec_prune_inner(entries: Seq<(Seq<u8>, Nbt)>, i: int) -> Seq<(Seq<u8>, Nbt)>
    decreases entries.len() - i,
{
    if 0 <= i < entries.len() {
        let e = entries[i];
        let rest = spec_prune_inner(entries, i + 1);
        if spec_removed_name(e.0) {
            rest
        } else if e.0 == name_sections() {
            seq![(e.0, spec_prune_sections_value(e.1))] + rest
        } else {
            seq![e] + rest
        }
    } else {
        Seq::empty()
    }
}

/// The value of a `Level` child after pruning: a compound is pruned like a
/// top level, anything else is untouched.
pub open spec fn spec_prune_level_value(v: Nbt) -> Nbt {
    match v {
        Nbt::Compound(es) => Nbt::Compound(spec_prune_inner(es, 0)),
        _ => v,
    }
}

/// A root compound's entries after pruning: the removed names are dropped, a
/// `sections` child is pruned, and a `Level` compound is pruned inside.
pub open spec fn spec_prune_top(entries: Seq<(Seq<u8>, Nbt)>, i: int) -> Seq<(Seq<u8>, Nbt)>
    decreases entries.len() - i,
{
    if 0 <= i < entries.len() {
        let e = entries[i];
        let rest = spec_prune_top(entries, i + 1);
        if spec_removed_name(e.0) {
            rest
        } else if e.0 == name_sections() {
            seq![(e.0, spec_prune_sections_value(e.1))] + rest
        } else if e.0 == name_level() {
            seq![(e.0, spec_prune_level_value(e.1))] + rest
        } else {
            seq![e] + rest
        }
    } else {
        Seq::empty()
    }
}

/// A whole tag tree after pruning: only a compound root changes.
pub open spec fn spec_prune_root(n: Nbt) -> Nbt {
    match n {
        Nbt::Compound(entries) => Nbt::Compound(spec_prune_top(entries, 0)),
        _ => n,
    }
}

/// What stripping a chunk's bytes yields: `None` where the bytes are not one
/// whole tag document; the bytes unchanged where the root is not a compound;
/// otherwise the re-serialized pruned tree under the same root name.
pub open spec fn spec_strip_bytes(bytes: Seq<u8>) -> Option<Seq<u8>> {
    match spec_parse_root(bytes) {
        None => None,
        Some((name, v, j)) => if j != bytes.len() {
            None
        } else if !(v is Compound) {
            Some(bytes)
        } else {
            Some(spec_ser_root(name, spec_prune_root(v)))
        },
    }
}

/// Whether `name` holds exactly the bytes of `Heightmaps`.
fn is_heightmaps(name: &Vec<u8>) -> (r: bool)
    ensures
        r == (name@ == name_heightmaps()),
{
    let r = name.len() == 10 && name[0] == 0x48 && name[1] == 0x65 && name[2] == 0x69 && name[3]
        == 0x67 && name[4] == 0x68 && name[5] == 0x74 && name[6] == 0x6d && name[7] == 0x61
        && name[8] == 0x70 && name[9] == 0x73;
    proof {
        if r {
            assert(name@ =~= name_heightmaps());
        }
    }
    r
}

/// Whether `name` holds exactly the bytes of `isLightOn`.
fn is_is_light_on(name: &Vec<u8>) -> (r: bool)
    ensures
        r == (name@ == name_is_light_on()),
{
    let r = name.len() == 9 && name[0] == 0x69 && name[1] == 0x73 && name[2] == 0x4c && name[3]
        == 0x69 && name[4] == 0x67 && name[5] == 0x68 && name[6] == 0x74 && name[7] == 0x4f
        && name[8] == 0x6e;
    proof {
        if r {
            assert(name@ =~= name_is_light_on());
        }
    }
    r
}

/// Whether `name` holds exactly the bytes of `sections`.
fn is_sections(name: &Vec<u8>) -> (r: bool)
    ensures
        r == (name@ == name_sections()),
{
    let r = name.len() == 8 && name[0] == 0x73 && name[1] == 0x65 && name[2] == 0x63 && name[3]
        == 0x74 && name[4] == 0x69 && name[5] == 0x6f && name[6] == 0x6e && name[7] == 0x73;
    proof {
        if r {
            assert(name@ =~= name_sections());
        }
    }
    r
}

/// Whether `name` holds exactly the bytes of `SkyLight`.
fn is_sky_light(name: &Vec<u8>) -> (r: bool)
    ensures
        r == (name@ == name_sky_light()),
{
    let r = name.len() == 8 && name[0] == 0x53 && name[1] == 0x6b && name[2] == 0x79 && name[3]
        == 0x4c && name[4] == 0x69 && name[5] == 0x67 && name[6] == 0x68 && name[7] == 0x74;
    proof {
        if r {
            assert(name@ =~= name_sky_light());
        }
    }
    r
}

/// Whether `name` holds exactly the bytes of `BlockLight`.
fn is_block_light(name: &Vec<u8>) -> (r: bool)
    ensures
        r == (name@ == name_block_light()),
{
    let r = name.len() == 10 && name[0] == 0x42 && name[1] == 0x6c && name[2] == 0x6f && name[3]
        == 0x63 && name[4] == 0x6b && name[5] == 0x4c && name[6] == 0x69 && name[7] == 0x67
        && name[8] == 0x68 && name[9] == 0x74;
    proof {
        if r {
            assert(name@ =~= name_block_light());
        }
    }
    r
}

/// Whether `name` holds exactly the bytes of `Level`.
fn is_level(name: &Vec<u8>) -> (r: bool)
    ensures
        r == (name@ == name_level()),
{
    let r = name.len() == 5 && name[0] == 0x4c && name[1] == 0x65 && name[2] == 0x76 && name[3]
        == 0x65 && name[4] == 0x6c;
    proof {
        if r {
            assert(name@ =~= name_level());
        }
    }
    r
}

/// Removes the light arrays from one section compound's entries.
fn filter_lights_exec(mut es: Vec<NbtEntry>) -> (r: Vec<NbtEntry>)
    ensures
        spec_view_entries(r@, 0) == spec_filter_lights(spec_view_entries(es@, 0), 0),
    decreases es@.len(),
{
    let ghost orig = spec_view_entries(es@, 0);
    proof {
        lemma_view_entries_index(es@, 0);
    }
    let mut out: Vec<NbtEntry> = Vec::new();
    while es.len() > 0
        invariant
            spec_view_entries(out@, 0) + spec_filter_lights(spec_view_entries(es@, 0), 0)
                == spec_filter_lights(orig, 0),
        decreases es@.len(),
    {
        let ghost es_pre = es@;
        let e = es.remove(0);
        proof {
            assert(es_pre =~= seq![e] + es@);
            lemma_view_entries_prepend(e, es@);
            lemma_filter_lights_prepend((e.name@, nbt_view(e.value)), spec_view_entries(es@, 0));
        }
        let keep = !(is_sky_light(&e.name) || is_block_light(&e.name));
        if keep {
            let ghost out_pre = out@;
            out.push(e);
            proof {
                lemma_view_entries_snoc(out_pre, e);
                assert(spec_view_entries(out@, 0) + spec_filter_lights(
                    spec_view_entries(es@, 0), 0) =~= spec_filter_lights(orig, 0));
            }
        }
    }
    proof {
        assert(spec_view_entries(es@, 0) =~= Seq::<(Seq<u8>, Nbt)>::empty());
        assert(spec_view_entries(out@, 0) =~= spec_view_entries(out@, 0) + spec_filter_lights(
            spec_view_entries(es@, 0), 0));
    }
    out
}

/// Prunes the value of a `sections` child.
fn prune_sections_value_exec(v: NbtTag) -> (r: NbtTag)
    ensures
        r@ == spec_prune_sections_value(v@),
{
    match v {
        NbtTag::List(et, mut children) => {
            let ghost orig = spec_view_elems(children@, 0);
            let mut out: Vec<NbtTag> = Vec::new();
            while children.len() > 0
                invariant
                    spec_view_elems(out@, 0) + spec_prune_section_elems(
                        spec_view_elems(children@, 0), 0) == spec_prune_section_elems(orig, 0),
                decreases children@.len(),
            {
                let ghost pre = children@;
                let c = children.remove(0);
                proof {
                    assert(pre =~= seq![c] + children@);
                    lemma_view_elems_prepend(c, children@);
                    lemma_prune_section_elems_prepend(nbt_view(c), spec_view_elems(
                        children@, 0));
                }
                let pruned = match c {
                    NbtTag::Compound(es) => NbtTag::Compound(filter_lights_exec(es)),
                    other => other,
                };
                let ghost out_pre = out@;
                out.push(pruned);
                proof {
                    lemma_view_elems_snoc(out_pre, pruned);
                    assert(spec_view_elems(out@, 0) + spec_prune_section_elems(
                        spec_view_elems(children@, 0), 0) =~= spec_prune_section_elems(
                        orig, 0));
                }
            }
            proof {
                assert(spec_view_elems(children@, 0) =~= Seq::<Nbt>::empty());
                assert(spec_view_elems(out@, 0) =~= spec_view_elems(out@, 0)
                    + spec_prune_section_elems(spec_view_elems(children@, 0), 0));
            }
            NbtTag::List(et, out)
        },
        other => other,
    }
}

/// Prunes a compound's entries without `Level` handling.
fn prune_inner_exec(mut entries: Vec<NbtEntry>) -> (r: Vec<NbtEntry>)
    ensures
        spec_view_entries(r@, 0) == spec_prune_inner(spec_view_entries(entries@, 0), 0),
{
    let ghost orig = spec_view_entries(entries@, 0);
    let mut out: Vec<NbtEntry> = Vec::new();
    while entries.len() > 0
        invariant
            spec_view_entries(out@, 0) + spec_prune_inner(spec_view_entries(entries@, 0), 0)
                == spec_prune_inner(orig, 0),
        decreases entries@.len(),
    {
        let ghost pre = entries@;
        let e = entries.remove(0);
        proof {
            assert(pre =~= seq![e] + entries@);
            lemma_view_entries_prepend(e, entries@);
            lemma_prune_inner_prepend((e.name@, nbt_view(e.value)), spec_view_entries(
                entries@, 0));
        }
        if is_heightmaps(&e.name) || is_is_light_on(&e.name) {
            // dropped
        } else if is_sections(&e.name) {
            let NbtEntry { name, value } = e;
            let pruned = NbtEntry { name, value: prune_sections_value_exec(value) };
            let ghost out_pre = out@;
            out.push(pruned);
            proof {
                lemma_view_entries_snoc(out_pre, pruned);
                assert(spec_view_entries(out@, 0) + spec_prune_inner(
                    spec_view_entries(entries@, 0), 0) =~= spec_prune_inner(orig, 0));
            }
        } else {
            let ghost out_pre = out@;
            out.push(e);
            proof {
                lemma_view_entries_snoc(out_pre, e);
                assert(spec_view_entries(out@, 0) + spec_prune_inner(
                    spec_view_entries(entries@, 0), 0) =~= spec_prune_inner(orig, 0));
            }
        }
    }
    proof {
        assert(spec_view_entries(entries@, 0) =~= Seq::<(Seq<u8>, Nbt)>::empty());
        assert(spec_view_entries(out@, 0) =~= spec_view_entries(out@, 0) + spec_prune_inner(
            spec_view_entries(entries@, 0), 0));
    }
    out
}

/// Prunes a root compound's entries, `Level` handling included.
fn prune_top_exec(mut entries: Vec<NbtEntry>) -> (r: Vec<NbtEntry>)
    ensures
        spec_view_entries(r@, 0) == spec_prune_top(spec_view_entries(entries@, 0), 0),
{
    let ghost orig = spec_view_entries(entries@, 0);
    let mut out: Vec<NbtEntry> = Vec::new();
    while entries.len() > 0
        invariant
            spec_view_entries(out@, 0) + spec_prune_top(spec_view_entries(entries@, 0), 0)
                == spec_prune_top(orig, 0),
        decreases entries@.len(),
    {
        let ghost pre = entries@;
        let e = entries.remove(0);
        proof {
            assert(pre =~= seq![e] + entries@);
            lemma_view_entries_prepend(e, entries@);
            lemma_prune_top_prepend((e.name@, nbt_view(e.value)), spec_view_entries(
                entries@, 0));
        }
        if is_heightmaps(&e.name) || is_is_light_on(&e.name) {
            // dropped
        } else {
            let pruned = if is_sections(&e.name) {
                let NbtEntry { name, value } = e;
                NbtEntry { name, value: prune_sections_value_exec(value) }
            } else if is_level(&e.name) {
                let NbtEntry { name, value } = e;
                let value = match value {
                    NbtTag::Compound(es) => NbtTag::Compound(prune_inner_exec(es)),
                    other => other,
                };
                NbtEntry { name, value }
            } else {
                e
            };
            let ghost out_pre = out@;
            out.push(pruned);
            proof {
                lemma_view_entries_snoc(out_pre, pruned);
                assert(spec_view_entries(out@, 0) + spec_prune_top(
                    spec_view_entries(entries@, 0), 0) =~= spec_prune_top(orig, 0));
            }
        }
    }
    proof {
        assert(spec_view_entries(entries@, 0) =~= Seq::<(Seq<u8>, Nbt)>::empty());
        assert(spec_view_entries(out@, 0) =~= spec_view_entries(out@, 0) + spec_prune_top(
            spec_view_entries(entries@, 0), 0));
    }
    out
}

/// Viewing after a push appends the pushed element's view.
proof fn lemma_view_entries_snoc(s: Seq<NbtEntry>, e: NbtEntry)
    ensures
        spec_view_entries(s.push(e), 0) == spec_view_entries(s, 0).push((e.name@, nbt_view(
            e.value))),
{
    lemma_view_entries_index(s.push(e), 0);
    lemma_view_entries_index(s, 0);
    let lhs = spec_view_entries(s.push(e), 0);
    let rhs = spec_view_entries(s, 0).push((e.name@, nbt_view(e.value)));
    assert(lhs.len() == rhs.len());
    assert forall|k: int| 0 <= k < lhs.len() implies lhs[k] == rhs[k] by {
        assert(lhs[k] == ((s.push(e))[k].name@, nbt_view((s.push(e))[k].value)));
        if k < s.len() {
            assert((s.push(e))[k] == s[k]);
            assert(rhs[k] == (s[k].name@, nbt_view(s[k].value)));
        } else {
            assert((s.push(e))[k] == e);
        }
    }
    assert(lhs =~= rhs);
}

/// Viewing after a push appends the pushed element's view.
proof fn lemma_view_elems_snoc(s: Seq<NbtTag>, v: NbtTag)
    ensures
        spec_view_elems(s.push(v), 0) == spec_view_elems(s, 0).push(nbt_view(v)),
{
    lemma_view_elems_index(s.push(v), 0);
    lemma_view_elems_index(s, 0);
    let lhs = spec_view_elems(s.push(v), 0);
    let rhs = spec_view_elems(s, 0).push(nbt_view(v));
    assert(lhs.len() == rhs.len());
    assert forall|k: int| 0 <= k < lhs.len() implies lhs[k] == rhs[k] by {
        assert(lhs[k] == nbt_view((s.push(v))[k]));
        if k < s.len() {
            assert((s.push(v))[k] == s[k]);
            assert(rhs[k] == nbt_view(s[k]));
        } else {
            assert((s.push(v))[k] == v);
        }
    }
    assert(lhs =~= rhs);
}

/// What pruning makes of one top-level entry: nothing for a removed name,
/// otherwise exactly one transformed entry.
pub open spec fn spec_prune_top_one(e: (Seq<u8>, Nbt)) -> Seq<(Seq<u8>, Nbt)> {
    if spec_removed_name(e.0) {
        Seq::empty()
    } else if e.0 == name_sections() {
        seq![(e.0, spec_prune_sections_value(e.1))]
    } else if e.0 == name_level() {
        seq![(e.0, spec_prune_level_value(e.1))]
    } else {
        seq![e]
    }
}

/// What pruning makes of one non-root entry.
pub open spec fn spec_prune_inner_one(e: (Seq<u8>, Nbt)) -> Seq<(Seq<u8>, Nbt)> {
    if spec_removed_name(e.0) {
        Seq::empty()
    } else if e.0 == name_sections() {
        seq![(e.0, spec_prune_sections_value(e.1))]
    } else {
        seq![e]
    }
}

/// Pruning distributes over a prepended top-level entry.
pub proof fn lemma_prune_top_prepend(e: (Seq<u8>, Nbt), rest: Seq<(Seq<u8>, Nbt)>)
    ensures
        spec_prune_top(seq![e] + rest, 0) == spec_prune_top_one(e) + spec_prune_top(rest, 0),
{
    lemma_prune_top_shift(e, rest, 0);
    assert((seq![e] + rest)[0] == e);
    if spec_removed_name(e.0) {
        assert(spec_prune_top(seq![e] + rest, 0) =~= spec_prune_top_one(e) + spec_prune_top(
            rest, 0));
    }
}

proof fn lemma_prune_top_shift(e: (Seq<u8>, Nbt), rest: Seq<(Seq<u8>, Nbt)>, i: int)
    requires
        0 <= i,
    ensures
        spec_prune_top(seq![e] + rest, i + 1) == spec_prune_top(rest, i),
    decreases rest.len() - i,
{
    let s = seq![e] + rest;
    if i < rest.len() {
        assert(s[i + 1] == rest[i]);
        lemma_prune_top_shift(e, rest, i + 1);
    }
}

/// Pruning distributes over a prepended non-root entry.
pub proof fn lemma_prune_inner_prepend(e: (Seq<u8>, Nbt), rest: Seq<(Seq<u8>, Nbt)>)
    ensures
        spec_prune_inner(seq![e] + rest, 0) == spec_prune_inner_one(e) + spec_prune_inner(
            rest, 0),
{
    lemma_prune_inner_shift(e, rest, 0);
    assert((seq![e] + rest)[0] == e);
    if spec_removed_name(e.0) {
        assert(spec_prune_inner(seq![e] + rest, 0) =~= spec_prune_inner_one(e)
            + spec_prune_inner(rest, 0));
    }
}

proof fn lemma_prune_inner_shift(e: (Seq<u8>, Nbt), rest: Seq<(Seq<u8>, Nbt)>, i: int)
    requires
        0 <= i,
    ensures
        spec_prune_inner(seq![e] + rest, i + 1) == spec_prune_inner(rest, i),
    decreases rest.len() - i,
{
    let s = seq![e] + rest;
    if i < rest.len() {
        assert(s[i + 1] == rest[i]);
        lemma_prune_inner_shift(e, rest, i + 1);
    }
}

/// Filtering distributes over a prepended entry.
pub proof fn lemma_filter_lights_prepend(e: (Seq<u8>, Nbt), rest: Seq<(Seq<u8>, Nbt)>)
    ensures
        spec_filter_lights(seq![e] + rest, 0) == (if spec_light_name(e.0) {
            Seq::empty()
        } else {
            seq![e]
        }) + spec_filter_lights(rest, 0),
{
    lemma_filter_lights_shift(e, rest, 0);
    assert((seq![e] + rest)[0] == e);
    if spec_light_name(e.0) {
        assert(spec_filter_lights(seq![e] + rest, 0) =~= (if spec_light_name(e.0) {
            Seq::empty()
        } else {
            seq![e]
        }) + spec_filter_lights(rest, 0));
    }
}

proof fn lemma_filter_lights_shift(e: (Seq<u8>, Nbt), rest: Seq<(Seq<u8>, Nbt)>, i: int)
    requires
        0 <= i,
    ensures
        spec_filter_lights(seq![e] + rest, i + 1) == spec_filter_lights(rest, i),
    decreases rest.len() - i,
{
    let s = seq![e] + rest;
    if i < rest.len() {
        assert(s[i + 1] == rest[i]);
        lemma_filter_lights_shift(e, rest, i + 1);
    }
}

/// Element pruning distributes over a prepended element.
pub proof fn lemma_prune_section_elems_prepend(v: Nbt, rest: Seq<Nbt>)
    ensures
        spec_prune_section_elems(seq![v] + rest, 0) == seq![spec_prune_section_elem(v)]
            + spec_prune_section_elems(rest, 0),
{
    lemma_prune_section_elems_shift(v, rest, 0);
    assert((seq![v] + rest)[0] == v);
}

proof fn lemma_prune_section_elems_shift(v: Nbt, rest: Seq<Nbt>, i: int)
    requires
        0 <= i,
    ensures
        spec_prune_section_elems(seq![v] + rest, i + 1) == spec_prune_section_elems(rest, i),
    decreases rest.len() - i,
{
    let s = seq![v] + rest;
    if i < rest.len() {
        assert(s[i + 1] == rest[i]);
        lemma_prune_section_elems_shift(v, rest, i + 1);
    }
}

/// Pruning keeps a well-formed tree well formed: entries only disappear or
/// lose children, never grow past a length field.
pub proof fn lemma_prune_top_wf(entries: Seq<(Seq<u8>, Nbt)>, i: int)
    requires
        0 <= i,
        nbt_entries_wf(entries, i),
    ensures
        nbt_entries_wf(spec_prune_top(entries, i), 0),
    decreases entries.len() - i,
{
    if i < entries.len() {
        lemma_prune_top_wf(entries, i + 1);
        let e = entries[i];
        assert(nbt_entry_wf(entries[i]));
        let rest = spec_prune_top(entries, i + 1);
        if spec_removed_name(e.0) {
        } else if e.0 == name_sections() {
            lemma_prune_sections_value_wf(e.1);
            lemma_wf_entries_prepend((e.0, spec_prune_sections_value(e.1)), rest);
        } else if e.0 == name_level() {
            lemma_prune_level_value_wf(e.1);
            lemma_wf_entries_prepend((e.0, spec_prune_level_value(e.1)), rest);
        } else {
            lemma_wf_entries_prepend(e, rest);
        }
    }
}

/// Pruning a `Level` value preserves well-formedness.
pub proof fn lemma_prune_level_value_wf(v: Nbt)
    requires
        nbt_wf(v),
    ensures
        nbt_wf(spec_prune_level_value(v)),
        spec_tag_of(spec_prune_level_value(v)) == spec_tag_of(v),
{
    match v {
        Nbt::Compound(es) => {
            lemma_prune_inner_wf(es, 0);
        },
        _ => {},
    }
}

/// Pruning without `Level` handling preserves well-formedness.
pub proof fn lemma_prune_inner_wf(entries: Seq<(Seq<u8>, Nbt)>, i: int)
    requires
        0 <= i,
        nbt_entries_wf(entries, i),
    ensures
        nbt_entries_wf(spec_prune_inner(entries, i), 0),
    decreases entries.len() - i,
{
    if i < entries.len() {
        lemma_prune_inner_wf(entries, i + 1);
        let e = entries[i];
        assert(nbt_entry_wf(entries[i]));
        let rest = spec_prune_inner(entries, i + 1);
        if spec_removed_name(e.0) {
        } else if e.0 == name_sections() {
            lemma_prune_sections_value_wf(e.1);
            lemma_wf_entries_prepend((e.0, spec_prune_sections_value(e.1)), rest);
        } else {
            lemma_wf_entries_prepend(e, rest);
        }
    }
}

/// Pruning a `sections` value preserves well-formedness and its tag.
pub proof fn lemma_prune_sections_value_wf(v: Nbt)
    requires
        nbt_wf(v),
    ensures
        nbt_wf(spec_prune_sections_value(v)),
        spec_tag_of(spec_prune_sections_value(v)) == spec_tag_of(v),
{
    match v {
        Nbt::List(t, elems) => {
            lemma_prune_section_elems_wf(elems, 0, t);
        },
        _ => {},
    }
}

/// Pruned section elements keep their count, their tags, and stay well
/// formed.
pub proof fn lemma_prune_section_elems_wf(elems: Seq<Nbt>, i: int, t: u8)
    requires
        0 <= i,
        crate::nbt::nbt_elems_wf(elems, i),
        forall|k: int| i <= k < elems.len() ==> spec_tag_of(#[trigger] elems[k]) == t,
    ensures
        spec_prune_section_elems(elems, i).len() == if i <= elems.len() {
            elems.len() - i
        } else {
            0
        },
        crate::nbt::nbt_elems_wf(spec_prune_section_elems(elems, i), 0),
        forall|k: int|
            0 <= k < spec_prune_section_elems(elems, i).len() ==> spec_tag_of(
                #[trigger] spec_prune_section_elems(elems, i)[k]) == t,
    decreases elems.len() - i,
{
    if i < elems.len() {
        lemma_prune_section_elems_wf(elems, i + 1, t);
        lemma_prune_section_elem_wf(elems[i]);
        let rest = spec_prune_section_elems(elems, i + 1);
        let v = spec_prune_section_elem(elems[i]);
        lemma_wf_elems_prepend(v, rest);
        assert forall|k: int| 0 <= k < spec_prune_section_elems(elems, i).len() implies
            spec_tag_of(#[trigger] spec_prune_section_elems(elems, i)[k]) == t by {
            if k == 0 {
                assert(spec_prune_section_elems(elems, i)[0] == v);
            } else {
                assert(spec_prune_section_elems(elems, i)[k] == rest[k - 1]);
            }
        }
    }
}

/// Pruning one section element preserves well-formedness and its tag.
pub proof fn lemma_prune_section_elem_wf(v: Nbt)
    requires
        nbt_wf(v),
    ensures
        nbt_wf(spec_prune_section_elem(v)),
        spec_tag_of(spec_prune_section_elem(v)) == spec_tag_of(v),
{
    match v {
        Nbt::Compound(es) => {
            lemma_filter_lights_wf(es, 0);
        },
        _ => {},
    }
}

/// Filtering light arrays preserves entry well-formedness.
pub proof fn lemma_filter_lights_wf(es: Seq<(Seq<u8>, Nbt)>, i: int)
    requires
        0 <= i,
        nbt_entries_wf(es, i),
    ensures
        nbt_entries_wf(spec_filter_lights(es, i), 0),
    decreases es.len() - i,
{
    if i < es.len() {
        lemma_filter_lights_wf(es, i + 1);
        if !spec_light_name(es[i].0) {
            lemma_wf_entries_prepend(es[i], spec_filter_lights(es, i + 1));
        }
    }
}

proof fn lemma_wf_entries_prepend(e: (Seq<u8>, Nbt), rest: Seq<(Seq<u8>, Nbt)>)
    requires
        nbt_entry_wf(e),
        nbt_entries_wf(rest, 0),
    ensures
        nbt_entries_wf(seq![e] + rest, 0),
    decreases rest.len(),
{
    lemma_wf_entries_prepend_shift(e, rest, 0);
    assert((seq![e] + rest)[0] == e);
}

proof fn lemma_wf_entries_prepend_shift(e: (Seq<u8>, Nbt), rest: Seq<(Seq<u8>, Nbt)>, i: int)
    requires
        0 <= i,
        nbt_entries_wf(rest, i),
    ensures
        nbt_entries_wf(seq![e] + rest, i + 1),
    decreases rest.len() - i,
{
    let s = seq![e] + rest;
    if i < rest.len() {
        assert(s[i + 1] == rest[i]);
        lemma_wf_entries_prepend_shift(e, rest, i + 1);
    }
}

proof fn lemma_wf_elems_prepend(v: Nbt, rest: Seq<Nbt>)
    requires
        nbt_wf(v),
        crate::nbt::nbt_elems_wf(rest, 0),
    ensures
        crate::nbt::nbt_elems_wf(seq![v] + rest, 0),
{
    lemma_wf_elems_prepend_shift(v, rest, 0);
    assert((seq![v] + rest)[0] == v);
}

proof fn lemma_wf_elems_prepend_shift(v: Nbt, rest: Seq<Nbt>, i: int)
    requires
        0 <= i,
        crate::nbt::nbt_elems_wf(rest, i),
    ensures
        crate::nbt::nbt_elems_wf(seq![v] + rest, i + 1),
    decreases rest.len() - i,
{
    let s = seq![v] + rest;
    if i < rest.len() {
        assert(s[i + 1] == rest[i]);
        lemma_wf_elems_prepend_shift(v, rest, i + 1);
    }
}

/// Prunes the derived tags out of one chunk's tag-tree bytes.
///
/// Fails with `MalformedTagTree` exactly where the bytes are not one whole
/// tag document. A non-compound root is handed back unchanged; a compound
/// root is pruned and re-serialized under its original name.
pub fn strip_chunk(chunk: &Chunk) -> (r: Result<Chunk, RegionError>)
    ensures
        r matches Ok(c) ==> spec_strip_bytes(chunk.data@) == Some(c.data@) && c.position
            == chunk.position,
        r is Err <==> spec_strip_bytes(chunk.data@) is None,
        r is Err ==> r == Err::<Chunk, RegionError>(RegionError::MalformedTagTree),
{
    match parse_root(chunk.data.as_slice()) {
        None => Err(RegionError::MalformedTagTree),
        Some((name, v, j)) => {
            if j != chunk.data.len() {
                return Err(RegionError::MalformedTagTree);
            }
            match v {
                NbtTag::Compound(entries) => {
                    proof {
                        let i0 = 3 + crate::nbt::spec_be16(chunk.data@, 1);
                        lemma_parse_payload_wf(chunk.data@, i0, chunk.data@[0]);
                        lemma_view_entries_index(entries@, 0);
                    }
                    let pruned = prune_top_exec(entries);
                    proof {
                        lemma_prune_top_wf(
                            spec_parse_root(chunk.data@)->Some_0.1->Compound_0, 0);
                    }
                    let ghost model = Nbt::Compound(spec_prune_top(
                        spec_parse_root(chunk.data@)->Some_0.1->Compound_0, 0));
                    let tree = NbtTag::Compound(pruned);
                    proof {
                        assert(tree@ == spec_prune_root(spec_parse_root(
                            chunk.data@)->Some_0.1));
                    }
                    let data = ser_root(&name, &tree);
                    Ok(Chunk { data, position: chunk.position })
                },
                _ => {
                    let mut data: Vec<u8> = Vec::new();
                    crate::region::copy_bytes(&mut data, chunk.data.as_slice());
                    Ok(Chunk { data, position: chunk.position })
                },
            }
        },
    }
}


/// Rewrites one whole region: every present chunk is decoded, its derived
/// tags are pruned, and the result is written to a fresh region image.
///
/// On success every slot that was absent stays absent, and every present slot
/// holds the zlib frame of its stripped tag tree. A slot that cannot be
/// decoded, a chunk whose tag tree is malformed, and a stripped chunk too
/// large to encode all abort the rewrite with the slot's error.
#[verifier::rlimit(100)]
pub fn strip_file(data: Vec<u8>) -> (r: Result<Vec<u8>, RegionError>)
    ensures
        r matches Ok(out) ==> forall|s: int|
            0 <= s < ENTRY_COUNT ==> {
                &&& (spec_slot_absent(data@, s) ==> spec_slot_absent(out@, s))
                &&& (!spec_slot_absent(data@, s) ==> spec_slot_holds_zlib(
                    out@, s, zlib_of(
                        spec_strip_bytes(spec_slot_decoded(data@, s))->Some_0)))
            },
        (forall|s: int| 0 <= s < ENTRY_COUNT ==> spec_slot_absent(data@, s)) ==> r is Ok,
        r == Err::<Vec<u8>, RegionError>(RegionError::Corrupt) ==> exists|s: int|
            0 <= s < ENTRY_COUNT && spec_slot_corrupt(data@, s),
        r == Err::<Vec<u8>, RegionError>(RegionError::DecompressionFailed) ==> exists|s: int|
            0 <= s < ENTRY_COUNT && spec_slot_frame_wf(data@, s) && (spec_slot_mode(data@, s)
                == 1 || spec_slot_mode(data@, s) == 2),
        r == Err::<Vec<u8>, RegionError>(RegionError::MalformedTagTree) ==> exists|s: int|
            0 <= s < ENTRY_COUNT && !spec_slot_absent(data@, s) && spec_strip_bytes(
                spec_slot_decoded(data@, s)) is None,
        r == Err::<Vec<u8>, RegionError>(RegionError::ChunkTooLarge) ==> exists|s: int|
            0 <= s < ENTRY_COUNT && !spec_slot_absent(data@, s) && spec_strip_bytes(
                spec_slot_decoded(data@, s)) is Some,
{
    let ghost orig = data@;
    let region = RegionFile::open(data);
    let mut writer = RegionFileWriter::create();
    let mut i: usize = 0;
    while i < ENTRY_COUNT
        invariant
            i <= ENTRY_COUNT,
            orig == data@,
            region.bytes() == orig,
            writer.wf(),
            forall|s: int|
                0 <= s < i ==> (spec_slot_absent(orig, s) <==> !(
                #[trigger] writer.chunks().dom().contains(s))),
            forall|s: int| #[trigger]
                writer.chunks().dom().contains(s) ==> 0 <= s < i && writer.chunks()[s]
                    == spec_strip_bytes(spec_slot_decoded(orig, s))->Some_0,
        decreases ENTRY_COUNT - i,
    {
        let result = region.get_chunk_from_index(i);
        proof {
            assert(spec_chunk_result_matches(result, orig, i as int));
            if result is Err {
                lemma_slot_error_classified(result, orig, i as int);
            } else if result is Ok && result->Ok_0 is Some {
                lemma_slot_present_decoded(result, orig, i as int);
            }
        }
        match result {
            Err(e) => {
                return Err(e);
            },
            Ok(None) => {},
            Ok(Some(chunk)) => {
                let stripped = match strip_chunk(&chunk) {
                    Err(e) => {
                        proof {
                            assert(spec_strip_bytes(spec_slot_decoded(orig, i as int)) is None);
                        }
                        return Err(e);
                    },
                    Ok(stripped) => stripped,
                };
                match writer.add_chunk(&stripped) {
                    Err(e) => {
                        proof {
                            assert(spec_strip_bytes(spec_slot_decoded(orig, i as int))
                                == Some(stripped.data@));
                        }
                        return Err(e);
                    },
                    Ok(()) => {},
                }
                proof {
                    assert(stripped.position == spec_slot_position(i as int));
                    assert((i as int) % 32 + ((i as int) / 32) * 32 == i as int) by (
                        nonlinear_arith)
                        requires
                            0 <= i < 1024;
                    assert(spec_slot_of_pos(stripped.position) == i as int);
                }
            },
        }
        i = i + 1;
    }
    proof {
        assert forall|s: int| 0 <= s < ENTRY_COUNT implies {
            &&& (spec_slot_absent(orig, s) ==> spec_slot_absent(writer.bytes(), s))
            &&& (!spec_slot_absent(orig, s) ==> spec_slot_holds_zlib(
                writer.bytes(), s, zlib_of(
                    spec_strip_bytes(spec_slot_decoded(orig, s))->Some_0)))
        } by {
            if spec_slot_absent(orig, s) {
                assert(!writer.chunks().dom().contains(s));
                assert(crate::region::spec_entry_field_at(writer.bytes(), s) == 0);
            } else {
                assert(writer.chunks().dom().contains(s));
                assert(crate::writer::spec_writer_slot_wf(writer.bytes(), s, writer.used(),
                    writer.chunks()[s]));
            }
        }
    }
    Ok(writer.close())
}


/// Filtering light arrays twice is the same as filtering once.
pub proof fn lemma_filter_lights_idem(es: Seq<(Seq<u8>, Nbt)>, i: int)
    requires
        0 <= i,
    ensures
        spec_filter_lights(spec_filter_lights(es, i), 0) == spec_filter_lights(es, i),
    decreases es.len() - i,
{
    if i < es.len() {
        lemma_filter_lights_idem(es, i + 1);
        let e = es[i];
        let rest = spec_filter_lights(es, i + 1);
        if !spec_light_name(e.0) {
            lemma_filter_lights_prepend(e, rest);
        }
    }
}

/// Pruning one section element twice is the same as pruning it once.
pub proof fn lemma_prune_section_elem_idem(v: Nbt)
    ensures
        spec_prune_section_elem(spec_prune_section_elem(v)) == spec_prune_section_elem(v),
{
    match v {
        Nbt::Compound(es) => {
            lemma_filter_lights_idem(es, 0);
        },
        _ => {},
    }
}

/// Pruning section elements twice is the same as pruning them once.
pub proof fn lemma_prune_section_elems_idem(elems: Seq<Nbt>, i: int)
    requires
        0 <= i,
    ensures
        spec_prune_section_elems(spec_prune_section_elems(elems, i), 0)
            == spec_prune_section_elems(elems, i),
    decreases elems.len() - i,
{
    if i < elems.len() {
        lemma_prune_section_elems_idem(elems, i + 1);
        let v = spec_prune_section_elem(elems[i]);
        let rest = spec_prune_section_elems(elems, i + 1);
        lemma_prune_section_elems_prepend(v, rest);
        lemma_prune_section_elem_idem(elems[i]);
    }
}

/// Pruning a `sections` value twice is the same as pruning it once.
pub proof fn lemma_prune_sections_value_idem(v: Nbt)
    ensures
        spec_prune_sections_value(spec_prune_sections_value(v)) == spec_prune_sections_value(v),
{
    match v {
        Nbt::List(t, elems) => {
            lemma_prune_section_elems_idem(elems, 0);
        },
        _ => {},
    }
}

/// Pruning without `Level` handling twice is the same as pruning once.
pub proof fn lemma_prune_inner_idem(entries: Seq<(Seq<u8>, Nbt)>, i: int)
    requires
        0 <= i,
    ensures
        spec_prune_inner(spec_prune_inner(entries, i), 0) == spec_prune_inner(entries, i),
    decreases entries.len() - i,
{
    if i < entries.len() {
        lemma_prune_inner_idem(entries, i + 1);
        let e = entries[i];
        let rest = spec_prune_inner(entries, i + 1);
        if spec_removed_name(e.0) {
        } else if e.0 == name_sections() {
            let e2 = (e.0, spec_prune_sections_value(e.1));
            lemma_prune_inner_prepend(e2, rest);
            lemma_prune_sections_value_idem(e.1);
        } else {
            lemma_prune_inner_prepend(e, rest);
        }
    }
}

/// Pruning a `Level` value twice is the same as pruning it once.
pub proof fn lemma_prune_level_value_idem(v: Nbt)
    ensures
        spec_prune_level_value(spec_prune_level_value(v)) == spec_prune_level_value(v),
{
    match v {
        Nbt::Compound(es) => {
            lemma_prune_inner_idem(es, 0);
        },
        _ => {},
    }
}

/// Pruning a root compound twice is the same as pruning it once.
pub proof fn lemma_prune_top_idem(entries: Seq<(Seq<u8>, Nbt)>, i: int)
    requires
        0 <= i,
    ensures
        spec_prune_top(spec_prune_top(entries, i), 0) == spec_prune_top(entries, i),
    decreases entries.len() - i,
{
    if i < entries.len() {
        lemma_prune_top_idem(entries, i + 1);
        let e = entries[i];
        let rest = spec_prune_top(entries, i + 1);
        if spec_removed_name(e.0) {
        } else if e.0 == name_sections() {
            let e2 = (e.0, spec_prune_sections_value(e.1));
            lemma_prune_top_prepend(e2, rest);
            lemma_prune_sections_value_idem(e.1);
        } else if e.0 == name_level() {
            let e2 = (e.0, spec_prune_level_value(e.1));
            lemma_prune_top_prepend(e2, rest);
            lemma_prune_level_value_idem(e.1);
        } else {
            lemma_prune_top_prepend(e, rest);
        }
    }
}

/// Pruning a whole tree twice is the same as pruning it once.
pub proof fn lemma_prune_root_idem(n: Nbt)
    ensures
        spec_prune_root(spec_prune_root(n)) == spec_prune_root(n),
{
    match n {
        Nbt::Compound(entries) => {
            lemma_prune_top_idem(entries, 0);
        },
        _ => {},
    }
}

/// Re-strip idempotence: stripping a chunk's bytes a second time changes
/// nothing, byte for byte.
pub proof fn lemma_strip_idempotent(bytes: Seq<u8>)
    requires
        spec_strip_bytes(bytes) is Some,
    ensures
        spec_strip_bytes(spec_strip_bytes(bytes)->Some_0) == spec_strip_bytes(bytes),
{
    let (name, v, j) = spec_parse_root(bytes)->Some_0;
    if v is Compound {
        let nlen = crate::nbt::spec_be16(bytes, 1);
        lemma_parse_payload_wf(bytes, 3 + nlen, bytes[0]);
        assert(nbt_wf(v));
        assert(name.len() <= 0xFFFF);
        let entries = v->Compound_0;
        lemma_prune_top_wf(entries, 0);
        let p = spec_prune_root(v);
        assert(nbt_wf(p));
        let out = spec_ser_root(name, p);
        crate::nbt::lemma_parse_ser_root(name, p);
        assert(spec_parse_root(out) == Some((name, p, out.len() as int)));
        lemma_prune_root_idem(v);
        assert(spec_strip_bytes(out) == Some(spec_ser_root(name, spec_prune_root(p))));
        assert(spec_prune_root(p) == p);
    }
}

} // verus!
