//! The chunk payload's self-describing binary tag format: named scalars,
//! byte/int/long arrays, typed lists, and named compounds, all big-endian.
//!
//! The format is stated twice here, once as a mathematical model (`Nbt`, the
//! spec parser and serializer over `Seq<u8>`) and once executably (`NbtTag`
//! and the functions the tag surgery runs). Every executable function is
//! proved to agree with the model. Floating-point payloads are carried as
//! their raw big-endian bits and never interpreted.

use vstd::prelude::*;

verus! {

broadcast use {vstd::seq::group_seq_axioms, vstd::std_specs::vec::group_vec_axioms};

/// The model of one tag payload. Names and string payloads are byte strings;
/// float and double payloads are raw bits. A list keeps its element tag so an
/// empty list re-serializes byte for byte.
pub enum Nbt {
    Byte(u8),
    Short(u16),
    Int(u32),
    Long(u64),
    Float(u32),
    Double(u64),
    ByteArray(Seq<u8>),
    Str(Seq<u8>),
    List(u8, Seq<Nbt>),
    Compound(Seq<(Seq<u8>, Nbt)>),
    IntArray(Seq<u32>),
    LongArray(Seq<u64>),
}

/// The tag byte that announces each payload shape.
pub open spec fn spec_tag_of(n: Nbt) -> u8 {
    match n {
        Nbt::Byte(_) => 1u8,
        Nbt::Short(_) => 2u8,
        Nbt::Int(_) => 3u8,
        Nbt::Long(_) => 4u8,
        Nbt::Float(_) => 5u8,
        Nbt::Double(_) => 6u8,
        Nbt::ByteArray(_) => 7u8,
        Nbt::Str(_) => 8u8,
        Nbt::List(_, _) => 9u8,
        Nbt::Compound(_) => 10u8,
        Nbt::IntArray(_) => 11u8,
        Nbt::LongArray(_) => 12u8,
    }
}

/// A value the format can carry: counted lengths fit their fields, a list is
/// homogeneous, and a non-empty list never claims the end-tag element type.
pub open spec fn nbt_wf(n: Nbt) -> bool
    decreases n, 0int,
{
    match n {
        Nbt::Byte(_) | Nbt::Short(_) | Nbt::Int(_) | Nbt::Long(_) | Nbt::Float(_)
            | Nbt::Double(_) => true,
        Nbt::ByteArray(s) => s.len() <= 0x7FFFFFFF,
        Nbt::Str(s) => s.len() <= 0xFFFF,
        Nbt::List(t, elems) => {
            &&& elems.len() <= 0x7FFFFFFF
            &&& (elems.len() > 0 ==> t != 0)
            &&& forall|k: int| 0 <= k < elems.len() ==> spec_tag_of(#[trigger] elems[k]) == t
            &&& nbt_elems_wf(elems, 0)
        },
        Nbt::Compound(entries) => nbt_entries_wf(entries, 0),
        Nbt::IntArray(s) => s.len() <= 0x7FFFFFFF,
        Nbt::LongArray(s) => s.len() <= 0x7FFFFFFF,
    }
}

/// Every list element from `i` on is well formed.
pub open spec fn nbt_elems_wf(elems: Seq<Nbt>, i: int) -> bool
    decreases elems, elems.len() - i,
{
    if 0 <= i < elems.len() {
        nbt_wf(elems[i]) && nbt_elems_wf(elems, i + 1)
    } else {
        true
    }
}

/// Every compound entry from `i` on has a name that fits its 16-bit length
/// field and a well-formed value.
pub open spec fn nbt_entries_wf(entries: Seq<(Seq<u8>, Nbt)>, i: int) -> bool
    decreases entries, entries.len() - i,
{
    if 0 <= i < entries.len() {
        nbt_entry_wf(entries[i]) && nbt_entries_wf(entries, i + 1)
    } else {
        true
    }
}

/// One well-formed compound entry.
pub open spec fn nbt_entry_wf(e: (Seq<u8>, Nbt)) -> bool
    decreases e,
{
    e.0.len() <= 0xFFFF && nbt_wf(e.1)
}

/// The unsigned value of two big-endian bytes at `off`.
pub open spec fn spec_be16(bytes: Seq<u8>, off: int) -> int {
    bytes[off] * 0x100 + bytes[off + 1]
}

/// The unsigned value of eight big-endian bytes at `off`.
pub open spec fn spec_be64(bytes: Seq<u8>, off: int) -> int {
    crate::header::spec_be32(bytes, off) * 0x100000000 + crate::header::spec_be32(bytes, off + 4)
}

/// The two big-endian bytes of `v`.
pub open spec fn spec_be16_bytes(v: int) -> Seq<u8> {
    seq![(v / 0x100 % 0x100) as u8, (v % 0x100) as u8]
}

/// The eight big-endian bytes of `v`.
pub open spec fn spec_be64_bytes(v: int) -> Seq<u8> {
    crate::header::spec_be32_bytes(v / 0x100000000 % 0x100000000) + crate::header::spec_be32_bytes(
        v % 0x100000000)
}

/// The serialized form of one payload, without its tag byte or name.
pub open spec fn spec_ser_payload(n: Nbt) -> Seq<u8>
    decreases n, 1int,
{
    match n {
        Nbt::Byte(b) => seq![b],
        Nbt::Short(v) => spec_be16_bytes(v as int),
        Nbt::Int(v) => crate::header::spec_be32_bytes(v as int),
        Nbt::Long(v) => spec_be64_bytes(v as int),
        Nbt::Float(v) => crate::header::spec_be32_bytes(v as int),
        Nbt::Double(v) => spec_be64_bytes(v as int),
        Nbt::ByteArray(s) => crate::header::spec_be32_bytes(s.len() as int) + s,
        Nbt::Str(s) => spec_be16_bytes(s.len() as int) + s,
        Nbt::List(t, elems) => seq![t] + crate::header::spec_be32_bytes(elems.len() as int)
            + spec_ser_elems(elems, 0),
        Nbt::Compound(entries) => spec_ser_entries(entries, 0) + seq![0u8],
        Nbt::IntArray(s) => crate::header::spec_be32_bytes(s.len() as int) + spec_ser_u32s(s, 0),
        Nbt::LongArray(s) => crate::header::spec_be32_bytes(s.len() as int) + spec_ser_u64s(s, 0),
    }
}

/// The concatenated serialized payloads of a list's elements from `i` on.
pub open spec fn spec_ser_elems(elems: Seq<Nbt>, i: int) -> Seq<u8>
    decreases elems, elems.len() - i, 0int,
{
    if 0 <= i < elems.len() {
        spec_ser_payload(elems[i]) + spec_ser_elems(elems, i + 1)
    } else {
        Seq::empty()
    }
}

/// The serialized entries of a compound from `i` on, without the closing end
/// tag.
pub open spec fn spec_ser_entries(entries: Seq<(Seq<u8>, Nbt)>, i: int) -> Seq<u8>
    decreases entries, entries.len() - i, 0int,
{
    if 0 <= i < entries.len() {
        spec_ser_entry(entries[i]) + spec_ser_entries(entries, i + 1)
    } else {
        Seq::empty()
    }
}

/// One serialized compound entry: tag byte, length-prefixed name, payload.
pub open spec fn spec_ser_entry(e: (Seq<u8>, Nbt)) -> Seq<u8>
    decreases e,
{
    seq![spec_tag_of(e.1)] + spec_be16_bytes(e.0.len() as int) + e.0 + spec_ser_payload(e.1)
}

/// The serialized elements of an int array from `i` on.
pub open spec fn spec_ser_u32s(s: Seq<u32>, i: int) -> Seq<u8>
    decreases s, s.len() - i,
{
    if 0 <= i < s.len() {
        crate::header::spec_be32_bytes(s[i] as int) + spec_ser_u32s(s, i + 1)
    } else {
        Seq::empty()
    }
}

/// The serialized elements of a long array from `i` on.
pub open spec fn spec_ser_u64s(s: Seq<u64>, i: int) -> Seq<u8>
    decreases s, s.len() - i,
{
    if 0 <= i < s.len() {
        spec_be64_bytes(s[i] as int) + spec_ser_u64s(s, i + 1)
    } else {
        Seq::empty()
    }
}

/// A whole serialized document: the root's tag byte, its length-prefixed
/// name, then its payload.
pub open spec fn spec_ser_root(name: Seq<u8>, n: Nbt) -> Seq<u8> {
    seq![spec_tag_of(n)] + spec_be16_bytes(name.len() as int) + name + spec_ser_payload(n)
}

/// Parses the payload of tag type `tag` at `i`. Returns the value and the
/// index just past it, or `None` where the bytes do not carry such a payload.
pub open spec fn spec_parse_payload(data: Seq<u8>, i: int, tag: u8) -> Option<(Nbt, int)>
    decreases data.len() - i, 1int, 0int,
{
    if i < 0 || i > data.len() {
        None
    } else if tag == 1 {
        if i + 1 <= data.len() {
            Some((Nbt::Byte(data[i]), i + 1))
        } else {
            None
        }
    } else if tag == 2 {
        if i + 2 <= data.len() {
            Some((Nbt::Short(spec_be16(data, i) as u16), i + 2))
        } else {
            None
        }
    } else if tag == 3 {
        if i + 4 <= data.len() {
            Some((Nbt::Int(crate::header::spec_be32(data, i) as u32), i + 4))
        } else {
            None
        }
    } else if tag == 4 {
        if i + 8 <= data.len() {
            Some((Nbt::Long(spec_be64(data, i) as u64), i + 8))
        } else {
            None
        }
    } else if tag == 5 {
        if i + 4 <= data.len() {
            Some((Nbt::Float(crate::header::spec_be32(data, i) as u32), i + 4))
        } else {
            None
        }
    } else if tag == 6 {
        if i + 8 <= data.len() {
            Some((Nbt::Double(spec_be64(data, i) as u64), i + 8))
        } else {
            None
        }
    } else if tag == 7 {
        if i + 4 <= data.len() {
            let n = crate::header::spec_be32(data, i);
            if n < 0x80000000 && i + 4 + n <= data.len() {
                Some((Nbt::ByteArray(data.subrange(i + 4, i + 4 + n)), i + 4 + n))
            } else {
                None
            }
        } else {
            None
        }
    } else if tag == 8 {
        if i + 2 <= data.len() {
            let n = spec_be16(data, i);
            if i + 2 + n <= data.len() {
                Some((Nbt::Str(data.subrange(i + 2, i + 2 + n)), i + 2 + n))
            } else {
                None
            }
        } else {
            None
        }
    } else if tag == 9 {
        if i + 5 <= data.len() {
            let et = data[i];
            let n = crate::header::spec_be32(data, i + 1);
            if n < 0x80000000 && (n == 0 || et != 0) {
                match spec_parse_list_elems(data, i + 5, et, n) {
                    Some((elems, j)) => Some((Nbt::List(et, elems), j)),
                    None => None,
                }
            } else {
                None
            }
        } else {
            None
        }
    } else if tag == 10 {
        match spec_parse_entries(data, i) {
            Some((entries, j)) => Some((Nbt::Compound(entries), j)),
            None => None,
        }
    } else if tag == 11 {
        if i + 4 <= data.len() {
            let n = crate::header::spec_be32(data, i);
            if n < 0x80000000 && i + 4 + n * 4 <= data.len() {
                match spec_parse_u32s(data, i + 4, n) {
                    Some((s, j)) => Some((Nbt::IntArray(s), j)),
                    None => None,
                }
            } else {
                None
            }
        } else {
            None
        }
    } else if tag == 12 {
        if i + 4 <= data.len() {
            let n = crate::header::spec_be32(data, i);
            if n < 0x80000000 && i + 4 + n * 8 <= data.len() {
                match spec_parse_u64s(data, i + 4, n) {
                    Some((s, j)) => Some((Nbt::LongArray(s), j)),
                    None => None,
                }
            } else {
                None
            }
        } else {
            None
        }
    } else {
        None
    }
}

/// Parses `n` list elements of tag type `tag` starting at `i`.
pub open spec fn spec_parse_list_elems(data: Seq<u8>, i: int, tag: u8, n: int) -> Option<
    (Seq<Nbt>, int),
>
    decreases data.len() - i, 2int, n,
{
    if i < 0 || i > data.len() {
        None
    } else if n <= 0 {
        Some((Seq::empty(), i))
    } else {
        match spec_parse_payload(data, i, tag) {
            None => None,
            Some((v, j)) => if j <= i || j > data.len() {
                None
            } else {
                match spec_parse_list_elems(data, j, tag, n - 1) {
                    None => None,
                    Some((rest, k)) => Some((seq![v] + rest, k)),
                }
            },
        }
    }
}

/// Parses named compound entries starting at `i`, up to and including the end
/// tag.
pub open spec fn spec_parse_entries(data: Seq<u8>, i: int) -> Option<(Seq<(Seq<u8>, Nbt)>, int)>
    decreases data.len() - i, 0int, 0int,
{
    if i < 0 || i >= data.len() {
        None
    } else if data[i] == 0 {
        Some((Seq::empty(), i + 1))
    } else {
        let tag = data[i];
        if i + 3 > data.len() {
            None
        } else {
            let nlen = spec_be16(data, i + 1);
            if i + 3 + nlen > data.len() {
                None
            } else {
                let name = data.subrange(i + 3, i + 3 + nlen);
                match spec_parse_payload(data, i + 3 + nlen, tag) {
                    None => None,
                    Some((v, j)) => if j <= i || j > data.len() {
                        None
                    } else {
                        match spec_parse_entries(data, j) {
                            None => None,
                            Some((rest, k)) => Some((seq![(name, v)] + rest, k)),
                        }
                    },
                }
            }
        }
    }
}

/// Parses `n` big-endian 32-bit values starting at `i`.
pub open spec fn spec_parse_u32s(data: Seq<u8>, i: int, n: int) -> Option<(Seq<u32>, int)>
    decreases data.len() - i, 0int, n,
{
    if i < 0 || i > data.len() {
        None
    } else if n <= 0 {
        Some((Seq::empty(), i))
    } else if i + 4 <= data.len() {
        match spec_parse_u32s(data, i + 4, n - 1) {
            None => None,
            Some((rest, k)) => Some((
                seq![crate::header::spec_be32(data, i) as u32] + rest,
                k,
            )),
        }
    } else {
        None
    }
}

/// Parses `n` big-endian 64-bit values starting at `i`.
pub open spec fn spec_parse_u64s(data: Seq<u8>, i: int, n: int) -> Option<(Seq<u64>, int)>
    decreases data.len() - i, 0int, n,
{
    if i < 0 || i > data.len() {
        None
    } else if n <= 0 {
        Some((Seq::empty(), i))
    } else if i + 8 <= data.len() {
        match spec_parse_u64s(data, i + 8, n - 1) {
            None => None,
            Some((rest, k)) => Some((seq![spec_be64(data, i) as u64] + rest, k)),
        }
    } else {
        None
    }
}

/// Parses a whole document: the root's tag byte, its name, its payload.
/// Returns the name, the root value, and the index just past the payload.
pub open spec fn spec_parse_root(data: Seq<u8>) -> Option<(Seq<u8>, Nbt, int)> {
    if data.len() < 3 {
        None
    } else {
        let tag = data[0];
        if tag == 0 {
            None
        } else {
            let nlen = spec_be16(data, 1);
            if 3 + nlen > data.len() {
                None
            } else {
                let name = data.subrange(3, 3 + nlen);
                match spec_parse_payload(data, 3 + nlen, tag) {
                    None => None,
                    Some((v, j)) => Some((name, v, j)),
                }
            }
        }
    }
}


/// The executable form of one tag payload, mirroring `Nbt` with vectors in
/// place of sequences.
pub enum NbtTag {
    Byte(u8),
    Short(u16),
    Int(u32),
    Long(u64),
    Float(u32),
    Double(u64),
    ByteArray(Vec<u8>),
    Str(Vec<u8>),
    List(u8, Vec<NbtTag>),
    Compound(Vec<NbtEntry>),
    IntArray(Vec<u32>),
    LongArray(Vec<u64>),
}

/// One named entry of an executable compound.
pub struct NbtEntry {
    pub name: Vec<u8>,
    pub value: NbtTag,
}

/// The model value an executable tag stands for.
pub open spec fn nbt_view(t: NbtTag) -> Nbt
    decreases t, 1int,
{
    match t {
        NbtTag::Byte(b) => Nbt::Byte(b),
        NbtTag::Short(v) => Nbt::Short(v),
        NbtTag::Int(v) => Nbt::Int(v),
        NbtTag::Long(v) => Nbt::Long(v),
        NbtTag::Float(v) => Nbt::Float(v),
        NbtTag::Double(v) => Nbt::Double(v),
        NbtTag::ByteArray(v) => Nbt::ByteArray(v@),
        NbtTag::Str(v) => Nbt::Str(v@),
        NbtTag::List(et, children) => Nbt::List(et, spec_view_elems(children@, 0)),
        NbtTag::Compound(entries) => Nbt::Compound(spec_view_entries(entries@, 0)),
        NbtTag::IntArray(v) => Nbt::IntArray(v@),
        NbtTag::LongArray(v) => Nbt::LongArray(v@),
    }
}

/// The model values of the executable list elements from `i` on.
pub open spec fn spec_view_elems(s: Seq<NbtTag>, i: int) -> Seq<Nbt>
    decreases s, s.len() - i, 0int,
{
    if 0 <= i < s.len() {
        seq![nbt_view(s[i])] + spec_view_elems(s, i + 1)
    } else {
        Seq::empty()
    }
}

/// The model values of the executable compound entries from `i` on.
pub open spec fn spec_view_entries(s: Seq<NbtEntry>, i: int) -> Seq<(Seq<u8>, Nbt)>
    decreases s, s.len() - i, 0int,
{
    if 0 <= i < s.len() {
        seq![(s[i].name@, nbt_view(s[i].value))] + spec_view_entries(s, i + 1)
    } else {
        Seq::empty()
    }
}

impl View for NbtTag {
    type V = Nbt;

    open spec fn view(&self) -> Nbt {
        nbt_view(*self)
    }
}

/// The element views distribute over indexing.
pub proof fn lemma_view_elems_index(s: Seq<NbtTag>, i: int)
    requires
        0 <= i,
    ensures
        spec_view_elems(s, i).len() == if i <= s.len() { s.len() - i } else { 0 },
        forall|k: int|
            i <= k < s.len() ==> spec_view_elems(s, i)[k - i] == nbt_view(#[trigger] s[k]),
    decreases s.len() - i,
{
    if i < s.len() {
        lemma_view_elems_index(s, i + 1);
    }
}

/// The entry views distribute over indexing.
pub proof fn lemma_view_entries_index(s: Seq<NbtEntry>, i: int)
    requires
        0 <= i,
    ensures
        spec_view_entries(s, i).len() == if i <= s.len() { s.len() - i } else { 0 },
        forall|k: int|
            i <= k < s.len() ==> spec_view_entries(s, i)[k - i] == ((#[trigger] s[k]).name@,
            nbt_view(s[k].value)),
    decreases s.len() - i,
{
    if i < s.len() {
        lemma_view_entries_index(s, i + 1);
    }
}

/// Viewing a prepended element sequence prepends the element's view.
pub proof fn lemma_view_elems_prepend(v: NbtTag, rest: Seq<NbtTag>)
    ensures
        spec_view_elems(seq![v] + rest, 0) == seq![nbt_view(v)] + spec_view_elems(rest, 0),
{
    lemma_view_elems_shift(v, rest, 0);
    assert((seq![v] + rest)[0] == v);
    assert(spec_view_elems(seq![v] + rest, 0) == seq![nbt_view(v)] + spec_view_elems(
        seq![v] + rest, 1));
}

proof fn lemma_view_elems_shift(v: NbtTag, rest: Seq<NbtTag>, i: int)
    requires
        0 <= i,
    ensures
        spec_view_elems(seq![v] + rest, i + 1) == spec_view_elems(rest, i),
    decreases rest.len() - i,
{
    let s = seq![v] + rest;
    if i < rest.len() {
        assert(s[i + 1] == rest[i]);
        lemma_view_elems_shift(v, rest, i + 1);
    }
}

/// Viewing a prepended entry sequence prepends the entry's view.
pub proof fn lemma_view_entries_prepend(e: NbtEntry, rest: Seq<NbtEntry>)
    ensures
        spec_view_entries(seq![e] + rest, 0) == seq![(e.name@, nbt_view(e.value))]
            + spec_view_entries(rest, 0),
{
    lemma_view_entries_shift(e, rest, 0);
    assert((seq![e] + rest)[0] == e);
    assert(spec_view_entries(seq![e] + rest, 0) == seq![(e.name@, nbt_view(e.value))]
        + spec_view_entries(seq![e] + rest, 1));
}

proof fn lemma_view_entries_shift(e: NbtEntry, rest: Seq<NbtEntry>, i: int)
    requires
        0 <= i,
    ensures
        spec_view_entries(seq![e] + rest, i + 1) == spec_view_entries(rest, i),
    decreases rest.len() - i,
{
    let s = seq![e] + rest;
    if i < rest.len() {
        assert(s[i + 1] == rest[i]);
        lemma_view_entries_shift(e, rest, i + 1);
    }
}

/// Reads two big-endian bytes at `off`.
pub fn read_be16(data: &[u8], off: usize) -> (r: u16)
    requires
        off + 2 <= data@.len(),
    ensures
        r == spec_be16(data@, off as int),
{
    (data[off] as u16) * 0x100 + (data[off + 1] as u16)
}

/// Reads eight big-endian bytes at `off`.
pub fn read_be64(data: &[u8], off: usize) -> (r: u64)
    requires
        off + 8 <= data@.len(),
    ensures
        r == spec_be64(data@, off as int),
{
    let total = data.len();
    proof {
        assert(off + 8 <= total);
    }
    let hi = crate::header::read_be32(data, off);
    let lo = crate::header::read_be32(data, off + 4);
    (hi as u64) * 0x100000000 + (lo as u64)
}

/// A dense run of 32-bit values always parses, consuming four bytes each.
proof fn lemma_parse_u32s_dense(data: Seq<u8>, i: int, n: int)
    requires
        0 <= i,
        0 <= n,
        i + 4 * n <= data.len(),
    ensures
        spec_parse_u32s(data, i, n) matches Some((s, j)) && j == i + 4 * n && s.len() == n
            && forall|m: int| 0 <= m < n ==> s[m] == crate::header::spec_be32(data, i + 4 * m)
            as u32,
    decreases n,
{
    if n > 0 {
        lemma_parse_u32s_dense(data, i + 4, n - 1);
    }
}

/// A dense run of 64-bit values always parses, consuming eight bytes each.
proof fn lemma_parse_u64s_dense(data: Seq<u8>, i: int, n: int)
    requires
        0 <= i,
        0 <= n,
        i + 8 * n <= data.len(),
    ensures
        spec_parse_u64s(data, i, n) matches Some((s, j)) && j == i + 8 * n && s.len() == n
            && forall|m: int| 0 <= m < n ==> s[m] == spec_be64(data, i + 8 * m) as u64,
    decreases n,
{
    if n > 0 {
        lemma_parse_u64s_dense(data, i + 8, n - 1);
    }
}

/// Parses the payload of tag type `tag` at `i`, exactly as the model parser
/// does.
pub fn parse_payload(data: &[u8], i: usize, tag: u8) -> (r: Option<(NbtTag, usize)>)
    requires
        i <= data@.len(),
    ensures
        r is None ==> spec_parse_payload(data@, i as int, tag) is None,
        r matches Some((v, j)) ==> spec_parse_payload(data@, i as int, tag) == Some(
            (v@, j as int)) && i <= j <= data@.len(),
    decreases data@.len() - i, 1int, 0int,
{
    let rem = data.len() - i;
    if tag == 1 {
        if rem >= 1 {
            Some((NbtTag::Byte(data[i]), i + 1))
        } else {
            None
        }
    } else if tag == 2 {
        if rem >= 2 {
            Some((NbtTag::Short(read_be16(data, i)), i + 2))
        } else {
            None
        }
    } else if tag == 3 {
        if rem >= 4 {
            Some((NbtTag::Int(crate::header::read_be32(data, i)), i + 4))
        } else {
            None
        }
    } else if tag == 4 {
        if rem >= 8 {
            Some((NbtTag::Long(read_be64(data, i)), i + 8))
        } else {
            None
        }
    } else if tag == 5 {
        if rem >= 4 {
            Some((NbtTag::Float(crate::header::read_be32(data, i)), i + 4))
        } else {
            None
        }
    } else if tag == 6 {
        if rem >= 8 {
            Some((NbtTag::Double(read_be64(data, i)), i + 8))
        } else {
            None
        }
    } else if tag == 7 {
        if rem < 4 {
            return None;
        }
        let n = crate::header::read_be32(data, i);
        if n >= 0x80000000 || (n as u64) > (rem - 4) as u64 {
            return None;
        }
        let end = i + 4 + n as usize;
        let mut out: Vec<u8> = Vec::new();
        crate::region::copy_bytes(&mut out, &data[i + 4..end]);
        Some((NbtTag::ByteArray(out), end))
    } else if tag == 8 {
        if rem < 2 {
            return None;
        }
        let n = read_be16(data, i);
        if (n as u64) > (rem - 2) as u64 {
            return None;
        }
        let end = i + 2 + n as usize;
        let mut out: Vec<u8> = Vec::new();
        crate::region::copy_bytes(&mut out, &data[i + 2..end]);
        Some((NbtTag::Str(out), end))
    } else if tag == 9 {
        if rem < 5 {
            return None;
        }
        let et = data[i];
        let n = crate::header::read_be32(data, i + 1);
        if n >= 0x80000000 || (n > 0 && et == 0) {
            return None;
        }
        match parse_list_elems(data, i + 5, et, n) {
            None => None,
            Some((elems, j)) => Some((NbtTag::List(et, elems), j)),
        }
    } else if tag == 10 {
        match parse_entries(data, i) {
            None => None,
            Some((entries, j)) => Some((NbtTag::Compound(entries), j)),
        }
    } else if tag == 11 {
        if rem < 4 {
            return None;
        }
        let n = crate::header::read_be32(data, i);
        if n >= 0x80000000 || (n as u64) * 4 > (rem - 4) as u64 {
            return None;
        }
        proof {
            lemma_parse_u32s_dense(data@, i as int + 4, n as int);
        }
        let mut out: Vec<u32> = Vec::new();
        let mut k: u32 = 0;
        let ghost spec_s = spec_parse_u32s(data@, i as int + 4, n as int)->Some_0.0;
        while k < n
            invariant
                k <= n,
                i + 4 + 4 * (n as int) <= data@.len(),
                data@.len() <= usize::MAX,
                out@.len() == k,
                forall|m: int| 0 <= m < k ==> out@[m] == spec_s[m],
                spec_s.len() == n,
                forall|m: int|
                    0 <= m < n ==> spec_s[m] == crate::header::spec_be32(
                        data@, i as int + 4 + 4 * m) as u32,
            decreases n - k,
        {
            let v = crate::header::read_be32(data, i + 4 + 4 * (k as usize));
            out.push(v);
            k = k + 1;
        }
        proof {
            assert(out@ =~= spec_s);
        }
        Some((NbtTag::IntArray(out), i + 4 + 4 * (n as usize)))
    } else if tag == 12 {
        if rem < 4 {
            return None;
        }
        let n = crate::header::read_be32(data, i);
        if n >= 0x80000000 || (n as u64) * 8 > (rem - 4) as u64 {
            return None;
        }
        proof {
            lemma_parse_u64s_dense(data@, i as int + 4, n as int);
        }
        let mut out: Vec<u64> = Vec::new();
        let mut k: u32 = 0;
        let ghost spec_s = spec_parse_u64s(data@, i as int + 4, n as int)->Some_0.0;
        while k < n
            invariant
                k <= n,
                i + 4 + 8 * (n as int) <= data@.len(),
                data@.len() <= usize::MAX,
                out@.len() == k,
                forall|m: int| 0 <= m < k ==> out@[m] == spec_s[m],
                spec_s.len() == n,
                forall|m: int|
                    0 <= m < n ==> spec_s[m] == spec_be64(data@, i as int + 4 + 8 * m) as u64,
            decreases n - k,
        {
            let v = read_be64(data, i + 4 + 8 * (k as usize));
            out.push(v);
            k = k + 1;
        }
        proof {
            assert(out@ =~= spec_s);
        }
        Some((NbtTag::LongArray(out), i + 4 + 8 * (n as usize)))
    } else {
        None
    }
}

/// Parses `n` list elements of tag type `tag` at `i`, exactly as the model
/// parser does.
pub fn parse_list_elems(data: &[u8], i: usize, tag: u8, n: u32) -> (r: Option<
    (Vec<NbtTag>, usize),
>)
    requires
        i <= data@.len(),
    ensures
        r is None ==> spec_parse_list_elems(data@, i as int, tag, n as int) is None,
        r matches Some((v, j)) ==> spec_parse_list_elems(data@, i as int, tag, n as int) == Some(
            (spec_view_elems(v@, 0), j as int)) && i <= j <= data@.len(),
    decreases data@.len() - i, 2int, n as int,
{
    if n == 0 {
        let out: Vec<NbtTag> = Vec::new();
        proof {
            assert(spec_view_elems(out@, 0) =~= Seq::<Nbt>::empty());
        }
        Some((out, i))
    } else {
        match parse_payload(data, i, tag) {
            None => None,
            Some((v, j)) => {
                if j <= i {
                    None
                } else {
                    match parse_list_elems(data, j, tag, n - 1) {
                        None => None,
                        Some((mut rest, k)) => {
                            let ghost rest0 = rest@;
                            let ghost vv = v;
                            rest.insert(0, v);
                            proof {
                                assert(rest@ =~= seq![vv] + rest0);
                                lemma_view_elems_prepend(vv, rest0);
                            }
                            Some((rest, k))
                        },
                    }
                }
            },
        }
    }
}

/// Parses compound entries at `i` up to and including the end tag, exactly as
/// the model parser does.
pub fn parse_entries(data: &[u8], i: usize) -> (r: Option<(Vec<NbtEntry>, usize)>)
    requires
        i <= data@.len(),
    ensures
        r is None ==> spec_parse_entries(data@, i as int) is None,
        r matches Some((v, j)) ==> spec_parse_entries(data@, i as int) == Some(
            (spec_view_entries(v@, 0), j as int)) && i <= j <= data@.len(),
    decreases data@.len() - i, 0int, 0int,
{
    if i >= data.len() {
        return None;
    }
    let tag = data[i];
    if tag == 0 {
        let out: Vec<NbtEntry> = Vec::new();
        proof {
            assert(spec_view_entries(out@, 0) =~= Seq::<(Seq<u8>, Nbt)>::empty());
        }
        return Some((out, i + 1));
    }
    if data.len() - i < 3 {
        return None;
    }
    let nlen = read_be16(data, i + 1);
    if (nlen as u64) > (data.len() - i - 3) as u64 {
        return None;
    }
    let nend = i + 3 + nlen as usize;
    let mut name: Vec<u8> = Vec::new();
    crate::region::copy_bytes(&mut name, &data[i + 3..nend]);
    match parse_payload(data, nend, tag) {
        None => None,
        Some((v, j)) => {
            if j <= i {
                None
            } else {
                match parse_entries(data, j) {
                    None => None,
                    Some((mut rest, k)) => {
                        let entry = NbtEntry { name, value: v };
                        let ghost rest0 = rest@;
                        let ghost ee = entry;
                        rest.insert(0, entry);
                        proof {
                            assert(rest@ =~= seq![ee] + rest0);
                            lemma_view_entries_prepend(ee, rest0);
                        }
                        Some((rest, k))
                    },
                }
            }
        },
    }
}

/// Parses a whole document, exactly as the model parser does.
pub fn parse_root(data: &[u8]) -> (r: Option<(Vec<u8>, NbtTag, usize)>)
    ensures
        r is None ==> spec_parse_root(data@) is None,
        r matches Some((name, v, j)) ==> spec_parse_root(data@) == Some(
            (name@, v@, j as int)) && j <= data@.len(),
{
    if data.len() < 3 {
        return None;
    }
    let tag = data[0];
    if tag == 0 {
        return None;
    }
    let nlen = read_be16(data, 1);
    if (nlen as u64) > (data.len() - 3) as u64 {
        return None;
    }
    let nend = 3 + nlen as usize;
    let mut name: Vec<u8> = Vec::new();
    crate::region::copy_bytes(&mut name, &data[3..nend]);
    match parse_payload(data, nend, tag) {
        None => None,
        Some((v, j)) => Some((name, v, j)),
    }
}


/// Every element from `i` on of a well-formed run is itself well formed.
pub proof fn lemma_elems_wf_index(elems: Seq<Nbt>, i: int)
    requires
        0 <= i,
        nbt_elems_wf(elems, i),
    ensures
        forall|k: int| i <= k < elems.len() ==> nbt_wf(#[trigger] elems[k]),
    decreases elems.len() - i,
{
    if i < elems.len() {
        lemma_elems_wf_index(elems, i + 1);
    }
}

/// Every entry from `i` on of a well-formed run is itself well formed.
pub proof fn lemma_entries_wf_index(entries: Seq<(Seq<u8>, Nbt)>, i: int)
    requires
        0 <= i,
        nbt_entries_wf(entries, i),
    ensures
        forall|k: int| i <= k < entries.len() ==> nbt_entry_wf(#[trigger] entries[k]),
    decreases entries.len() - i,
{
    if i < entries.len() {
        lemma_entries_wf_index(entries, i + 1);
    }
}

/// Whatever the 32-bit run parser accepts has exactly `n` values and ends at
/// `i + 4 * n`.
proof fn lemma_parse_u32s_shape(data: Seq<u8>, i: int, n: int)
    ensures
        spec_parse_u32s(data, i, n) matches Some((s, j)) ==> {
            &&& s.len() == if n >= 0 { n } else { 0int }
            &&& i <= j <= data.len()
            &&& (n >= 0 ==> j == i + 4 * n)
        },
    decreases data.len() - i, 0int, n,
{
    if 0 <= i <= data.len() && n > 0 && i + 4 <= data.len() {
        lemma_parse_u32s_shape(data, i + 4, n - 1);
    }
}

/// Whatever the 64-bit run parser accepts has exactly `n` values and ends at
/// `i + 8 * n`.
proof fn lemma_parse_u64s_shape(data: Seq<u8>, i: int, n: int)
    ensures
        spec_parse_u64s(data, i, n) matches Some((s, j)) ==> {
            &&& s.len() == if n >= 0 { n } else { 0int }
            &&& i <= j <= data.len()
            &&& (n >= 0 ==> j == i + 8 * n)
        },
    decreases data.len() - i, 0int, n,
{
    if 0 <= i <= data.len() && n > 0 && i + 8 <= data.len() {
        lemma_parse_u64s_shape(data, i + 8, n - 1);
    }
}

/// Whatever the payload parser accepts is well formed, announces the tag it
/// was parsed under, and consumed at least one byte.
pub proof fn lemma_parse_payload_wf(data: Seq<u8>, i: int, tag: u8)
    ensures
        spec_parse_payload(data, i, tag) matches Some((v, j)) ==> nbt_wf(v) && spec_tag_of(v)
            == tag && i < j <= data.len(),
    decreases data.len() - i, 1int, 0int,
{
    if i < 0 || i > data.len() {
    } else if tag == 9 {
        if i + 5 <= data.len() {
            let et = data[i];
            let n = crate::header::spec_be32(data, i + 1);
            if n < 0x80000000 && (n == 0 || et != 0) {
                lemma_parse_list_elems_wf(data, i + 5, et, n);
            }
        }
    } else if tag == 10 {
        lemma_parse_entries_wf(data, i);
    } else if tag == 11 {
        if i + 4 <= data.len() {
            lemma_parse_u32s_shape(data, i + 4, crate::header::spec_be32(data, i));
        }
    } else if tag == 12 {
        if i + 4 <= data.len() {
            lemma_parse_u64s_shape(data, i + 4, crate::header::spec_be32(data, i));
        }
    }
}

/// Whatever the list parser accepts is a well-formed homogeneous run of
/// exactly `n` elements.
pub proof fn lemma_parse_list_elems_wf(data: Seq<u8>, i: int, tag: u8, n: int)
    ensures
        spec_parse_list_elems(data, i, tag, n) matches Some((elems, j)) ==> {
            &&& elems.len() == if n >= 0 { n } else { 0 }
            &&& nbt_elems_wf(elems, 0)
            &&& forall|k: int| 0 <= k < elems.len() ==> spec_tag_of(#[trigger] elems[k]) == tag
            &&& i <= j <= data.len()
        },
    decreases data.len() - i, 2int, n,
{
    if i < 0 || i > data.len() || n <= 0 {
    } else {
        match spec_parse_payload(data, i, tag) {
            None => {},
            Some((v, j)) => {
                lemma_parse_payload_wf(data, i, tag);
                if j <= i || j > data.len() {
                } else {
                    lemma_parse_list_elems_wf(data, j, tag, n - 1);
                    match spec_parse_list_elems(data, j, tag, n - 1) {
                        None => {},
                        Some((rest, k)) => {
                            let whole = seq![v] + rest;
                            lemma_elems_wf_prepend(v, rest);
                        },
                    }
                }
            },
        }
    }
}

proof fn lemma_elems_wf_prepend(v: Nbt, rest: Seq<Nbt>)
    requires
        nbt_wf(v),
        nbt_elems_wf(rest, 0),
    ensures
        nbt_elems_wf(seq![v] + rest, 0),
{
    lemma_elems_wf_shift(v, rest, 0);
    assert((seq![v] + rest)[0] == v);
}

proof fn lemma_elems_wf_shift(v: Nbt, rest: Seq<Nbt>, i: int)
    requires
        0 <= i,
        nbt_elems_wf(rest, i),
    ensures
        nbt_elems_wf(seq![v] + rest, i + 1),
    decreases rest.len() - i,
{
    let s = seq![v] + rest;
    if i < rest.len() {
        assert(s[i + 1] == rest[i]);
        lemma_elems_wf_shift(v, rest, i + 1);
    }
}

/// Whatever the entry parser accepts is a well-formed entry run that consumed
/// at least the end tag.
pub proof fn lemma_parse_entries_wf(data: Seq<u8>, i: int)
    ensures
        spec_parse_entries(data, i) matches Some((entries, j)) ==> nbt_entries_wf(entries, 0)
            && i < j <= data.len(),
    decreases data.len() - i, 0int, 0int,
{
    if i < 0 || i >= data.len() {
    } else if data[i] == 0 {
    } else {
        let tag = data[i];
        if i + 3 > data.len() {
        } else {
            let nlen = spec_be16(data, i + 1);
            if i + 3 + nlen > data.len() {
            } else {
                let name = data.subrange(i + 3, i + 3 + nlen);
                match spec_parse_payload(data, i + 3 + nlen, tag) {
                    None => {},
                    Some((v, j)) => {
                        lemma_parse_payload_wf(data, i + 3 + nlen, tag);
                        if j <= i || j > data.len() {
                        } else {
                            lemma_parse_entries_wf(data, j);
                            match spec_parse_entries(data, j) {
                                None => {},
                                Some((rest, k)) => {
                                    assert(0 <= spec_be16(data, i + 1) <= 0xFFFF);
                                    lemma_entries_wf_prepend((name, v), rest);
                                },
                            }
                        }
                    },
                }
            }
        }
    }
}

proof fn lemma_entries_wf_prepend(e: (Seq<u8>, Nbt), rest: Seq<(Seq<u8>, Nbt)>)
    requires
        nbt_entry_wf(e),
        nbt_entries_wf(rest, 0),
    ensures
        nbt_entries_wf(seq![e] + rest, 0),
{
    lemma_entries_wf_shift(e, rest, 0);
    assert((seq![e] + rest)[0] == e);
}

proof fn lemma_entries_wf_shift(e: (Seq<u8>, Nbt), rest: Seq<(Seq<u8>, Nbt)>, i: int)
    requires
        0 <= i,
        nbt_entries_wf(rest, i),
    ensures
        nbt_entries_wf(seq![e] + rest, i + 1),
    decreases rest.len() - i,
{
    let s = seq![e] + rest;
    if i < rest.len() {
        assert(s[i + 1] == rest[i]);
        lemma_entries_wf_shift(e, rest, i + 1);
    }
}

/// The tag byte this executable value serializes under.
pub fn tag_of(t: &NbtTag) -> (r: u8)
    ensures
        r == spec_tag_of(t@),
{
    match t {
        NbtTag::Byte(_) => 1u8,
        NbtTag::Short(_) => 2u8,
        NbtTag::Int(_) => 3u8,
        NbtTag::Long(_) => 4u8,
        NbtTag::Float(_) => 5u8,
        NbtTag::Double(_) => 6u8,
        NbtTag::ByteArray(_) => 7u8,
        NbtTag::Str(_) => 8u8,
        NbtTag::List(_, _) => 9u8,
        NbtTag::Compound(_) => 10u8,
        NbtTag::IntArray(_) => 11u8,
        NbtTag::LongArray(_) => 12u8,
    }
}

/// Appends the two big-endian bytes of `v`.
pub fn push_be16(dst: &mut Vec<u8>, v: u16)
    ensures
        final(dst)@ == old(dst)@ + spec_be16_bytes(v as int),
{
    dst.push((v / 0x100) as u8);
    dst.push((v % 0x100) as u8);
    assert(dst@ =~= old(dst)@ + spec_be16_bytes(v as int));
}

/// Appends the four big-endian bytes of `v`.
pub fn push_be32(dst: &mut Vec<u8>, v: u32)
    ensures
        final(dst)@ == old(dst)@ + crate::header::spec_be32_bytes(v as int),
{
    dst.push((v / 0x1000000 % 0x100) as u8);
    dst.push((v / 0x10000 % 0x100) as u8);
    dst.push((v / 0x100 % 0x100) as u8);
    dst.push((v % 0x100) as u8);
    assert(dst@ =~= old(dst)@ + crate::header::spec_be32_bytes(v as int));
}

/// Appends the eight big-endian bytes of `v`.
pub fn push_be64(dst: &mut Vec<u8>, v: u64)
    ensures
        final(dst)@ == old(dst)@ + spec_be64_bytes(v as int),
{
    push_be32(dst, (v / 0x100000000) as u32);
    push_be32(dst, (v % 0x100000000) as u32);
    assert(dst@ =~= old(dst)@ + spec_be64_bytes(v as int));
}

/// Appends the serialized payload of a well-formed value.
pub fn ser_payload_into(t: &NbtTag, out: &mut Vec<u8>)
    requires
        nbt_wf(t@),
    ensures
        final(out)@ == old(out)@ + spec_ser_payload(t@),
    decreases *t, 4int,
{
    let ghost base = out@;
    match t {
        NbtTag::Byte(b) => {
            out.push(*b);
            assert(out@ =~= base + spec_ser_payload(t@));
        },
        NbtTag::Short(v) => {
            push_be16(out, *v);
        },
        NbtTag::Int(v) => {
            push_be32(out, *v);
        },
        NbtTag::Long(v) => {
            push_be64(out, *v);
        },
        NbtTag::Float(v) => {
            push_be32(out, *v);
        },
        NbtTag::Double(v) => {
            push_be64(out, *v);
        },
        NbtTag::ByteArray(v) => {
            push_be32(out, v.len() as u32);
            crate::region::copy_bytes(out, v.as_slice());
            assert(out@ =~= base + spec_ser_payload(t@));
        },
        NbtTag::Str(v) => {
            push_be16(out, v.len() as u16);
            crate::region::copy_bytes(out, v.as_slice());
            assert(out@ =~= base + spec_ser_payload(t@));
        },
        NbtTag::List(et, children) => {
            proof {
                lemma_view_elems_index(children@, 0);
                lemma_elems_wf_index(spec_view_elems(children@, 0), 0);
            }
            out.push(*et);
            push_be32(out, children.len() as u32);
            ser_elems_into(children, out);
            assert(out@ =~= base + spec_ser_payload(t@));
        },
        NbtTag::Compound(entries) => {
            proof {
                lemma_view_entries_index(entries@, 0);
                lemma_entries_wf_index(spec_view_entries(entries@, 0), 0);
            }
            ser_entries_into(entries, out);
            out.push(0u8);
            assert(out@ =~= base + spec_ser_payload(t@));
        },
        NbtTag::IntArray(v) => {
            push_be32(out, v.len() as u32);
            let ghost base2 = out@;
            let mut k: usize = 0;
            while k < v.len()
                invariant
                    k <= v@.len(),
                    v@.len() <= 0x7FFFFFFF,
                    out@ + spec_ser_u32s(v@, k as int) == base2 + spec_ser_u32s(v@, 0),
                    base2 + spec_ser_u32s(v@, 0) == base + spec_ser_payload(
                        Nbt::IntArray(v@)),
                decreases v@.len() - k,
            {
                push_be32(out, v[k]);
                proof {
                    assert(spec_ser_u32s(v@, k as int) == crate::header::spec_be32_bytes(
                        v@[k as int] as int) + spec_ser_u32s(v@, k as int + 1));
                    assert(out@ + spec_ser_u32s(v@, k as int + 1) =~= base2 + spec_ser_u32s(
                        v@, 0));
                }
                k = k + 1;
            }
            proof {
                assert(spec_ser_u32s(v@, v@.len() as int) =~= Seq::<u8>::empty());
                assert(out@ =~= base + spec_ser_payload(t@));
            }
        },
        NbtTag::LongArray(v) => {
            push_be32(out, v.len() as u32);
            let ghost base2 = out@;
            let mut k: usize = 0;
            while k < v.len()
                invariant
                    k <= v@.len(),
                    v@.len() <= 0x7FFFFFFF,
                    out@ + spec_ser_u64s(v@, k as int) == base2 + spec_ser_u64s(v@, 0),
                    base2 + spec_ser_u64s(v@, 0) == base + spec_ser_payload(
                        Nbt::LongArray(v@)),
                decreases v@.len() - k,
            {
                push_be64(out, v[k]);
                proof {
                    assert(spec_ser_u64s(v@, k as int) == spec_be64_bytes(v@[k as int] as int)
                        + spec_ser_u64s(v@, k as int + 1));
                    assert(out@ + spec_ser_u64s(v@, k as int + 1) =~= base2 + spec_ser_u64s(
                        v@, 0));
                }
                k = k + 1;
            }
            proof {
                assert(spec_ser_u64s(v@, v@.len() as int) =~= Seq::<u8>::empty());
                assert(out@ =~= base + spec_ser_payload(t@));
            }
        },
    }
}

/// Appends the serialized payloads of every list element in order.
fn ser_elems_into(children: &Vec<NbtTag>, out: &mut Vec<u8>)
    requires
        forall|m: int|
            0 <= m < children@.len() ==> nbt_wf(nbt_view(#[trigger] children@[m])),
    ensures
        final(out)@ == old(out)@ + spec_ser_elems(spec_view_elems(children@, 0), 0),
    decreases *children, 3int,
{
    let ghost elems = spec_view_elems(children@, 0);
    proof {
        lemma_view_elems_index(children@, 0);
    }
    let ghost base = out@;
    let mut k: usize = 0;
    while k < children.len()
        invariant
            k <= children@.len(),
            elems == spec_view_elems(children@, 0),
            elems.len() == children@.len(),
            forall|m: int|
                0 <= m < children@.len() ==> elems[m] == nbt_view(#[trigger] children@[m]),
            forall|m: int|
                0 <= m < children@.len() ==> nbt_wf(nbt_view(#[trigger] children@[m])),
            out@ + spec_ser_elems(elems, k as int) == base + spec_ser_elems(elems, 0),
        decreases children@.len() - k,
    {
        proof {
            assert(spec_ser_elems(elems, k as int) == spec_ser_payload(elems[k as int])
                + spec_ser_elems(elems, k as int + 1));
        }
        ser_payload_into(&children[k], out);
        proof {
            assert(out@ + spec_ser_elems(elems, k as int + 1) =~= base + spec_ser_elems(
                elems, 0));
        }
        k = k + 1;
    }
    proof {
        assert(spec_ser_elems(elems, children@.len() as int) =~= Seq::<u8>::empty());
        assert(out@ =~= base + spec_ser_elems(elems, 0));
    }
}

/// Appends the serialized entries of a compound in order, without the end
/// tag.
fn ser_entries_into(entries: &Vec<NbtEntry>, out: &mut Vec<u8>)
    requires
        forall|m: int|
            0 <= m < entries@.len() ==> nbt_entry_wf(
                ((#[trigger] entries@[m]).name@, nbt_view(entries@[m].value))),
    ensures
        final(out)@ == old(out)@ + spec_ser_entries(spec_view_entries(entries@, 0), 0),
    decreases *entries, 3int,
{
    let ghost ments = spec_view_entries(entries@, 0);
    proof {
        lemma_view_entries_index(entries@, 0);
    }
    let ghost base = out@;
    let mut k: usize = 0;
    while k < entries.len()
        invariant
            k <= entries@.len(),
            ments == spec_view_entries(entries@, 0),
            ments.len() == entries@.len(),
            forall|m: int|
                0 <= m < entries@.len() ==> ments[m] == ((#[trigger] entries@[m]).name@,
                nbt_view(entries@[m].value)),
            forall|m: int|
                0 <= m < entries@.len() ==> nbt_entry_wf(
                    ((#[trigger] entries@[m]).name@, nbt_view(entries@[m].value))),
            out@ + spec_ser_entries(ments, k as int) == base + spec_ser_entries(ments, 0),
        decreases entries@.len() - k,
    {
        proof {
            assert(spec_ser_entries(ments, k as int) == spec_ser_entry(ments[k as int])
                + spec_ser_entries(ments, k as int + 1));
        }
        ser_entry_into(&entries[k], out);
        proof {
            assert(out@ + spec_ser_entries(ments, k as int + 1) =~= base + spec_ser_entries(
                ments, 0));
        }
        k = k + 1;
    }
    proof {
        assert(spec_ser_entries(ments, entries@.len() as int) =~= Seq::<u8>::empty());
        assert(out@ =~= base + spec_ser_entries(ments, 0));
    }
}

/// Appends one serialized compound entry.
fn ser_entry_into(e: &NbtEntry, out: &mut Vec<u8>)
    requires
        nbt_entry_wf((e.name@, nbt_view(e.value))),
    ensures
        final(out)@ == old(out)@ + spec_ser_entry((e.name@, nbt_view(e.value))),
    decreases *e, 5int,
{
    let ghost base = out@;
    let tag = tag_of(&e.value);
    out.push(tag);
    push_be16(out, e.name.len() as u16);
    crate::region::copy_bytes(out, e.name.as_slice());
    ser_payload_into(&e.value, out);
    assert(out@ =~= base + spec_ser_entry((e.name@, nbt_view(e.value))));
}

/// Serializes a whole document: tag byte, length-prefixed root name, payload.
pub fn ser_root(name: &Vec<u8>, t: &NbtTag) -> (r: Vec<u8>)
    requires
        name@.len() <= 0xFFFF,
        nbt_wf(t@),
    ensures
        r@ == spec_ser_root(name@, t@),
{
    let mut out: Vec<u8> = Vec::new();
    let tag = tag_of(t);
    out.push(tag);
    push_be16(&mut out, name.len() as u16);
    crate::region::copy_bytes(&mut out, name.as_slice());
    ser_payload_into(t, &mut out);
    proof {
        assert(out@ =~= spec_ser_root(name@, t@));
    }
    out
}


/// Splitting a 16-bit value into big-endian bytes inverts `spec_be16`.
pub proof fn lemma_be16_roundtrip(v: int)
    requires
        0 <= v < 0x10000,
    ensures
        spec_be16(spec_be16_bytes(v), 0) == v,
{
    let b = spec_be16_bytes(v);
    assert(b[0] * 0x100 + b[1] == v) by (nonlinear_arith)
        requires
            0 <= v < 0x10000,
            b[0] == (v / 0x100 % 0x100) as u8,
            b[1] == (v % 0x100) as u8;
}

/// Splitting a 64-bit value into big-endian bytes inverts `spec_be64`.
pub proof fn lemma_be64_roundtrip(v: int)
    requires
        0 <= v < 0x10000000000000000,
    ensures
        spec_be64(spec_be64_bytes(v), 0) == v,
{
    let hi = v / 0x100000000 % 0x100000000;
    let lo = v % 0x100000000;
    crate::header::lemma_be32_roundtrip(hi);
    crate::header::lemma_be32_roundtrip(lo);
    let b = spec_be64_bytes(v);
    assert(b =~= crate::header::spec_be32_bytes(hi) + crate::header::spec_be32_bytes(lo));
    assert(crate::header::spec_be32(b, 0) == hi);
    assert(b.subrange(4, 8) =~= crate::header::spec_be32_bytes(lo));
    assert(crate::header::spec_be32(b, 4) == lo);
    assert(hi * 0x100000000 + lo == v) by (nonlinear_arith)
        requires
            0 <= v < 0x10000000000000000,
            hi == v / 0x100000000 % 0x100000000,
            lo == v % 0x100000000;
}

/// Reading two bytes that hold the big-endian form of `v` yields `v`.
proof fn lemma_be16_at(data: Seq<u8>, i: int, v: int)
    requires
        0 <= i,
        i + 2 <= data.len(),
        data.subrange(i, i + 2) == spec_be16_bytes(v),
        0 <= v < 0x10000,
    ensures
        spec_be16(data, i) == v,
{
    lemma_be16_roundtrip(v);
    assert(data[i] == spec_be16_bytes(v)[0]);
    assert(data[i + 1] == spec_be16_bytes(v)[1]);
}

/// Reading four bytes that hold the big-endian form of `v` yields `v`.
proof fn lemma_be32_at(data: Seq<u8>, i: int, v: int)
    requires
        0 <= i,
        i + 4 <= data.len(),
        data.subrange(i, i + 4) == crate::header::spec_be32_bytes(v),
        0 <= v < 0x100000000,
    ensures
        crate::header::spec_be32(data, i) == v,
{
    crate::header::lemma_be32_roundtrip(v);
    assert(data[i] == crate::header::spec_be32_bytes(v)[0]);
    assert(data[i + 1] == crate::header::spec_be32_bytes(v)[1]);
    assert(data[i + 2] == crate::header::spec_be32_bytes(v)[2]);
    assert(data[i + 3] == crate::header::spec_be32_bytes(v)[3]);
}

/// Reading eight bytes that hold the big-endian form of `v` yields `v`.
proof fn lemma_be64_at(data: Seq<u8>, i: int, v: int)
    requires
        0 <= i,
        i + 8 <= data.len(),
        data.subrange(i, i + 8) == spec_be64_bytes(v),
        0 <= v < 0x10000000000000000,
    ensures
        spec_be64(data, i) == v,
{
    lemma_be64_roundtrip(v);
    let b = spec_be64_bytes(v);
    assert(b.len() == 8);
    assert(data[i] == b[0]);
    assert(data[i + 1] == b[1]);
    assert(data[i + 2] == b[2]);
    assert(data[i + 3] == b[3]);
    assert(data[i + 4] == b[4]);
    assert(data[i + 5] == b[5]);
    assert(data[i + 6] == b[6]);
    assert(data[i + 7] == b[7]);
}


/// A byte string that carries a concatenation carries each part at its
/// offset.
proof fn lemma_sub_concat(data: Seq<u8>, i: int, a: Seq<u8>, b: Seq<u8>)
    requires
        0 <= i,
        i + a.len() + b.len() <= data.len(),
        data.subrange(i, i + a.len() + b.len()) == a + b,
    ensures
        data.subrange(i, i + a.len() as int) == a,
        data.subrange(i + a.len(), i + a.len() + b.len()) == b,
{
    assert forall|m: int| 0 <= m < a.len() implies data[i + m] == a[m] by {
        assert(data.subrange(i, i + a.len() + b.len())[m] == (a + b)[m]);
        assert(data.subrange(i, i + a.len() + b.len())[m] == data[i + m]);
        assert((a + b)[m] == a[m]);
    }
    assert forall|m: int| 0 <= m < b.len() implies data[i + a.len() + m] == b[m] by {
        assert(data.subrange(i, i + a.len() + b.len())[a.len() + m] == (a + b)[a.len() + m]);
        assert(data.subrange(i, i + a.len() + b.len())[a.len() + m] == data[i + a.len() + m]);
        assert((a + b)[a.len() + m] == b[m]);
    }
    assert(data.subrange(i, i + a.len() as int) =~= a);
    assert(data.subrange(i + a.len(), i + a.len() + b.len()) =~= b);
}

/// Every serialized payload takes at least one byte.
pub proof fn lemma_ser_payload_len_pos(n: Nbt)
    ensures
        spec_ser_payload(n).len() >= 1,
{
}

/// Parsing a serialized payload embedded in a larger byte string yields the
/// value back and stops right after it: the serializer and the parser invert
/// each other.
#[verifier::rlimit(100)]
pub proof fn lemma_parse_ser_payload(data: Seq<u8>, i: int, n: Nbt)
    requires
        nbt_wf(n),
        0 <= i,
        i + spec_ser_payload(n).len() <= data.len(),
        data.subrange(i, i + spec_ser_payload(n).len() as int) == spec_ser_payload(n),
    ensures
        spec_parse_payload(data, i, spec_tag_of(n)) == Some(
            (n, i + spec_ser_payload(n).len())),
    decreases n, 1int, 0int,
{
    let ser = spec_ser_payload(n);
    match n {
        Nbt::Byte(b) => {
            assert(data[i] == ser[0]);
        },
        Nbt::Short(v) => {
            lemma_be16_at(data, i, v as int);
        },
        Nbt::Int(v) => {
            lemma_be32_at(data, i, v as int);
        },
        Nbt::Long(v) => {
            lemma_be64_at(data, i, v as int);
        },
        Nbt::Float(v) => {
            lemma_be32_at(data, i, v as int);
        },
        Nbt::Double(v) => {
            lemma_be64_at(data, i, v as int);
        },
        Nbt::ByteArray(s) => {
            let lenb = crate::header::spec_be32_bytes(s.len() as int);
            lemma_sub_concat(data, i, lenb, s);
            lemma_be32_at(data, i, s.len() as int);
        },
        Nbt::Str(s) => {
            let lenb = spec_be16_bytes(s.len() as int);
            lemma_sub_concat(data, i, lenb, s);
            lemma_be16_at(data, i, s.len() as int);
        },
        Nbt::List(t, elems) => {
            let lenb = crate::header::spec_be32_bytes(elems.len() as int);
            let body = spec_ser_elems(elems, 0);
            lemma_sub_concat(data, i, seq![t] + lenb, body);
            lemma_sub_concat(data, i, seq![t], lenb);
            assert(data[i] == (seq![t])[0]);
            lemma_be32_at(data, i + 1, elems.len() as int);
            lemma_parse_ser_elems(data, i + 5, elems, 0, t);
            assert(elems.subrange(0, elems.len() as int) =~= elems);
        },
        Nbt::Compound(entries) => {
            lemma_parse_ser_entries(data, i, entries, 0);
            assert(entries.subrange(0, entries.len() as int) =~= entries);
        },
        Nbt::IntArray(s) => {
            let lenb = crate::header::spec_be32_bytes(s.len() as int);
            lemma_ser_u32s_len(s, 0);
            lemma_sub_concat(data, i, lenb, spec_ser_u32s(s, 0));
            lemma_be32_at(data, i, s.len() as int);
            lemma_parse_ser_u32s(data, i + 4, s, 0);
            assert(s.subrange(0, s.len() as int) =~= s);
        },
        Nbt::LongArray(s) => {
            let lenb = crate::header::spec_be32_bytes(s.len() as int);
            lemma_ser_u64s_len(s, 0);
            lemma_sub_concat(data, i, lenb, spec_ser_u64s(s, 0));
            lemma_be32_at(data, i, s.len() as int);
            lemma_parse_ser_u64s(data, i + 4, s, 0);
            assert(s.subrange(0, s.len() as int) =~= s);
        },
    }
}

/// Parsing the serialized elements of a homogeneous well-formed run yields
/// the run back.
#[verifier::rlimit(100)]
proof fn lemma_parse_ser_elems(data: Seq<u8>, i: int, elems: Seq<Nbt>, k: int, t: u8)
    requires
        0 <= k <= elems.len(),
        nbt_elems_wf(elems, k),
        forall|m: int| k <= m < elems.len() ==> spec_tag_of(#[trigger] elems[m]) == t,
        0 <= i,
        i + spec_ser_elems(elems, k).len() <= data.len(),
        data.subrange(i, i + spec_ser_elems(elems, k).len() as int) == spec_ser_elems(elems, k),
    ensures
        spec_parse_list_elems(data, i, t, elems.len() - k) == Some(
            (elems.subrange(k, elems.len() as int), i + spec_ser_elems(elems, k).len())),
    decreases elems, 2int, elems.len() - k,
{
    if k == elems.len() {
        assert(elems.subrange(k, elems.len() as int) =~= Seq::<Nbt>::empty());
    } else {
        let e = elems[k];
        let l1 = spec_ser_payload(e).len() as int;
        let rest = spec_ser_elems(elems, k + 1);
        assert(spec_ser_elems(elems, k) == spec_ser_payload(e) + rest);
        lemma_sub_concat(data, i, spec_ser_payload(e), rest);
        assert(decreases_to!(elems => elems[k]));
        lemma_parse_ser_payload(data, i, e);
        lemma_ser_payload_len_pos(e);
        lemma_parse_ser_elems(data, i + l1, elems, k + 1, t);
        assert(seq![e] + elems.subrange(k + 1, elems.len() as int) =~= elems.subrange(
            k, elems.len() as int));
    }
}

/// Parsing the serialized entries of a well-formed compound, end tag
/// included, yields the entries back.
#[verifier::rlimit(100)]
proof fn lemma_parse_ser_entries(data: Seq<u8>, i: int, entries: Seq<(Seq<u8>, Nbt)>, k: int)
    requires
        0 <= k <= entries.len(),
        nbt_entries_wf(entries, k),
        0 <= i,
        i + spec_ser_entries(entries, k).len() + 1 <= data.len(),
        data.subrange(i, i + spec_ser_entries(entries, k).len() + 1) == spec_ser_entries(
            entries, k) + seq![0u8],
    ensures
        spec_parse_entries(data, i) == Some(
            (entries.subrange(k, entries.len() as int), i + spec_ser_entries(entries, k).len()
                + 1)),
    decreases entries, 2int, entries.len() - k,
{
    if k == entries.len() {
        assert(data.subrange(i, i + spec_ser_entries(entries, k).len() + 1)[0] == (
            spec_ser_entries(entries, k) + seq![0u8])[0]);
        assert(data.subrange(i, i + spec_ser_entries(entries, k).len() + 1)[0] == data[i]);
        assert(spec_ser_entries(entries, k).len() == 0);
        assert((spec_ser_entries(entries, k) + seq![0u8])[0] == 0u8);
        assert(data[i] == 0u8);
        assert(entries.subrange(k, entries.len() as int) =~= Seq::<(Seq<u8>, Nbt)>::empty());
    } else {
        let e = entries[k];
        assert(nbt_entry_wf(entries[k]));
        let name = e.0;
        let v = e.1;
        let tag = spec_tag_of(v);
        let entry_ser = spec_ser_entry(e);
        let rest = spec_ser_entries(entries, k + 1);
        assert(spec_ser_entries(entries, k) == entry_ser + rest);
        assert(tag != 0);
        let lenb = spec_be16_bytes(name.len() as int);
        let pay = spec_ser_payload(v);
        // entry_ser + (rest + end tag), then the entry's own pieces.
        assert(spec_ser_entries(entries, k) + seq![0u8] =~= entry_ser + (rest + seq![0u8]));
        lemma_sub_concat(data, i, entry_ser, rest + seq![0u8]);
        assert(entry_ser =~= (seq![tag] + lenb + name) + pay);
        lemma_sub_concat(data, i, seq![tag] + lenb + name, pay);
        assert(seq![tag] + lenb + name =~= (seq![tag] + lenb) + name);
        lemma_sub_concat(data, i, seq![tag] + lenb, name);
        lemma_sub_concat(data, i, seq![tag], lenb);
        assert(data[i] == (seq![tag])[0]);
        lemma_be16_at(data, i + 1, name.len() as int);
        let pstart = i + 3 + name.len() as int;
        let l1 = pay.len() as int;
        assert(decreases_to!(entries => entries[k]));
        assert(decreases_to!(entries[k] => entries[k].1));
        lemma_parse_ser_payload(data, pstart, v);
        lemma_ser_payload_len_pos(v);
        let j = pstart + l1;
        lemma_parse_ser_entries(data, j, entries, k + 1);
        assert(data.subrange(i + 3, i + 3 + spec_be16(data, i + 1)) == name);
        assert(seq![(name, v)] + entries.subrange(k + 1, entries.len() as int) =~= entries
            .subrange(k, entries.len() as int));
    }
}

/// The serialized 32-bit run from `k` on takes four bytes per value.
proof fn lemma_ser_u32s_len(s: Seq<u32>, k: int)
    requires
        0 <= k <= s.len(),
    ensures
        spec_ser_u32s(s, k).len() == 4 * (s.len() - k),
    decreases s.len() - k,
{
    if k < s.len() {
        lemma_ser_u32s_len(s, k + 1);
    }
}

/// The serialized 64-bit run from `k` on takes eight bytes per value.
proof fn lemma_ser_u64s_len(s: Seq<u64>, k: int)
    requires
        0 <= k <= s.len(),
    ensures
        spec_ser_u64s(s, k).len() == 8 * (s.len() - k),
    decreases s.len() - k,
{
    if k < s.len() {
        lemma_ser_u64s_len(s, k + 1);
    }
}

/// Parsing a serialized 32-bit run yields the run back.
#[verifier::rlimit(100)]
proof fn lemma_parse_ser_u32s(data: Seq<u8>, i: int, s: Seq<u32>, k: int)
    requires
        0 <= k <= s.len(),
        0 <= i,
        i + spec_ser_u32s(s, k).len() <= data.len(),
        data.subrange(i, i + spec_ser_u32s(s, k).len() as int) == spec_ser_u32s(s, k),
    ensures
        spec_parse_u32s(data, i, s.len() - k) == Some(
            (s.subrange(k, s.len() as int), i + spec_ser_u32s(s, k).len())),
    decreases s.len() - k,
{
    lemma_ser_u32s_len(s, k);
    if k == s.len() {
        assert(s.subrange(k, s.len() as int) =~= Seq::<u32>::empty());
    } else {
        let rest = spec_ser_u32s(s, k + 1);
        assert(spec_ser_u32s(s, k) == crate::header::spec_be32_bytes(s[k] as int) + rest);
        lemma_sub_concat(data, i, crate::header::spec_be32_bytes(s[k] as int), rest);
        lemma_be32_at(data, i, s[k] as int);
        lemma_parse_ser_u32s(data, i + 4, s, k + 1);
        assert(seq![s[k]] + s.subrange(k + 1, s.len() as int) =~= s.subrange(k, s.len() as int));
    }
}

/// Parsing a serialized 64-bit run yields the run back.
#[verifier::rlimit(100)]
proof fn lemma_parse_ser_u64s(data: Seq<u8>, i: int, s: Seq<u64>, k: int)
    requires
        0 <= k <= s.len(),
        0 <= i,
        i + spec_ser_u64s(s, k).len() <= data.len(),
        data.subrange(i, i + spec_ser_u64s(s, k).len() as int) == spec_ser_u64s(s, k),
    ensures
        spec_parse_u64s(data, i, s.len() - k) == Some(
            (s.subrange(k, s.len() as int), i + spec_ser_u64s(s, k).len())),
    decreases s.len() - k,
{
    lemma_ser_u64s_len(s, k);
    if k == s.len() {
        assert(s.subrange(k, s.len() as int) =~= Seq::<u64>::empty());
    } else {
        let rest = spec_ser_u64s(s, k + 1);
        assert(spec_ser_u64s(s, k) == spec_be64_bytes(s[k] as int) + rest);
        lemma_sub_concat(data, i, spec_be64_bytes(s[k] as int), rest);
        lemma_be64_at(data, i, s[k] as int);
        lemma_parse_ser_u64s(data, i + 8, s, k + 1);
        assert(seq![s[k]] + s.subrange(k + 1, s.len() as int) =~= s.subrange(k, s.len() as int));
    }
}

/// Parsing a whole serialized document yields the root name and value back
/// and consumes every byte.
pub proof fn lemma_parse_ser_root(name: Seq<u8>, n: Nbt)
    requires
        nbt_wf(n),
        name.len() <= 0xFFFF,
    ensures
        spec_parse_root(spec_ser_root(name, n)) == Some(
            (name, n, spec_ser_root(name, n).len() as int)),
{
    let data = spec_ser_root(name, n);
    lemma_ser_payload_len_pos(n);
    let tag = spec_tag_of(n);
    let lenb = spec_be16_bytes(name.len() as int);
    let pay = spec_ser_payload(n);
    assert(data.subrange(0, data.len() as int) =~= data);
    assert(data =~= (seq![tag] + lenb + name) + pay);
    lemma_sub_concat(data, 0, seq![tag] + lenb + name, pay);
    assert(seq![tag] + lenb + name =~= (seq![tag] + lenb) + name);
    lemma_sub_concat(data, 0, seq![tag] + lenb, name);
    lemma_sub_concat(data, 0, seq![tag], lenb);
    assert(data[0] == (seq![tag])[0]);
    assert(tag != 0);
    lemma_be16_at(data, 1, name.len() as int);
    let pstart = 3 + name.len() as int;
    lemma_parse_ser_payload(data, pstart, n);
    assert(data.subrange(3, 3 + spec_be16(data, 1)) == name);
}

} // verus!
