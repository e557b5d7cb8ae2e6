//! Region file naming: `<prefix>.<x>.<z>.<ext>`, where the second and third
//! dot-separated fields are signed decimal world coordinates. The codec never
//! stores these coordinates inside the file, so callers recover them from the
//! name.

use vstd::prelude::*;
use vstd::string::StringSliceAdditionalSpecFns;

use crate::chunk::ChunkPos;
use crate::region::RegionFile;

verus! {

/// An ASCII decimal digit.
pub open spec fn spec_is_digit(b: u8) -> bool {
    0x30 <= b <= 0x39
}

/// The value of the first `i` bytes of `s` read as decimal digits.
pub open spec fn spec_digits_val(s: Seq<u8>, i: int) -> int
    decreases i,
{
    if i <= 0 {
        0
    } else {
        spec_digits_val(s, i - 1) * 10 + (s[i - 1] - 0x30)
    }
}

/// A non-empty, all-digit byte string.
pub open spec fn spec_all_digits(s: Seq<u8>) -> bool {
    s.len() > 0 && forall|k: int| 0 <= k < s.len() ==> spec_is_digit(#[trigger] s[k])
}

/// The signed 32-bit integer a field's bytes denote: an optional sign, then
/// decimal digits, within the type's range.
pub open spec fn spec_field_int(s: Seq<u8>) -> Option<int> {
    if s.len() > 0 && (s[0] == 0x2B || s[0] == 0x2D) {
        let body = s.subrange(1, s.len() as int);
        if spec_all_digits(body) {
            let v = spec_digits_val(body, body.len() as int);
            if s[0] == 0x2D {
                if v <= 0x80000000 {
                    Some(-v)
                } else {
                    None
                }
            } else {
                if v <= 0x7FFFFFFF {
                    Some(v)
                } else {
                    None
                }
            }
        } else {
            None
        }
    } else if spec_all_digits(s) {
        let v = spec_digits_val(s, s.len() as int);
        if v <= 0x7FFFFFFF {
            Some(v)
        } else {
            None
        }
    } else {
        None
    }
}

/// The first dot at or after `from`.
pub open spec fn spec_find_dot(s: Seq<u8>, from: int) -> Option<int>
    decreases s.len() - from,
{
    if from < 0 || from >= s.len() {
        None
    } else if s[from] == 0x2E {
        Some(from)
    } else {
        spec_find_dot(s, from + 1)
    }
}

/// The position a well-formed region file name denotes: its second and third
/// dot-separated fields, read as signed decimals.
pub open spec fn spec_parse_name(s: Seq<u8>) -> Option<ChunkPos> {
    match spec_find_dot(s, 0) {
        None => None,
        Some(d1) => match spec_find_dot(s, d1 + 1) {
            None => None,
            Some(d2) => {
                let xf = s.subrange(d1 + 1, d2);
                let zf = match spec_find_dot(s, d2 + 1) {
                    Some(d3) => s.subrange(d2 + 1, d3),
                    None => s.subrange(d2 + 1, s.len() as int),
                };
                match spec_field_int(xf) {
                    None => None,
                    Some(x) => match spec_field_int(zf) {
                        None => None,
                        Some(z) => Some(ChunkPos { x: x as i32, z: z as i32 }),
                    },
                }
            },
        },
    }
}

/// Digit prefixes only grow: a value read from more digits is at least the
/// value read from fewer, and never negative.
proof fn lemma_digits_val_mono(s: Seq<u8>, i: int, j: int)
    requires
        0 <= i <= j,
        forall|k: int| 0 <= k < j ==> spec_is_digit(#[trigger] s[k]),
    ensures
        0 <= spec_digits_val(s, i) <= spec_digits_val(s, j),
    decreases j,
{
    if j > 0 {
        if i == j {
            lemma_digits_val_mono(s, i - 1, j - 1);
        } else {
            lemma_digits_val_mono(s, i, j - 1);
        }
    }
}

/// Finds the first dot at or after `from`.
fn find_dot(data: &[u8], from: usize) -> (r: Option<usize>)
    requires
        from <= data@.len(),
    ensures
        r is None ==> spec_find_dot(data@, from as int) is None,
        r matches Some(d) ==> spec_find_dot(data@, from as int) == Some(d as int) && from <= d
            < data@.len(),
{
    let mut cur = from;
    while cur < data.len()
        invariant
            from <= cur <= data@.len(),
            spec_find_dot(data@, from as int) == spec_find_dot(data@, cur as int),
        decreases data@.len() - cur,
    {
        if data[cur] == 0x2E {
            return Some(cur);
        }
        cur = cur + 1;
    }
    None
}

/// Parses `data[start..end]` as a signed decimal within the 32-bit range.
fn parse_field(data: &[u8], start: usize, end: usize) -> (r: Option<i32>)
    requires
        start <= end <= data@.len(),
    ensures
        ({
            let field = data@.subrange(start as int, end as int);
            match r {
                None => spec_field_int(field) is None,
                Some(v) => spec_field_int(field) == Some(v as int),
            }
        }),
{
    let ghost field = data@.subrange(start as int, end as int);
    if start >= end {
        return None;
    }
    let negative = data[start] == 0x2D;
    let signed = negative || data[start] == 0x2B;
    let body_start = if signed {
        start + 1
    } else {
        start
    };
    let ghost body = data@.subrange(body_start as int, end as int);
    proof {
        assert(field.len() == end - start);
        assert(field[0] == data@[start as int]);
        if signed {
            assert(body =~= field.subrange(1, field.len() as int));
        } else {
            assert(body =~= field);
        }
    }
    if body_start >= end {
        return None;
    }
    let mut acc: u64 = 0;
    let mut k = body_start;
    while k < end
        invariant
            start <= body_start <= k <= end <= data@.len(),
            field == data@.subrange(start as int, end as int),
            field.len() == end - start,
            field.len() > 0,
            field[0] == data@[start as int],
            negative == (field[0] == 0x2D),
            signed == (field[0] == 0x2B || field[0] == 0x2D),
            signed ==> body_start == start + 1 && body == field.subrange(1, field.len() as int),
            !signed ==> body_start == start && body == field,
            body == data@.subrange(body_start as int, end as int),
            body.len() == end - body_start,
            body.len() > 0,
            forall|m: int| 0 <= m < k - body_start ==> spec_is_digit(#[trigger] body[m]),
            acc == spec_digits_val(body, k - body_start as int),
            acc <= 0x80000000,
        decreases end - k,
    {
        let b = data[k];
        proof {
            assert(body[k - body_start as int] == data@[k as int]);
        }
        if b < 0x30 || b > 0x39 {
            proof {
                assert(!spec_is_digit(body[k - body_start as int]));
                assert(!spec_all_digits(body));
            }
            return None;
        }
        let d = (b - 0x30) as u64;
        acc = acc * 10 + d;
        k = k + 1;
        if acc > 0x80000000 {
            proof {
                assert(acc == spec_digits_val(body, k - body_start as int));
                if spec_all_digits(body) {
                    lemma_digits_val_mono(body, k - body_start as int, body.len() as int);
                    assert(spec_digits_val(body, body.len() as int) >= acc);
                }
            }
            return None;
        }
    }
    proof {
        assert(acc == spec_digits_val(body, body.len() as int));
    }
    if negative {
        Some((-(acc as i64)) as i32)
    } else {
        if acc > 0x7FFFFFFF {
            return None;
        }
        Some(acc as i32)
    }
}

impl RegionFile {
    /// Reads a region position out of a file name shaped
    /// `<prefix>.<x>.<z>.<ext>`: the second and third dot-separated fields as
    /// signed decimals. `None` where the name has no such fields or a field
    /// is not a 32-bit decimal.
    pub fn parse_name(name: &str) -> (r: Option<ChunkPos>)
        ensures
            r == spec_parse_name(name.spec_bytes()),
    {
        let data = name.as_bytes();
        let total = data.len();
        let d1 = match find_dot(data, 0) {
            None => {
                return None;
            },
            Some(d) => d,
        };
        let d2 = match find_dot(data, d1 + 1) {
            None => {
                return None;
            },
            Some(d) => d,
        };
        let z_end = match find_dot(data, d2 + 1) {
            Some(d3) => d3,
            None => data.len(),
        };
        let x = match parse_field(data, d1 + 1, d2) {
            None => {
                return None;
            },
            Some(x) => x,
        };
        let z = match parse_field(data, d2 + 1, z_end) {
            None => {
                return None;
            },
            Some(z) => z,
        };
        Some(ChunkPos { x, z })
    }
}

} // verus!
