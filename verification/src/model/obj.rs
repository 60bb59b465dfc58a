//! The face records of a mesh description: corners written as three
//! 1-based indices with `/` between them.
use crate::geometry::{Vec3, Vec3i};
use vstd::prelude::*;

verus! {

/// The byte that parts the indices of a corner.
pub const SEPARATOR: u8 = 47;

pub open spec fn is_digit(b: u8) -> bool {
    48 <= b <= 57
}

/// The number that a sequence of decimal digits stands for.
pub open spec fn digits_value(s: Seq<u8>) -> int
    decreases s.len(),
{
    if s.len() == 0 {
        0
    } else {
        digits_value(s.drop_last()) * 10 + (s.last() - 48)
    }
}

/// A sign, if any, then at least one digit and nothing else.
pub open spec fn is_number(s: Seq<u8>) -> bool {
    let body = unsigned_part(s);
    body.len() > 0 && forall|i: int| 0 <= i < body.len() ==> is_digit(#[trigger] body[i])
}

/// The text begins with `+` or `-`.
pub open spec fn has_sign(s: Seq<u8>) -> bool {
    s.len() > 0 && (s[0] == 43 || s[0] == 45)
}

/// The text without its sign.
pub open spec fn unsigned_part(s: Seq<u8>) -> Seq<u8> {
    if has_sign(s) {
        s.skip(1)
    } else {
        s
    }
}

/// The number that the text stands for, whatever its size.
pub open spec fn number_value(s: Seq<u8>) -> int {
    if s.len() > 0 && s[0] == 45 {
        -digits_value(unsigned_part(s))
    } else {
        digits_value(unsigned_part(s))
    }
}

/// The 32-bit integer that the text stands for: an optional sign and
/// decimal digits, the value within range. `None` for any other text.
pub open spec fn parsed_i32(s: Seq<u8>) -> Option<i32> {
    if is_number(s) && i32::MIN <= number_value(s) <= i32::MAX {
        Some(number_value(s) as i32)
    } else {
        None
    }
}

/// Where the field that starts at `from` ends: at the next separator or
/// at the end of the text.
pub open spec fn field_end(s: Seq<u8>, from: int) -> int
    decreases s.len() - from,
{
    if from >= s.len() || s[from] == SEPARATOR {
        from
    } else {
        field_end(s, from + 1)
    }
}

/// The 0-based index that a field stands for: its number less one. A
/// field that is no number counts as 0 and gives -1, and so does the
/// least 32-bit number, which has no number below it.
pub open spec fn field_index(field: Seq<u8>) -> i32 {
    match parsed_i32(field) {
        Some(v) => if v == i32::MIN {
            -1i32
        } else {
            (v - 1) as i32
        },
        None => -1i32,
    }
}

/// The index triple of a corner written as `v/vt/vn`: the first three
/// fields, each made 0-based. `None` when the text has fewer than three
/// fields.
pub open spec fn parsed_corner(s: Seq<u8>) -> Option<Vec3i> {
    let e0 = field_end(s, 0);
    let e1 = field_end(s, e0 + 1);
    let e2 = field_end(s, e1 + 1);
    if e0 >= s.len() || e1 >= s.len() {
        None
    } else {
        Some(
            Vec3 {
                x: field_index(s.subrange(0, e0)),
                y: field_index(s.subrange(e0 + 1, e1)),
                z: field_index(s.subrange(e1 + 1, e2)),
            },
        )
    }
}

/// A field ends inside the text or at its end, not before its start.
pub proof fn lemma_field_end_bounds(s: Seq<u8>, from: int)
    requires
        0 <= from <= s.len(),
    ensures
        from <= field_end(s, from) <= s.len(),
        field_end(s, from) < s.len() ==> s[field_end(s, from)] == SEPARATOR,
        forall|i: int| from <= i < field_end(s, from) ==> s[i] != SEPARATOR,
    decreases s.len() - from,
{
    if from < s.len() && s[from] != SEPARATOR {
        lemma_field_end_bounds(s, from + 1);
    }
}

/// More digits never make a number smaller.
proof fn lemma_digits_grow(s: Seq<u8>, n: int)
    requires
        0 <= n <= s.len(),
        forall|i: int| 0 <= i < s.len() ==> is_digit(#[trigger] s[i]),
    ensures
        0 <= digits_value(s.subrange(0, n)) <= digits_value(s),
    decreases s.len() - n,
{
    if n == s.len() {
        assert(s.subrange(0, n) =~= s);
        lemma_digits_nonnegative(s);
    } else {
        lemma_digits_grow(s, n + 1);
        let longer = s.subrange(0, n + 1);
        assert(longer.drop_last() =~= s.subrange(0, n));
        assert(is_digit(s[n]));
        assert(longer.last() == s[n]);
    }
}

proof fn lemma_digits_nonnegative(s: Seq<u8>)
    requires
        forall|i: int| 0 <= i < s.len() ==> is_digit(#[trigger] s[i]),
    ensures
        0 <= digits_value(s),
    decreases s.len(),
{
    if s.len() > 0 {
        lemma_digits_nonnegative(s.drop_last());
        assert(is_digit(s[s.len() - 1]));
    }
}

/// Reads a 32-bit integer: an optional `+` or `-`, then decimal digits.
pub fn parse_i32(text: &[u8]) -> (r: Option<i32>)
    ensures
        r == parsed_i32(text@),
{
    let len: usize = text.len();
    if len == 0 {
        return None;
    }
    let negative: bool = text[0] == 45;
    let start: usize = if text[0] == 43 || text[0] == 45 {
        1
    } else {
        0
    };
    let ghost body = unsigned_part(text@);
    assert(body =~= text@.subrange(start as int, len as int));
    if start == len {
        return None;
    }
    let mut acc: i64 = 0;
    let mut i: usize = start;
    while i < len
        invariant
            start <= i <= len,
            len == text@.len(),
            body == unsigned_part(text@),
            body == text@.subrange(start as int, len as int),
            forall|k: int| 0 <= k < i - start ==> is_digit(#[trigger] body[k]),
            acc == digits_value(body.subrange(0, i - start)),
            0 <= acc <= 0x8000_0000,
        decreases len - i,
    {
        let b: u8 = text[i];
        if b < 48 || b > 57 {
            assert(!is_digit(body[i - start]));
            return None;
        }
        let ghost shorter = body.subrange(0, i - start);
        let ghost longer = body.subrange(0, i - start + 1);
        assert(longer.drop_last() =~= shorter);
        assert(longer.last() == b);
        acc = acc * 10 + (b - 48) as i64;
        i += 1;
        if acc > 0x8000_0000 {
            proof {
                if is_number(text@) {
                    lemma_digits_grow(body, i - start);
                }
            }
            return None;
        }
    }
    assert(body.subrange(0, len - start) =~= body);
    if negative {
        Some((-acc) as i32)
    } else if acc == 0x8000_0000 {
        None
    } else {
        Some(acc as i32)
    }
}

/// Index just past the field that starts at `from`.
fn scan_field(text: &[u8], from: usize) -> (end: usize)
    requires
        from <= text@.len(),
    ensures
        end == field_end(text@, from as int),
        from <= end <= text@.len(),
{
    let len: usize = text.len();
    let mut end: usize = from;
    while end < len && text[end] != SEPARATOR
        invariant
            from <= end <= len,
            len == text@.len(),
            field_end(text@, from as int) == field_end(text@, end as int),
        decreases len - end,
    {
        end += 1;
    }
    proof {
        lemma_field_end_bounds(text@, from as int);
    }
    end
}

/// The 0-based index written in `text[from..to]`.
fn read_index(text: &[u8], from: usize, to: usize) -> (r: i32)
    requires
        from <= to <= text@.len(),
    ensures
        r == field_index(text@.subrange(from as int, to as int)),
{
    match parse_i32(vstd::slice::slice_subrange(text, from, to)) {
        Some(v) => if v == i32::MIN {
            -1
        } else {
            v - 1
        },
        None => -1,
    }
}

/// Reads one corner of a face record, `v/vt/vn`, into 0-based indices.
/// `None` when fewer than three fields are there; what follows a third
/// separator is not looked at.
pub fn face_corner(token: &[u8]) -> (r: Option<Vec3i>)
    ensures
        r == parsed_corner(token@),
{
    let len: usize = token.len();
    let e0: usize = scan_field(token, 0);
    if e0 >= len {
        return None;
    }
    let e1: usize = scan_field(token, e0 + 1);
    if e1 >= len {
        return None;
    }
    let e2: usize = scan_field(token, e1 + 1);
    Some(
        Vec3::new(
            read_index(token, 0, e0),
            read_index(token, e0 + 1, e1),
            read_index(token, e1 + 1, e2),
        ),
    )
}

} // verus!
