//! Where the parts of a compact font lie.
use vstd::prelude::*;
use crate::compact_numbers::{read_real, real_at};

verus! {

/// The number in `n` bytes, the high one first.
pub open spec fn number_at(d: Seq<u8>, p: int, n: nat) -> nat
    decreases n,
{
    if n == 0 {
        0
    } else {
        number_at(d, p, (n - 1) as nat) * 256 + d[p + n - 1] as nat
    }
}

/// Reads a number of up to four bytes, the high one first.
pub fn read_number(data: &[u8], p: usize, n: usize) -> (r: usize)
    requires
        n <= 4,
        p + n <= data@.len(),
    ensures
        r == number_at(data@, p as int, n as nat),
        n == 1 ==> r < 0x100,
        n == 2 ==> r < 0x1_0000,
        n == 3 ==> r < 0x100_0000,
        r <= 0xFFFF_FFFF,
{
    let total: usize = data.len();
    let mut i: usize = 0;
    let mut v: u64 = 0;
    while i < n
        invariant
            i <= n <= 4,
            p + n <= total == data@.len(),
            v == number_at(data@, p as int, i as nat),
            i == 0 ==> v == 0,
            i == 1 ==> v < 0x100,
            i == 2 ==> v < 0x1_0000,
            i == 3 ==> v < 0x100_0000,
            i == 4 ==> v < 0x1_0000_0000,
        decreases n - i,
    {
        v = v * 256 + data[p + i] as u64;
        i += 1;
    }
    v as usize
}

/// An index at `p`: how many items it has, the size of their offsets, where the first byte of the
/// items stands and where the index ends. `None` where it does not lie in the data.
pub open spec fn index_at(d: Seq<u8>, p: int) -> Option<(int, int, int, int)> {
    if p < 0 || p + 2 > d.len() {
        None
    } else {
        let count = number_at(d, p, 2) as int;
        if count == 0 {
            Some((0, 1, p + 2, p + 2))
        } else if p + 3 > d.len() || d[p + 2] == 0 || d[p + 2] > 4 {
            None
        } else {
            let size = d[p + 2] as int;
            let start = p + 3 + (count + 1) * size;
            if start > d.len() {
                None
            } else {
                let last = number_at(d, start - size, size as nat) as int;
                let end = if last == 0 {
                    start
                } else {
                    start + last - 1
                };
                if end > d.len() {
                    None
                } else {
                    Some((count, size, start, end))
                }
            }
        }
    }
}

/// Finds an index at `p`.
fn read_index(data: &[u8], p: usize) -> (r: Option<(usize, usize, usize, usize)>)
    ensures
        match (index_at(data@, p as int), r) {
            (Some((count, size, start, end)), Some((c, z, s, e))) => count == c && size == z
                && start == s && end == e && c <= 0xFFFF && 1 <= z <= 4 && s <= e <= data@.len()
                && (c > 0 ==> p + 3 + (c + 1) * z == s),
            (None, None) => true,
            _ => false,
        },
{
    let total: usize = data.len();
    if total < 2 || p > total - 2 {
        return None;
    }
    let count: usize = read_number(data, p, 2);
    if count == 0 {
        return Some((0, 1, p + 2, p + 2));
    }
    if total - p < 3 || data[p + 2] == 0 || data[p + 2] > 4 {
        return None;
    }
    let size: usize = data[p + 2] as usize;
    assert(0 <= (count + 1) * size <= 0x1_0000 * 4) by (nonlinear_arith)
        requires
            0 <= count <= 0xFFFF,
            1 <= size <= 4,
    ;
    let length: usize = (count + 1) * size;
    if total - p - 3 < length {
        return None;
    }
    let start: usize = p + 3 + length;
    assert(length >= size) by (nonlinear_arith)
        requires
            length == (count + 1) * size,
            count >= 0,
            size >= 1,
    ;
    let last: usize = read_number(data, start - size, size);
    if last == 0 {
        return Some((count, size, start, start));
    }
    if last - 1 > total - start {
        return None;
    }
    Some((count, size, start, start + (last - 1)))
}

/// Where the first item of an index at `p` lies.
pub open spec fn first_item(d: Seq<u8>, p: int) -> Option<(int, int)> {
    match index_at(d, p) {
        None => None,
        Some((count, size, start, end)) => if count == 0 {
            None
        } else {
            let a = number_at(d, p + 3, size as nat) as int;
            let b = number_at(d, p + 3 + size, size as nat) as int;
            if a == 0 || a > b || start + b - 1 > end {
                None
            } else {
                Some((start + (a - 1), start + (b - 1)))
            }
        },
    }
}

/// Finds the first item of an index at `p`.
fn read_first(data: &[u8], p: usize) -> (r: Option<(usize, usize)>)
    ensures
        match (first_item(data@, p as int), r) {
            (Some((a, b)), Some((x, y))) => a == x && b == y && x <= y <= data@.len(),
            (None, None) => true,
            _ => false,
        },
{
    let total: usize = data.len();
    match read_index(data, p) {
        None => None,
        Some((count, size, start, end)) => {
            if count == 0 {
                return None;
            }
            assert((count + 1) * size >= 2 * size) by (nonlinear_arith)
                requires
                    count >= 1,
                    size >= 1,
            ;
            let a: usize = read_number(data, p + 3, size);
            let b: usize = read_number(data, p + 3 + size, size);
            if a == 0 || a > b || b - 1 > end - start {
                None
            } else {
                Some((start + (a - 1), start + (b - 1)))
            }
        },
    }
}

/// The operands before an operator: how many there are, of more than two that there are three,
/// the first two without what is behind their points, and whether one of them is no number.
#[derive(Debug, Clone, Copy)]
pub struct Operands {
    pub count: u8,
    pub first: i64,
    pub second: i64,
    pub wrong: bool,
}

/// No operands.
pub open spec fn no_operands() -> Operands {
    Operands { count: 0, first: 0, second: 0, wrong: false }
}

/// One more operand.
pub open spec fn with_operand(ops: Operands, value: int) -> Operands {
    if ops.count == 0 {
        Operands { count: 1, first: value as i64, ..ops }
    } else if ops.count == 1 {
        Operands { count: 2, second: value as i64, ..ops }
    } else {
        Operands { count: 3, ..ops }
    }
}

/// What a dictionary of a compact font says of the places of other parts.
#[derive(Debug, Clone, Copy)]
pub struct CompactDict {
    /// Where the outlines of the glyphs are.
    pub glyphs: Option<usize>,
    /// Where the private dictionary starts and how long it is.
    pub private: Option<(usize, usize)>,
    /// Whether characters have identifiers.
    pub keyed: bool,
    /// Where the dictionaries of the parts of the font are.
    pub fonts: Option<usize>,
    /// Where the local routines are, from the start of the private dictionary.
    pub routines: Option<usize>,
}

/// A dictionary that says nothing.
pub open spec fn empty_dict() -> CompactDict {
    CompactDict {
        glyphs: None,
        private: None,
        keyed: false,
        fonts: None,
        routines: None,
    }
}

/// The place that operands give: there has to be one.
pub open spec fn place_of(ops: Operands) -> Option<usize> {
    if !ops.wrong && ops.count == 1 && ops.first >= 0 {
        Some(ops.first as usize)
    } else {
        None
    }
}

/// The place and the length that operands give: there have to be two, the length first.
pub open spec fn range_of(ops: Operands) -> Option<(usize, usize)> {
    if !ops.wrong && ops.count == 2 && ops.first >= 0 && ops.second >= 0 {
        Some((ops.second as usize, ops.first as usize))
    } else {
        None
    }
}

/// What an operator adds to a dictionary. Operators of two bytes are counted from 1200 on.
pub open spec fn with_operator(op: int, ops: Operands, dict: CompactDict) -> CompactDict {
    if op == 17 {
        CompactDict { glyphs: place_of(ops), ..dict }
    } else if op == 18 {
        CompactDict { private: range_of(ops), ..dict }
    } else if op == 19 {
        CompactDict { routines: place_of(ops), ..dict }
    } else if op == 1230 {
        CompactDict { keyed: true, ..dict }
    } else if op == 1236 {
        CompactDict { fonts: place_of(ops), ..dict }
    } else {
        dict
    }
}

/// Bytes that are operators and no numbers.
pub open spec fn is_operator(b: u8) -> bool {
    b <= 27 || b == 31 || b == 255
}

/// Where a fraction ends whose digits start at `p`.
pub open spec fn fraction_end(d: Seq<u8>, p: int, end: int) -> int
    decreases end - p,
{
    if p >= end {
        end
    } else if d[p] / 16 == 15 || d[p] % 16 == 15 {
        p + 1
    } else {
        fraction_end(d, p + 1, end)
    }
}

/// A number with its sign: the upper half of `2 * half` numbers stands for the negative ones.
pub open spec fn with_sign(v: int, half: int) -> int {
    if v >= half {
        v - 2 * half
    } else {
        v
    }
}

/// How many bytes a number takes that starts with some byte, and its value. A fraction is none.
pub open spec fn operand_at(d: Seq<u8>, p: int) -> (int, int) {
    let b = d[p] as int;
    if b == 28 {
        (3, with_sign(number_at(d, p + 1, 2) as int, 0x8000))
    } else if b == 29 {
        (5, with_sign(number_at(d, p + 1, 4) as int, 0x8000_0000))
    } else if b <= 246 {
        (1, b - 139)
    } else if b <= 250 {
        (2, (b - 247) * 256 + d[p + 1] + 108)
    } else {
        (2, -(b - 251) * 256 - d[p + 1] - 108)
    }
}

/// What the entries from `p` on add to a dictionary that ends at `end`, behind some operands.
pub open spec fn dict_from(d: Seq<u8>, p: int, end: int, ops: Operands, dict: CompactDict) -> CompactDict
    decreases end - p,
    via dict_from_decreases
{
    if p >= end {
        dict
    } else {
        let b = d[p];
        if b == 12 {
            if p + 2 > end {
                dict
            } else {
                let more = with_operator(1200 + d[p + 1], ops, dict);
                dict_from(d, p + 2, end, no_operands(), more)
            }
        } else if is_operator(b) {
            dict_from(d, p + 1, end, no_operands(), with_operator(b as int, ops, dict))
        } else if b == 30 {
            let more = match real_at(d, p + 1, end) {
                Some(value) => with_operand(ops, value),
                None => Operands { wrong: true, ..ops },
            };
            dict_from(d, fraction_end(d, p + 1, end), end, more, dict)
        } else {
            let (length, value) = operand_at(d, p);
            if p + length > end {
                dict
            } else {
                dict_from(d, p + length, end, with_operand(ops, value), dict)
            }
        }
    }
}

#[via_fn]
proof fn dict_from_decreases(d: Seq<u8>, p: int, end: int, ops: Operands, dict: CompactDict) {
    if p < end {
        fraction_end_bounds(d, p + 1, end);
    }
}

proof fn fraction_end_bounds(d: Seq<u8>, p: int, end: int)
    requires
        p <= end,
    ensures
        p <= fraction_end(d, p, end) <= end,
    decreases end - p,
{
    if p < end {
        fraction_end_bounds(d, p + 1, end);
    }
}

fn find_fraction_end(data: &[u8], from: usize, end: usize) -> (r: usize)
    requires
        from <= end <= data@.len(),
    ensures
        r == fraction_end(data@, from as int, end as int),
        from <= r <= end,
{
    let mut p: usize = from;
    while p < end
        invariant
            from <= p <= end <= data@.len(),
            fraction_end(data@, from as int, end as int) == fraction_end(
                data@,
                p as int,
                end as int,
            ),
        decreases end - p,
    {
        if data[p] / 16 == 15 || data[p] % 16 == 15 {
            return p + 1;
        }
        p += 1;
    }
    p
}

fn add_operand(ops: Operands, value: i64) -> (r: Operands)
    ensures
        r == with_operand(ops, value as int),
{
    if ops.count == 0 {
        Operands { count: 1, first: value, ..ops }
    } else if ops.count == 1 {
        Operands { count: 2, second: value, ..ops }
    } else {
        Operands { count: 3, ..ops }
    }
}

fn read_place(ops: Operands) -> (r: Option<usize>)
    ensures
        r == place_of(ops),
{
    if !ops.wrong && ops.count == 1 && ops.first >= 0 {
        Some(ops.first as usize)
    } else {
        None
    }
}

fn read_range(ops: Operands) -> (r: Option<(usize, usize)>)
    ensures
        r == range_of(ops),
{
    if !ops.wrong && ops.count == 2 && ops.first >= 0 && ops.second >= 0 {
        Some((ops.second as usize, ops.first as usize))
    } else {
        None
    }
}

fn add_operator(op: u32, ops: Operands, dict: CompactDict) -> (r: CompactDict)
    ensures
        r == with_operator(op as int, ops, dict),
{
    if op == 17 {
        CompactDict { glyphs: read_place(ops), ..dict }
    } else if op == 18 {
        CompactDict { private: read_range(ops), ..dict }
    } else if op == 19 {
        CompactDict { routines: read_place(ops), ..dict }
    } else if op == 1230 {
        CompactDict { keyed: true, ..dict }
    } else if op == 1236 {
        CompactDict { fonts: read_place(ops), ..dict }
    } else {
        dict
    }
}

fn read_operand(data: &[u8], p: usize, end: usize) -> (r: Option<(usize, i64)>)
    requires
        p < end <= data@.len(),
        data@[p as int] >= 28,
        data@[p as int] != 30,
    ensures
        match r {
            Some((length, value)) => (length as int, value as int) == operand_at(data@, p as int)
                && 1 <= length && p + length <= end,
            None => p + operand_at(data@, p as int).0 > end,
        },
{
    let b: u8 = data[p];
    if b == 28 {
        if end - p < 3 {
            return None;
        }
        let v: usize = read_number(data, p + 1, 2);
        let value: i64 = if v >= 0x8000 {
            v as i64 - 0x1_0000
        } else {
            v as i64
        };
        Some((3, value))
    } else if b == 29 {
        if end - p < 5 {
            return None;
        }
        let v: usize = read_number(data, p + 1, 4);
        let value: i64 = if v >= 0x8000_0000 {
            v as i64 - 0x1_0000_0000
        } else {
            v as i64
        };
        Some((5, value))
    } else if b <= 246 {
        Some((1, b as i64 - 139))
    } else {
        if end - p < 2 {
            return None;
        }
        let low: i64 = data[p + 1] as i64;
        if b <= 250 {
            Some((2, (b as i64 - 247) * 256 + low + 108))
        } else {
            Some((2, -(b as i64 - 251) * 256 - low - 108))
        }
    }
}

fn read_dict(data: &[u8], from: usize, end: usize) -> (r: CompactDict)
    requires
        from <= end <= data@.len(),
    ensures
        r == dict_from(data@, from as int, end as int, no_operands(), empty_dict()),
{
    let mut p: usize = from;
    let mut ops = Operands { count: 0, first: 0, second: 0, wrong: false };
    let mut dict = CompactDict {
        glyphs: None,
        private: None,
        keyed: false,
        fonts: None,
        routines: None,
    };
    while p < end
        invariant
            from <= p <= end <= data@.len(),
            dict_from(data@, from as int, end as int, no_operands(), empty_dict()) == dict_from(
                data@,
                p as int,
                end as int,
                ops,
                dict,
            ),
        decreases end - p,
    {
        let b: u8 = data[p];
        if b == 12 {
            if end - p < 2 {
                return dict;
            }
            dict = add_operator(1200 + data[p + 1] as u32, ops, dict);
            ops = Operands { count: 0, first: 0, second: 0, wrong: false };
            p += 2;
        } else if b <= 27 || b == 31 || b == 255 {
            dict = add_operator(b as u32, ops, dict);
            ops = Operands { count: 0, first: 0, second: 0, wrong: false };
            p += 1;
        } else if b == 30 {
            ops = match read_real(data, p + 1, end) {
                Some(value) => add_operand(ops, value),
                None => Operands { wrong: true, ..ops },
            };
            p = find_fraction_end(data, p + 1, end);
        } else {
            match read_operand(data, p, end) {
                None => {
                    return dict;
                },
                Some((length, value)) => {
                    ops = add_operand(ops, value);
                    p += length;
                },
            }
        }
    }
    dict
}

/// Where an index at `p` ends.
pub open spec fn index_end(d: Seq<u8>, p: int) -> Option<int> {
    match index_at(d, p) {
        Some((_, _, _, end)) => Some(end),
        None => None,
    }
}

/// Finds where an index at `p` ends.
fn find_index_end(data: &[u8], p: usize) -> (r: Option<usize>)
    ensures
        match (index_end(data@, p as int), r) {
            (Some(end), Some(e)) => end == e && e <= data@.len(),
            (None, None) => true,
            _ => false,
        },
{
    match read_index(data, p) {
        Some((_, _, _, end)) => Some(end),
        None => None,
    }
}

/// The parts of a font that its top dictionary leads to lie in it.
pub open spec fn parts_inside(d: Seq<u8>, top: CompactDict) -> bool {
    &&& match top.glyphs {
        Some(p) => p > 0 && index_end(d, p as int) is Some,
        None => false,
    }
    &&& if top.keyed {
        match top.fonts {
            Some(p) => index_end(d, p as int) is Some,
            None => false,
        }
    } else {
        match top.private {
            None => true,
            Some((start, length)) => {
                let private = dict_from(
                    d,
                    start as int,
                    start + length,
                    no_operands(),
                    empty_dict(),
                );
                &&& start + length <= d.len()
                &&& match private.routines {
                    Some(p) => index_end(d, start + p) is Some,
                    None => true,
                }
            },
        }
    }
}

/// Every index of a compact font lies in it: the names, the top dictionaries, the strings and the
/// routines, one behind the other, and those that the first top dictionary leads to.
pub open spec fn compact_inside(d: Seq<u8>) -> bool {
    if !(4 <= d.len() <= 0x7FFF_FFFF) || d[0] != 1 {
        false
    } else {
        let names = if d[2] > 4 {
            d[2] as int
        } else {
            4
        };
        match index_end(d, names) {
            None => false,
            Some(tops) => match (first_item(d, tops), index_end(d, tops)) {
                (Some((start, end)), Some(strings)) => match index_end(d, strings) {
                    None => false,
                    Some(routines) => {
                        &&& index_end(d, routines) is Some
                        &&& parts_inside(
                            d,
                            dict_from(d, start, end, no_operands(), empty_dict()),
                        )
                    },
                },
                _ => false,
            },
        }
    }
}

fn are_parts_inside(data: &[u8], top: CompactDict) -> (r: bool)
    ensures
        r == parts_inside(data@, top),
{
    let total: usize = data.len();
    match top.glyphs {
        Some(p) => {
            if p == 0 || find_index_end(data, p).is_none() {
                return false;
            }
        },
        None => {
            return false;
        },
    }
    if top.keyed {
        return match top.fonts {
            Some(p) => find_index_end(data, p).is_some(),
            None => false,
        };
    }
    match top.private {
        None => true,
        Some((start, length)) => {
            if start > total || length > total - start {
                return false;
            }
            let private = read_dict(data, start, start + length);
            match private.routines {
                Some(p) => {
                    if p > total - start {
                        return false;
                    }
                    find_index_end(data, start + p).is_some()
                },
                None => true,
            }
        },
    }
}

/// Decides whether every index of a compact font lies in it.
pub fn is_compact_inside(data: &[u8]) -> (r: bool)
    ensures
        r == compact_inside(data@),
{
    if !(4 <= data.len() && data.len() <= 0x7FFF_FFFF) || data[0] != 1 {
        return false;
    }
    let names: usize = if data[2] > 4 {
        data[2] as usize
    } else {
        4
    };
    let tops: usize = match find_index_end(data, names) {
        None => {
            return false;
        },
        Some(p) => p,
    };
    match (read_first(data, tops), find_index_end(data, tops)) {
        (Some((start, end)), Some(strings)) => match find_index_end(data, strings) {
            None => false,
            Some(routines) => find_index_end(data, routines).is_some() && are_parts_inside(
                data,
                read_dict(data, start, end),
            ),
        },
        _ => false,
    }
}

} // verus!
