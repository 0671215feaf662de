//! The tables of a font file.
use vstd::prelude::*;
use vstd::slice::slice_subrange;
use crate::compact::{number_at, read_number};

verus! {

/// The first word of a collection of fonts.
pub const COLLECTION: usize = 0x7474_6366;

/// The names of the tables that are read here, as numbers.
pub const TABLE_HEAD: u32 = 0x6865_6164;

pub const TABLE_HHEA: u32 = 0x6868_6561;

pub const TABLE_MAXP: u32 = 0x6D61_7870;

pub const TABLE_CMAP: u32 = 0x636D_6170;

pub const TABLE_OS2: u32 = 0x4F53_2F32;

pub const TABLE_POST: u32 = 0x706F_7374;

/// The first word of a face, which is no collection.
pub open spec fn face_word(n: int) -> bool {
    n == 0x0001_0000 || n == 0x7472_7565 || n == 0x4F54_544F
}

/// A file whose places fit into four bytes, and that holds the places of all its faces where it
/// is a collection.
pub open spec fn faces_inside(d: Seq<u8>) -> bool {
    &&& d.len() <= 0x7FFF_FFFF
    &&& d.len() >= 12 && number_at(d, 0, 4) == COLLECTION ==> 12 + 4 * number_at(d, 8, 4)
        <= d.len()
}

/// Decides whether a file holds the places of all its faces.
pub fn are_faces_inside(data: &[u8]) -> (r: bool)
    ensures
        r == faces_inside(data@),
{
    let total: usize = data.len();
    if total > 0x7FFF_FFFF {
        return false;
    }
    if total >= 12 && read_number(data, 0, 4) == COLLECTION {
        let count: usize = read_number(data, 8, 4);
        if count > (total - 12) / 4 {
            return false;
        }
    }
    true
}

/// Where the face `index` starts: in a collection, at the place that it gives, behind all the
/// places; elsewhere the only face is the whole file.
pub open spec fn face_at(d: Seq<u8>, index: u32) -> Option<int> {
    if d.len() < 4 {
        None
    } else if number_at(d, 0, 4) == COLLECTION {
        let behind = 12 + 4 * number_at(d, 8, 4);
        let at = number_at(d, 12 + 4 * index, 4) as int;
        if d.len() >= 12 && index < number_at(d, 8, 4) && behind <= at && at + 4 <= d.len()
            && face_word(number_at(d, at, 4) as int) {
            Some(at)
        } else {
            None
        }
    } else if face_word(number_at(d, 0, 4) as int) && index == 0 {
        Some(0)
    } else {
        None
    }
}

/// The name, the place and the length of the table `i` of the face `index`. The list of tables
/// has to lie in the file.
pub open spec fn record_at(d: Seq<u8>, index: u32, i: u16) -> Option<(u32, u32, u32)> {
    match face_at(d, index) {
        None => None,
        Some(at) => {
            let count = number_at(d, at + 4, 2);
            let p = at + 12 + 16 * i;
            if at + 12 <= d.len() && at + 12 + 16 * count <= d.len() && i < count {
                Some(
                    (
                        number_at(d, p, 4) as u32,
                        number_at(d, p + 8, 4) as u32,
                        number_at(d, p + 12, 4) as u32,
                    ),
                )
            } else {
                None
            }
        },
    }
}

/// Calls `ttf_parser::RawFace::parse`, and `ttf_parser::LazyArray16::get` on the records that it
/// gives. Claims that the records are read as the format has them: for the face at its place in a
/// collection, for the whole file elsewhere, and only where the list of them lies in the file.
#[verifier::external_body]
fn face_record(data: &[u8], index: u32, i: u16) -> (r: Option<(u32, u32, u32)>)
    requires
        faces_inside(data@),
    ensures
        r == record_at(data@, index, i),
{
    let face = ttf_parser::RawFace::parse(data, index).ok()?;
    face.table_records.get(i).map(|record| (record.tag.0, record.offset, record.length))
}

/// Where a table stands, as the last record from `i` on with its name says; `found` is what the
/// records before say. Nothing is found where the table does not lie in the file.
pub open spec fn table_from(
    d: Seq<u8>,
    index: u32,
    tag: u32,
    i: int,
    found: Option<(int, int)>,
) -> Option<(int, int)>
    decreases 0x1_0000 - i,
{
    if i < 0 || i > 0xFFFF {
        found
    } else {
        match record_at(d, index, i as u16) {
            None => found,
            Some((name, place, length)) => {
                let next = if name != tag {
                    found
                } else if place + length <= d.len() {
                    Some((place as int, place + length))
                } else {
                    None
                };
                table_from(d, index, tag, i + 1, next)
            },
        }
    }
}

/// The bytes of a table of a face; a missing table has none.
pub open spec fn table_of(d: Seq<u8>, index: u32, tag: u32) -> Seq<u8> {
    match table_from(d, index, tag, 0, None) {
        Some((start, end)) => d.subrange(start, end),
        None => Seq::empty(),
    }
}

/// The bytes of a table of a face.
pub(crate) fn find_table(data: &[u8], index: u32, tag: u32) -> (r: &[u8])
    requires
        faces_inside(data@),
    ensures
        r@ == table_of(data@, index, tag),
{
    let total: usize = data.len();
    let mut i: u32 = 0;
    let mut start: usize = 0;
    let mut end: usize = 0;
    let mut is_found: bool = false;
    let ghost goal = table_from(data@, index, tag, 0, None);
    while i <= 0xFFFF
        invariant
            i <= 0x1_0000,
            total == data@.len(),
            faces_inside(data@),
            start <= end <= total,
            !is_found ==> start == end,
            goal == table_from(data@, index, tag, 0, None),
            goal == table_from(
                data@,
                index,
                tag,
                i as int,
                if is_found {
                    Some((start as int, end as int))
                } else {
                    None
                },
            ),
        decreases 0x1_0000 - i,
    {
        match face_record(data, index, i as u16) {
            None => {
                let r = slice_subrange(data, start, end);
                proof {
                    assert(!is_found ==> r@ =~= Seq::empty());
                }
                return r;
            },
            Some((name, place, length)) => {
                if name == tag {
                    let from: usize = place as usize;
                    let size: usize = length as usize;
                    is_found = from <= total && size <= total - from;
                    if is_found {
                        start = from;
                        end = from + size;
                    } else {
                        end = start;
                    }
                }
            },
        }
        i += 1;
    }
    let r = slice_subrange(data, start, end);
    proof {
        assert(!is_found ==> r@ =~= Seq::empty());
    }
    r
}

/// A character map at `p` whose groups, if it has any, end at a place that fits into four bytes.
pub open spec fn groups_fit(d: Seq<u8>, p: int) -> bool {
    let format = number_at(d, p, 2);
    let limit: int = 0xFFFF_FFFF;
    &&& format == 10 && p + 20 <= d.len() ==> 20 + 2 * number_at(d, p + 16, 4) <= limit
    &&& (format == 12 || format == 13) && p + 16 <= d.len() ==> 16 + 12 * number_at(d, p + 12, 4)
        <= limit
    &&& format == 14 && p + 10 <= d.len() ==> 10 + 11 * number_at(d, p + 6, 4) <= limit
}

/// The groups of the character map `i` of a table end at places that fit into four bytes, where
/// the table holds the places of its maps and has such a map. A map that does not fit cannot be
/// read.
pub open spec fn map_fits(d: Seq<u8>, i: int) -> bool {
    let p = number_at(d, 8 + 8 * i, 4) as int;
    d.len() <= 0x7FFF_FFFF && (d.len() < 4 || 4 + 8 * number_at(d, 2, 2) > d.len() || i >= number_at(
        d,
        2,
        2,
    ) || p + 2 > d.len() || groups_fit(d, p))
}

fn do_groups_fit(data: &[u8], p: usize) -> (r: bool)
    requires
        p + 2 <= data@.len(),
    ensures
        r == groups_fit(data@, p as int),
{
    let total: usize = data.len();
    let format: usize = read_number(data, p, 2);
    if format == 10 && total - p >= 20 {
        return read_number(data, p + 16, 4) as u64 * 2 + 20 <= 0xFFFF_FFFF;
    }
    if (format == 12 || format == 13) && total - p >= 16 {
        return read_number(data, p + 12, 4) as u64 * 12 + 16 <= 0xFFFF_FFFF;
    }
    if format == 14 && total - p >= 10 {
        return read_number(data, p + 6, 4) as u64 * 11 + 10 <= 0xFFFF_FFFF;
    }
    true
}

/// Decides whether the groups of a character map end at places that fit into four bytes.
pub(crate) fn does_map_fit(data: &[u8], i: u16) -> (r: bool)
    ensures
        r == map_fits(data@, i as int),
{
    let total: usize = data.len();
    if total > 0x7FFF_FFFF {
        return false;
    }
    if total < 4 {
        return true;
    }
    let count: usize = read_number(data, 2, 2);
    if 4 + 8 * count > total || i as usize >= count {
        return true;
    }
    let p: usize = read_number(data, 8 + 8 * (i as usize), 4);
    p > total - 2 || do_groups_fit(data, p)
}

} // verus!
