//! Glyphs in font programs, by way of `ttf_parser`.
use std::collections::BTreeMap;
use vstd::prelude::*;
use crate::compact::{compact_inside, is_compact_inside};
use crate::face_tables::{are_faces_inside, does_map_fit, faces_inside, find_table, map_fits, table_of, TABLE_CMAP, TABLE_HEAD, TABLE_HHEA, TABLE_MAXP, TABLE_OS2, TABLE_POST};
use crate::table::{empty_table, put};

verus! {

/// Whom the codes of a character map come from.
#[derive(Debug, Clone, Copy, PartialEq, Eq, Structural)]
pub enum FontPlatform {
    Unicode,
    Macintosh,
    Iso,
    Windows,
    Custom,
}

/// Whether the character map `i` of a face with these tables is one of Unicode.
pub uninterp spec fn tables_unicode_of(
    head: Seq<u8>,
    hhea: Seq<u8>,
    maxp: Seq<u8>,
    cmap: Seq<u8>,
    i: u16,
) -> Option<bool>;

/// Calls `ttf_parser::cmap::Subtable::is_unicode` on the map `i` of the face that
/// `ttf_parser::Face::from_raw_tables` gives. Claims only that the result is fixed by the tables
/// and the index; there is none where the tables make no face or the map cannot be read.
#[verifier::external_body]
fn tables_unicode(head: &[u8], hhea: &[u8], maxp: &[u8], cmap: &[u8], i: u16) -> (r: Option<bool>)
    requires
        map_fits(cmap@, i as int),
    ensures
        r == tables_unicode_of(head@, hhea@, maxp@, cmap@, i),
{
    let cmap = Some(cmap);
    let tables = ttf_parser::RawFaceTables { head, hhea, maxp, cmap, ..Default::default() };
    let face = ttf_parser::Face::from_raw_tables(tables).ok()?;
    Some(face.tables().cmap?.subtables.get(i)?.is_unicode())
}

/// The platform of the character map `i` of a face with these tables.
pub uninterp spec fn tables_platform_of(
    head: Seq<u8>,
    hhea: Seq<u8>,
    maxp: Seq<u8>,
    cmap: Seq<u8>,
    i: u16,
) -> Option<FontPlatform>;

/// Calls `ttf_parser::cmap::Subtables::get` on the maps of the face that
/// `ttf_parser::Face::from_raw_tables` gives, and reads the platform of the map. Claims only that
/// the result is fixed by the tables and the index.
#[verifier::external_body]
fn tables_platform(head: &[u8], hhea: &[u8], maxp: &[u8], cmap: &[u8], i: u16) -> (r: Option<
    FontPlatform,
>)
    requires
        map_fits(cmap@, i as int),
    ensures
        r == tables_platform_of(head@, hhea@, maxp@, cmap@, i),
{
    let cmap = Some(cmap);
    let tables = ttf_parser::RawFaceTables { head, hhea, maxp, cmap, ..Default::default() };
    let face = ttf_parser::Face::from_raw_tables(tables).ok()?;
    Some(match face.tables().cmap?.subtables.get(i)?.platform_id {
        ttf_parser::PlatformId::Unicode => FontPlatform::Unicode,
        ttf_parser::PlatformId::Macintosh => FontPlatform::Macintosh,
        ttf_parser::PlatformId::Iso => FontPlatform::Iso,
        ttf_parser::PlatformId::Windows => FontPlatform::Windows,
        ttf_parser::PlatformId::Custom => FontPlatform::Custom,
    })
}

/// The glyph that the character map `i` of a face with these tables has for a code.
pub uninterp spec fn tables_code_of(
    head: Seq<u8>,
    hhea: Seq<u8>,
    maxp: Seq<u8>,
    cmap: Seq<u8>,
    i: u16,
    code: u32,
) -> Option<u16>;

/// Calls `ttf_parser::cmap::Subtable::glyph_index` on the map `i` of the face that
/// `ttf_parser::Face::from_raw_tables` gives. Claims only that the result is fixed by the tables,
/// the index and the code.
#[verifier::external_body]
fn tables_code(head: &[u8], hhea: &[u8], maxp: &[u8], cmap: &[u8], i: u16, code: u32) -> (r: Option<
    u16,
>)
    requires
        map_fits(cmap@, i as int),
    ensures
        r == tables_code_of(head@, hhea@, maxp@, cmap@, i, code),
{
    let cmap = Some(cmap);
    let tables = ttf_parser::RawFaceTables { head, hhea, maxp, cmap, ..Default::default() };
    let face = ttf_parser::Face::from_raw_tables(tables).ok()?;
    face.tables().cmap?.subtables.get(i)?.glyph_index(code).map(|g| g.0)
}

/// The glyph that the maps of Unicode from the `i`-th on have for a character: the first that is
/// found. A map that cannot be read ends the search.
pub open spec fn unicode_from(
    head: Seq<u8>,
    hhea: Seq<u8>,
    maxp: Seq<u8>,
    cmap: Seq<u8>,
    i: int,
    c: char,
) -> Option<u16>
    decreases 0x1_0000 - i,
{
    if i < 0 || i > 0xFFFF || !map_fits(cmap, i) {
        None
    } else {
        match tables_unicode_of(head, hhea, maxp, cmap, i as u16) {
            None => None,
            Some(u) => {
                let found = if u {
                    tables_code_of(head, hhea, maxp, cmap, i as u16, c as u32)
                } else {
                    None
                };
                if found is Some {
                    found
                } else {
                    unicode_from(head, hhea, maxp, cmap, i + 1, c)
                }
            },
        }
    }
}

/// The glyph that the face `index` of a font file has for a character. A file that does not hold
/// the places of its faces has none.
pub open spec fn face_glyph_of(data: Seq<u8>, index: u32, c: char) -> Option<u16> {
    if faces_inside(data) {
        unicode_from(
            table_of(data, index, TABLE_HEAD),
            table_of(data, index, TABLE_HHEA),
            table_of(data, index, TABLE_MAXP),
            table_of(data, index, TABLE_CMAP),
            0,
            c,
        )
    } else {
        None
    }
}

/// The glyph that the face `index` of a font file has for a character.
pub fn face_glyph(data: &[u8], index: u32, c: char) -> (r: Option<u16>)
    ensures
        r == face_glyph_of(data@, index, c),
{
    if !are_faces_inside(data) {
        return None;
    }
    let cmap = find_table(data, index, TABLE_CMAP);
    let head = find_table(data, index, TABLE_HEAD);
    let hhea = find_table(data, index, TABLE_HHEA);
    let maxp = find_table(data, index, TABLE_MAXP);
    let ghost goal = unicode_from(head@, hhea@, maxp@, cmap@, 0, c);
    let mut i: u32 = 0;
    while i <= 0xFFFF
        invariant
            i <= 0x1_0000,
            face_glyph_of(data@, index, c) == goal,
            goal == unicode_from(head@, hhea@, maxp@, cmap@, i as int, c),
        decreases 0x1_0000 - i,
    {
        if !does_map_fit(cmap, i as u16) {
            return None;
        }
        match tables_unicode(head, hhea, maxp, cmap, i as u16) {
            None => {
                return None;
            },
            Some(u) => {
                if u {
                    match tables_code(head, hhea, maxp, cmap, i as u16, c as u32) {
                        Some(g) => {
                            return Some(g);
                        },
                        None => {},
                    }
                }
            },
        }
        i += 1;
    }
    None
}

/// The glyph that a compact font has for a code, as its parser finds it.
pub uninterp spec fn compact_glyph_of(data: Seq<u8>, code: u8) -> Option<u16>;

/// Calls `ttf_parser::cff::Table::glyph_index` on what `ttf_parser::cff::Table::parse` gives.
/// Claims only that the result is fixed by the font and the code.
#[verifier::external_body]
fn compact_glyph(data: &[u8], code: u8) -> (r: Option<u16>)
    requires
        compact_inside(data@),
    ensures
        r == compact_glyph_of(data@, code),
{
    ttf_parser::cff::Table::parse(data).and_then(|table| table.glyph_index(code)).map(|g| g.0)
}

/// The glyph that a compact font has for a code. A font with a part outside itself has none.
pub open spec fn cff_glyph_of(data: Seq<u8>, code: u8) -> Option<u16> {
    if compact_inside(data) {
        compact_glyph_of(data, code)
    } else {
        None
    }
}

/// The glyph that a compact font has for a code.
pub fn cff_glyph(data: &[u8], code: u8) -> (r: Option<u16>)
    ensures
        r == cff_glyph_of(data@, code),
{
    if is_compact_inside(data) {
        compact_glyph(data, code)
    } else {
        None
    }
}

/// How many glyphs a compact font has, as its parser finds it.
pub uninterp spec fn compact_count_of(data: Seq<u8>) -> Option<u16>;

/// Calls `ttf_parser::cff::Table::number_of_glyphs` on what `ttf_parser::cff::Table::parse` gives.
/// Claims only that the result is fixed by the font; there is none where it is no compact font.
#[verifier::external_body]
fn compact_count(data: &[u8]) -> (r: Option<u16>)
    requires
        compact_inside(data@),
    ensures
        r == compact_count_of(data@),
{
    ttf_parser::cff::Table::parse(data).map(|table| table.number_of_glyphs())
}

/// The character identifier of a glyph of a compact font.
pub uninterp spec fn compact_cid_of(data: Seq<u8>, glyph: u16) -> Option<u16>;

/// Calls `ttf_parser::cff::Table::glyph_cid` on what `ttf_parser::cff::Table::parse` gives. Claims
/// only that the result is fixed by the font and the glyph.
#[verifier::external_body]
fn compact_cid(data: &[u8], glyph: u16) -> (r: Option<u16>)
    requires
        compact_inside(data@),
    ensures
        r == compact_cid_of(data@, glyph),
{
    ttf_parser::cff::Table::parse(data).and_then(|t| t.glyph_cid(ttf_parser::GlyphId(glyph)))
}

/// How many faces a collection of fonts has.
pub uninterp spec fn collection_size_of(data: Seq<u8>) -> Option<u32>;

/// Calls `ttf_parser::fonts_in_collection`. Claims only that the result is fixed by the file.
#[verifier::external_body]
pub(crate) fn collection_size(data: &[u8]) -> (r: Option<u32>)
    ensures
        r == collection_size_of(data@),
{
    ttf_parser::fonts_in_collection(data)
}

/// Whether a face with these tables is bold.
pub uninterp spec fn tables_bold_of(
    head: Seq<u8>,
    hhea: Seq<u8>,
    maxp: Seq<u8>,
    os2: Seq<u8>,
) -> Option<bool>;

/// Calls `ttf_parser::Face::is_bold` on the face that `ttf_parser::Face::from_raw_tables` gives.
/// Claims only that the result is fixed by the tables; there is none where they make no face.
#[verifier::external_body]
fn tables_bold(head: &[u8], hhea: &[u8], maxp: &[u8], os2: &[u8]) -> (r: Option<bool>)
    ensures
        r == tables_bold_of(head@, hhea@, maxp@, os2@),
{
    let os2 = Some(os2);
    let tables = ttf_parser::RawFaceTables { head, hhea, maxp, os2, ..Default::default() };
    ttf_parser::Face::from_raw_tables(tables).ok().map(|face| face.is_bold())
}

/// Whether a face with these tables is italic.
pub uninterp spec fn tables_italic_of(
    head: Seq<u8>,
    hhea: Seq<u8>,
    maxp: Seq<u8>,
    os2: Seq<u8>,
    post: Seq<u8>,
) -> Option<bool>;

/// Calls `ttf_parser::Face::is_italic` on the face that `ttf_parser::Face::from_raw_tables` gives.
/// Claims only that the result is fixed by the tables; there is none where they make no face.
#[verifier::external_body]
fn tables_italic(head: &[u8], hhea: &[u8], maxp: &[u8], os2: &[u8], post: &[u8]) -> (r: Option<
    bool,
>)
    ensures
        r == tables_italic_of(head@, hhea@, maxp@, os2@, post@),
{
    let (os2, post) = (Some(os2), Some(post));
    let tables = ttf_parser::RawFaceTables { head, hhea, maxp, os2, post, ..Default::default() };
    ttf_parser::Face::from_raw_tables(tables).ok().map(|face| face.is_italic())
}

/// Whether a face of a font file is bold. There is no face in a file that does not hold the places
/// of its faces.
pub open spec fn face_bold_of(data: Seq<u8>, index: u32) -> Option<bool> {
    if faces_inside(data) {
        tables_bold_of(
            table_of(data, index, TABLE_HEAD),
            table_of(data, index, TABLE_HHEA),
            table_of(data, index, TABLE_MAXP),
            table_of(data, index, TABLE_OS2),
        )
    } else {
        None
    }
}

/// Whether a face of a font file is bold.
pub fn face_bold(data: &[u8], index: u32) -> (r: Option<bool>)
    ensures
        r == face_bold_of(data@, index),
{
    if !are_faces_inside(data) {
        return None;
    }
    let head = find_table(data, index, TABLE_HEAD);
    let hhea = find_table(data, index, TABLE_HHEA);
    let maxp = find_table(data, index, TABLE_MAXP);
    tables_bold(head, hhea, maxp, find_table(data, index, TABLE_OS2))
}

/// Whether a face of a font file is italic. There is no face in a file that does not hold the
/// places of its faces.
pub open spec fn face_italic_of(data: Seq<u8>, index: u32) -> Option<bool> {
    if faces_inside(data) {
        tables_italic_of(
            table_of(data, index, TABLE_HEAD),
            table_of(data, index, TABLE_HHEA),
            table_of(data, index, TABLE_MAXP),
            table_of(data, index, TABLE_OS2),
            table_of(data, index, TABLE_POST),
        )
    } else {
        None
    }
}

/// Whether a face of a font file is italic.
pub fn face_italic(data: &[u8], index: u32) -> (r: Option<bool>)
    ensures
        r == face_italic_of(data@, index),
{
    if !are_faces_inside(data) {
        return None;
    }
    let head = find_table(data, index, TABLE_HEAD);
    let hhea = find_table(data, index, TABLE_HHEA);
    let maxp = find_table(data, index, TABLE_MAXP);
    let os2 = find_table(data, index, TABLE_OS2);
    tables_italic(head, hhea, maxp, os2, find_table(data, index, TABLE_POST))
}

/// The first character map from `i` on whose codes are those of the Macintosh. A map that cannot
/// be read ends the search.
pub open spec fn macintosh_from(
    head: Seq<u8>,
    hhea: Seq<u8>,
    maxp: Seq<u8>,
    cmap: Seq<u8>,
    i: int,
) -> Option<u16>
    decreases 0x1_0000 - i,
{
    if i < 0 || i > 0xFFFF || !map_fits(cmap, i) {
        None
    } else {
        match tables_platform_of(head, hhea, maxp, cmap, i as u16) {
            None => None,
            Some(p) => if p == FontPlatform::Macintosh {
                Some(i as u16)
            } else {
                macintosh_from(head, hhea, maxp, cmap, i + 1)
            },
        }
    }
}

/// The glyph that the map of the Macintosh of the first face has for a code. A file that does not
/// hold the places of its faces has none.
pub open spec fn macintosh_glyph_of(data: Seq<u8>, code: u32) -> Option<u16> {
    let head = table_of(data, 0, TABLE_HEAD);
    let hhea = table_of(data, 0, TABLE_HHEA);
    let maxp = table_of(data, 0, TABLE_MAXP);
    let cmap = table_of(data, 0, TABLE_CMAP);
    if !faces_inside(data) {
        None
    } else {
        match macintosh_from(head, hhea, maxp, cmap, 0) {
            Some(i) => tables_code_of(head, hhea, maxp, cmap, i, code),
            None => None,
        }
    }
}

/// The glyph that the map of the Macintosh has for a code.
pub fn macintosh_glyph(data: &[u8], code: u32) -> (r: Option<u16>)
    ensures
        r == macintosh_glyph_of(data@, code),
{
    if !are_faces_inside(data) {
        return None;
    }
    let cmap = find_table(data, 0, TABLE_CMAP);
    let head = find_table(data, 0, TABLE_HEAD);
    let hhea = find_table(data, 0, TABLE_HHEA);
    let maxp = find_table(data, 0, TABLE_MAXP);
    let mut i: u32 = 0;
    while i <= 0xFFFF
        invariant
            i <= 0x1_0000,
            macintosh_from(head@, hhea@, maxp@, cmap@, 0) == macintosh_from(
                head@,
                hhea@,
                maxp@,
                cmap@,
                i as int,
            ),
            faces_inside(data@),
            cmap@ == table_of(data@, 0, TABLE_CMAP),
            head@ == table_of(data@, 0, TABLE_HEAD),
            hhea@ == table_of(data@, 0, TABLE_HHEA),
            maxp@ == table_of(data@, 0, TABLE_MAXP),
        decreases 0x1_0000 - i,
    {
        if !does_map_fit(cmap, i as u16) {
            return None;
        }
        match tables_platform(head, hhea, maxp, cmap, i as u16) {
            None => {
                return None;
            },
            Some(p) => {
                if p == FontPlatform::Macintosh {
                    return tables_code(head, hhea, maxp, cmap, i as u16, code);
                }
            },
        }
        i += 1;
    }
    None
}

/// The glyph of a simple font: by the character where it is known and found, otherwise by the
/// code.
pub open spec fn simple_glyph_of(data: Seq<u8>, code: u8, unicode: Option<char>) -> Option<u16> {
    match unicode {
        Some(c) => match face_glyph_of(data, 0, c) {
            Some(g) => Some(g),
            None => macintosh_glyph_of(data, code as u32),
        },
        None => macintosh_glyph_of(data, code as u32),
    }
}

/// The glyph of a simple font.
pub fn simple_glyph(data: &[u8], code: u8, unicode: Option<char>) -> (r: Option<u16>)
    ensures
        r == simple_glyph_of(data@, code, unicode),
{
    match unicode {
        Some(c) => match face_glyph(data, 0, c) {
            Some(g) => Some(g),
            None => macintosh_glyph(data, code as u32),
        },
        None => macintosh_glyph(data, code as u32),
    }
}

/// The identifiers of the first `n` glyphs.
pub open spec fn cids_of(data: Seq<u8>, n: nat) -> Seq<Option<u16>> {
    Seq::new(n, |i: int| compact_cid_of(data, i as u16))
}

/// From identifiers to glyphs, over the first `n` glyphs; of two glyphs with one identifier the
/// later counts.
pub open spec fn by_cid(cids: Seq<Option<u16>>, n: nat) -> Map<u32, u16>
    decreases n,
{
    if n == 0 {
        Map::empty()
    } else {
        match cids[n - 1] {
            Some(cid) => by_cid(cids, (n - 1) as nat).insert(cid as u32, (n - 1) as u16),
            None => by_cid(cids, (n - 1) as nat),
        }
    }
}

/// From identifiers to glyphs.
pub fn invert_cids(cids: &[Option<u16>]) -> (map: BTreeMap<u32, u16>)
    requires
        cids@.len() <= 0x1_0000,
    ensures
        map@ == by_cid(cids@, cids@.len()),
{
    let mut map: BTreeMap<u32, u16> = empty_table();
    let mut i: usize = 0;
    while i < cids.len()
        invariant
            0 <= i <= cids@.len(),
            cids@.len() <= 0x1_0000,
            map@ == by_cid(cids@, i as nat),
        decreases cids@.len() - i,
    {
        match cids[i] {
            Some(cid) => {
                put(&mut map, cid as u32, i as u16);
            },
            None => {},
        }
        i += 1;
    }
    map
}

/// From identifiers to the glyphs of a compact font. A font with a part outside itself has none.
pub open spec fn cff_map_of(data: Seq<u8>) -> Option<Map<u32, u16>> {
    if !compact_inside(data) {
        None
    } else {
        match compact_count_of(data) {
            Some(n) => Some(by_cid(cids_of(data, n as nat), n as nat)),
            None => None,
        }
    }
}

/// From identifiers to the glyphs of a compact font.
pub fn cff_map(data: &[u8]) -> (r: Option<BTreeMap<u32, u16>>)
    ensures
        match r {
            Some(m) => cff_map_of(data@) == Some(m@),
            None => cff_map_of(data@) is None,
        },
{
    if !is_compact_inside(data) {
        return None;
    }
    let n: u16 = match compact_count(data) {
        Some(n) => n,
        None => {
            return None;
        },
    };
    let mut cids: Vec<Option<u16>> = Vec::new();
    let mut i: u16 = 0;
    while i < n
        invariant
            0 <= i <= n,
            compact_inside(data@),
            cids@.len() == i,
            forall|j: int| 0 <= j < i ==> #[trigger] cids@[j] == compact_cid_of(data@, j as u16),
        decreases n - i,
    {
        cids.push(compact_cid(data, i));
        i += 1;
    }
    assert(cids@ =~= cids_of(data@, n as nat));
    Some(invert_cids(cids.as_slice()))
}

/// A face is there and has a style.
pub open spec fn style_fits(is_bold: Option<bool>, is_italic: Option<bool>, bold: bool, italic: bool) -> bool {
    is_bold == Some(bold) && is_italic == Some(italic)
}

/// Whether a face is there and has a style.
pub fn fits_style(is_bold: Option<bool>, is_italic: Option<bool>, bold: bool, italic: bool) -> (r: bool)
    ensures
        r == style_fits(is_bold, is_italic, bold, italic),
{
    match (is_bold, is_italic) {
        (Some(b), Some(i)) => b == bold && i == italic,
        _ => false,
    }
}

/// The first face from `i` on with a style; the first of all where there is none.
pub open spec fn face_from(data: Seq<u8>, count: u32, i: int, bold: bool, italic: bool) -> u32
    decreases count - i,
{
    if i < 0 || i >= count {
        0
    } else if style_fits(face_bold_of(data, i as u32), face_italic_of(data, i as u32), bold, italic) {
        i as u32
    } else {
        face_from(data, count, i + 1, bold, italic)
    }
}

/// The face of a font file with a style. A file that is no collection has one face.
pub open spec fn face_for(data: Seq<u8>, bold: bool, italic: bool) -> u32 {
    let count = match collection_size_of(data) {
        Some(n) => n,
        None => 1,
    };
    face_from(data, count, 0, bold, italic)
}

/// The face of a font file with a style; the first one where no face has it.
pub fn select_face(data: &[u8], bold: bool, italic: bool) -> (r: u32)
    ensures
        r == face_for(data@, bold, italic),
{
    let count: u32 = match collection_size(data) {
        Some(n) => n,
        None => 1,
    };
    let mut i: u32 = 0;
    while i < count
        invariant
            0 <= i <= count,
            face_for(data@, bold, italic) == face_from(data@, count, i as int, bold, italic),
        decreases count - i,
    {
        if fits_style(face_bold(data, i), face_italic(data, i), bold, italic) {
            return i;
        }
        i += 1;
    }
    0
}

} // verus!
