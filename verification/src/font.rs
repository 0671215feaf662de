//! Fonts: from the codes of a text to characters, widths and glyphs.
//!
//! Simple fonts have codes of one byte. Composite fonts have codes of two bytes, which are taken
//! as the identifiers of characters whatever the font's `/Encoding` says.
use std::collections::BTreeMap;
use vstd::prelude::*;
use crate::cmap::{parse_to_unicode_cmap, parse_to_unicode_cmap_wide, unicode_map};
use crate::document::{DocModel, Document};
use crate::encoding::{build_standard_encoding, build_win_ansi_encoding, glyph_char, glyph_name_to_unicode, standard_char, win_ansi_char, CharTable};
use crate::error::{ErrorModel, PdfError};
use crate::faces::{cff_glyph, cff_glyph_of, cff_map, cff_map_of, simple_glyph, simple_glyph_of};
use crate::filters::{decode_stream, stream_decoded};
use crate::number::{real_of_int, Real, RealModel};
use crate::object::{entry, models, DictModel, Dictionary, Object, ObjectModel};
use crate::table::{empty_table, lookup};
use crate::text::{be_units, same_text, units};
use crate::widths::{standard_width_fallback, table_width, widths_by_name, WidthTable};

verus! {

/// From character identifiers to the glyphs of a TrueType font.
pub ghost enum GidMap {
    Identity,
    Listed(Seq<u16>),
}

/// Where the glyphs of a composite font come from.
pub ghost enum CidSource {
    TrueType(GidMap),
    Cff(Map<u32, u16>),
}

/// Widths of characters: one for each from the first on, or the same from one to another.
pub ghost enum RunModel {
    Each(u32, Seq<Option<RealModel>>),
    Same(i64, i64, RealModel),
}

/// What a composite font has beyond a simple one.
pub ghost struct CidModel {
    pub unicode: Map<u32, char>,
    pub widths: Seq<RunModel>,
    pub default_width: RealModel,
    pub source: Option<CidSource>,
}

/// A font by what it says. `encoding` and `widths` have an entry for each byte.
pub ghost struct FontModel {
    pub subtype: Seq<char>,
    pub encoding: Seq<Option<char>>,
    pub widths: Seq<Option<RealModel>>,
    pub fallback: Option<WidthTable>,
    pub truetype: Option<Seq<u8>>,
    pub cff: Option<Seq<u8>>,
    pub base_font: Seq<char>,
    pub cid: Option<CidModel>,
}

pub open spec fn win_ansi_table() -> Seq<Option<char>> {
    Seq::new(256, |i: int| win_ansi_char(i))
}

pub open spec fn standard_table() -> Seq<Option<char>> {
    Seq::new(256, |i: int| standard_char(i))
}

/// The encoding with a name. That of the Macintosh is taken for that of Windows.
pub open spec fn encoding_named(name: Seq<char>) -> Option<Seq<Option<char>>> {
    if name == "WinAnsiEncoding"@ || name == "MacRomanEncoding"@ {
        Some(win_ansi_table())
    } else if name == "StandardEncoding"@ {
        Some(standard_table())
    } else {
        None
    }
}

/// A table with the differences from the `i`-th item on: a number says the code of the next name,
/// and each name takes one code.
pub open spec fn with_differences(t: Seq<Option<char>>, items: Seq<ObjectModel>, i: nat, code: int) -> Seq<
    Option<char>,
>
    decreases items.len() - i,
{
    if i >= items.len() {
        t
    } else {
        match items[i as int] {
            ObjectModel::Integer(n) => with_differences(t, items, i + 1, n),
            ObjectModel::Name(name) => with_differences(
                match glyph_char(name) {
                    Some(c) => if 0 <= code < 256 {
                        t.update(code, Some(c))
                    } else {
                        t
                    },
                    None => t,
                },
                items,
                i + 1,
                code + 1,
            ),
            _ => with_differences(t, items, i + 1, code),
        }
    }
}

/// The encoding that a dictionary says: a base and differences from it.
pub open spec fn encoding_in(d: DictModel) -> Seq<Option<char>> {
    let base = match entry(d, "BaseEncoding"@) {
        Some(ObjectModel::Name(name)) => match encoding_named(name) {
            Some(t) => t,
            None => win_ansi_table(),
        },
        _ => win_ansi_table(),
    };
    match entry(d, "Differences"@) {
        Some(ObjectModel::Array(items)) => with_differences(base, items, 0, 0),
        _ => base,
    }
}

/// The encoding that a font says.
pub open spec fn encoding_of(doc: DocModel, d: DictModel) -> Result<Seq<Option<char>>, ErrorModel> {
    match entry(d, "Encoding"@) {
        None => Ok(win_ansi_table()),
        Some(o) => match doc.got(o) {
            Err(e) => Err(e),
            Ok(ObjectModel::Name(name)) => Ok(
                match encoding_named(name) {
                    Some(t) => t,
                    None => standard_table(),
                },
            ),
            Ok(ObjectModel::Dictionary(e)) => Ok(encoding_in(e)),
            Ok(_) => Ok(win_ansi_table()),
        },
    }
}

/// The decoded data of a stream under a name, where there is one.
pub open spec fn data_under(doc: DocModel, d: DictModel, key: Seq<char>) -> Option<Seq<u8>> {
    match entry(d, key) {
        None => None,
        Some(o) => match doc.got(o) {
            Ok(ObjectModel::Stream(sd, raw)) => match stream_decoded(sd, raw) {
                Ok(bytes) => Some(bytes),
                Err(_) => None,
            },
            _ => None,
        },
    }
}

/// The dictionary under a name, where there is one.
pub open spec fn dict_under(doc: DocModel, d: DictModel, key: Seq<char>) -> Option<DictModel> {
    match entry(d, key) {
        None => None,
        Some(o) => match doc.got(o) {
            Ok(m) => m.dict(),
            Err(_) => None,
        },
    }
}

/// The array under a name, where there is one.
pub open spec fn array_under(doc: DocModel, d: DictModel, key: Seq<char>) -> Option<Seq<ObjectModel>> {
    match entry(d, key) {
        None => None,
        Some(o) => match doc.got(o) {
            Ok(m) => m.array(),
            Err(_) => None,
        },
    }
}

/// A table with what a map says in place of what it said.
pub open spec fn overlaid_by(t: Seq<Option<char>>, m: Map<u32, char>) -> Seq<Option<char>> {
    Seq::new(
        t.len(),
        |i: int|
            if m.contains_key(i as u32) {
                Some(m[i as u32])
            } else {
                t[i]
            },
    )
}

/// The characters that the codes of a font stand for: as `/ToUnicode` says, otherwise as the
/// encoding says.
pub open spec fn characters_of(doc: DocModel, d: DictModel) -> Result<Seq<Option<char>>, ErrorModel> {
    match encoding_of(doc, d) {
        Err(e) => Err(e),
        Ok(t) => match data_under(doc, d, "ToUnicode"@) {
            Some(bytes) => Ok(overlaid_by(t, unicode_map(bytes, false))),
            None => Ok(t),
        },
    }
}

/// A number, where an object is one.
pub open spec fn number_in(o: ObjectModel) -> Option<RealModel> {
    match o {
        ObjectModel::Integer(n) => Some(real_of_int(n)),
        ObjectModel::Real(r) => Some(r),
        _ => None,
    }
}

/// The widths of the codes from `first` on.
pub open spec fn widths_from(first: i64, items: Seq<ObjectModel>) -> Seq<Option<RealModel>> {
    Seq::new(
        256,
        |code: int|
            if first <= code < first + items.len() {
                number_in(items[code - first])
            } else {
                None
            },
    )
}

pub open spec fn no_widths() -> Seq<Option<RealModel>> {
    Seq::new(256, |i: int| None)
}

/// The widths that a font says.
pub open spec fn widths_of(doc: DocModel, d: DictModel) -> Result<Seq<Option<RealModel>>, ErrorModel> {
    match entry(d, "Widths"@) {
        None => Ok(no_widths()),
        Some(o) => match doc.got(o) {
            Err(e) => Err(e),
            Ok(m) => match (entry(d, "FirstChar"@), m.array()) {
                (Some(f), Some(items)) => match f.integer() {
                    Some(first) => Ok(widths_from(first, items)),
                    None => Ok(no_widths()),
                },
                _ => Ok(no_widths()),
            },
        },
    }
}

/// The name under a key, or a default.
pub open spec fn name_under(d: DictModel, key: Seq<char>, default: Seq<char>) -> Seq<char> {
    match entry(d, key) {
        Some(ObjectModel::Name(n)) => n,
        _ => default,
    }
}

/// The font programs that a descriptor has: TrueType or OpenType, otherwise compact.
pub open spec fn programs(doc: DocModel, descriptor: Option<DictModel>) -> (Option<Seq<u8>>, Option<Seq<u8>>) {
    match descriptor {
        None => (None, None),
        Some(d) => match data_under(doc, d, "FontFile2"@) {
            Some(bytes) => (Some(bytes), None),
            None => match data_under(doc, d, "FontFile3"@) {
                None => (None, None),
                Some(bytes) => if name_under(doc.got(d["FontFile3"@])->Ok_0->Stream_0, "Subtype"@, ""@)
                    == "OpenType"@ {
                    (Some(bytes), None)
                } else {
                    (None, Some(bytes))
                },
            },
        },
    }
}

/// A whole number held to 32 bits without a sign.
pub open spec fn held_u32(n: i64) -> u32 {
    if n < 0 {
        0
    } else if n > u32::MAX {
        u32::MAX
    } else {
        n as u32
    }
}

/// The widths of characters from the `i`-th item of `/W` on, behind those in `acc`: a character
/// and an array of widths, or two characters and a width. What fits neither ends them.
pub open spec fn runs_from(items: Seq<ObjectModel>, i: nat, acc: Seq<RunModel>) -> Seq<RunModel>
    decreases items.len() - i,
{
    if i + 1 >= items.len() {
        acc
    } else {
        match items[i as int].integer() {
            None => acc,
            Some(first) => match items[i as int + 1] {
                ObjectModel::Array(run) => runs_from(
                    items,
                    i + 2,
                    acc.push(
                        RunModel::Each(held_u32(first), run.map_values(|o: ObjectModel| number_in(o))),
                    ),
                ),
                second => match second.integer() {
                    None => acc,
                    Some(last) => if i + 2 >= items.len() {
                        acc
                    } else {
                        match number_in(items[i as int + 2]) {
                            None => acc,
                            Some(w) => runs_from(items, i + 3, acc.push(RunModel::Same(first, last, w))),
                        }
                    },
                },
            },
        }
    }
}

/// The width that a run gives a character. A character stands for all numbers that end in its 32
/// bits.
pub open spec fn run_width(run: RunModel, cid: u32) -> Option<RealModel> {
    match run {
        RunModel::Each(first, widths) => if first <= cid < first + widths.len() {
            widths[cid - first]
        } else {
            None
        },
        RunModel::Same(first, last, w) => if first + (cid - first) % 0x1_0000_0000 <= last {
            Some(w)
        } else {
            None
        },
    }
}

/// The width of a character: the last of the first `n` runs counts.
pub open spec fn width_in_runs(runs: Seq<RunModel>, n: nat, cid: u32) -> Option<RealModel>
    decreases n,
{
    if n == 0 {
        None
    } else {
        match run_width(runs[n - 1], cid) {
            Some(w) => Some(w),
            None => width_in_runs(runs, (n - 1) as nat, cid),
        }
    }
}

/// The one descendant of a composite font.
pub open spec fn descendant_of(doc: DocModel, d: DictModel) -> Option<DictModel> {
    match array_under(doc, d, "DescendantFonts"@) {
        Some(items) => if items.len() > 0 {
            match doc.got(items[0]) {
                Ok(m) => m.dict(),
                Err(_) => None,
            }
        } else {
            None
        },
        None => None,
    }
}

/// From character identifiers to glyphs, as a descendant says.
pub open spec fn gid_map_of(doc: DocModel, d: DictModel) -> GidMap {
    match data_under(doc, d, "CIDToGIDMap"@) {
        Some(bytes) => GidMap::Listed(be_units(bytes)),
        None => GidMap::Identity,
    }
}

/// The width of the characters that have none of their own.
pub open spec fn default_width_of(d: DictModel) -> RealModel {
    match entry(d, "DW"@) {
        Some(o) => match number_in(o) {
            Some(w) => w,
            None => real_of_int(1000),
        },
        None => real_of_int(1000),
    }
}

/// Where the glyphs of a composite font come from.
pub open spec fn cid_source(truetype: Option<Seq<u8>>, cff: Option<Seq<u8>>, gids: GidMap) -> Option<CidSource> {
    match (truetype, cff) {
        (Some(_), _) => Some(CidSource::TrueType(gids)),
        (None, Some(bytes)) => match cff_map_of(bytes) {
            Some(m) => Some(CidSource::Cff(m)),
            None => None,
        },
        (None, None) => None,
    }
}

/// What a composite font has beyond a simple one.
pub open spec fn cid_of(
    doc: DocModel,
    d: DictModel,
    truetype: Option<Seq<u8>>,
    cff: Option<Seq<u8>>,
) -> CidModel {
    CidModel {
        unicode: match data_under(doc, d, "ToUnicode"@) {
            Some(bytes) => unicode_map(bytes, true),
            None => Map::empty(),
        },
        widths: match descendant_of(doc, d) {
            Some(x) => match array_under(doc, x, "W"@) {
                Some(items) => runs_from(items, 0, seq![]),
                None => seq![],
            },
            None => seq![],
        },
        default_width: match descendant_of(doc, d) {
            Some(x) => default_width_of(x),
            None => real_of_int(1000),
        },
        source: cid_source(
            truetype,
            cff,
            match descendant_of(doc, d) {
                Some(x) => gid_map_of(doc, x),
                None => GidMap::Identity,
            },
        ),
    }
}

/// The programs of a font: those of its descendant where it has one.
pub open spec fn font_programs(doc: DocModel, d: DictModel, composite: bool) -> (Option<Seq<u8>>, Option<
    Seq<u8>,
>) {
    match descendant_of(doc, d) {
        Some(x) => if composite {
            programs(doc, dict_under(doc, x, "FontDescriptor"@))
        } else {
            programs(doc, dict_under(doc, d, "FontDescriptor"@))
        },
        None => programs(doc, dict_under(doc, d, "FontDescriptor"@)),
    }
}

/// The font that a dictionary says.
pub open spec fn font_of(doc: DocModel, d: DictModel) -> Result<FontModel, ErrorModel> {
    let subtype = name_under(d, "Subtype"@, ""@);
    let composite = subtype == "Type0"@;
    match characters_of(doc, d) {
        Err(e) => Err(e),
        Ok(encoding) => match widths_of(doc, d) {
            Err(e) => Err(e),
            Ok(widths) => {
                let base_font = name_under(d, "BaseFont"@, "Helvetica"@);
                let (truetype, cff) = font_programs(doc, d, composite);
                Ok(
                    FontModel {
                        subtype,
                        encoding,
                        widths,
                        fallback: if !composite && forall|i: int|
                            0 <= i < 256 ==> #[trigger] widths[i] is None {
                            Some(widths_by_name(base_font))
                        } else {
                            None
                        },
                        truetype,
                        cff,
                        base_font,
                        cid: if composite {
                            Some(cid_of(doc, d, truetype, cff))
                        } else {
                            None
                        },
                    },
                )
            },
        },
    }
}

/// What draws a glyph: the font's own program, or a font of the system that stands in for it.
#[derive(Debug, Clone, Copy, PartialEq, Eq, Structural)]
pub enum GlyphShape {
    TrueType(u16),
    Cff(u16),
    System(char),
}

impl FontModel {
    /// The character and the width of a code of one byte.
    pub open spec fn simple(self, code: u8) -> (Option<char>, RealModel) {
        (
            self.encoding[code as int],
            match self.widths[code as int] {
                Some(w) => w,
                None => match self.fallback {
                    Some(table) => match table_width(table, code) {
                        Some(w) => real_of_int(w as int),
                        None => real_of_int(500),
                    },
                    None => real_of_int(500),
                },
            },
        )
    }

    pub open spec fn composite(self) -> bool {
        self.subtype == "Type0"@
    }

    /// The character and the width of a character identifier.
    pub open spec fn metrics(self, cid: u32) -> (Option<char>, RealModel) {
        match self.cid {
            None => (None, real_of_int(1000)),
            Some(c) => (
                if c.unicode.contains_key(cid) {
                    Some(c.unicode[cid])
                } else {
                    None
                },
                match width_in_runs(c.widths, c.widths.len(), cid) {
                    Some(w) => w,
                    None => c.default_width,
                },
            ),
        }
    }

    /// What draws a code of one byte.
    pub open spec fn shape(self, code: u8, unicode: Option<char>) -> Option<GlyphShape> {
        match (self.truetype, self.cff) {
            (Some(data), _) => match simple_glyph_of(data, code, unicode) {
                Some(g) => Some(GlyphShape::TrueType(g)),
                None => None,
            },
            (None, Some(data)) => match cff_glyph_of(data, code) {
                Some(g) => Some(GlyphShape::Cff(g)),
                None => None,
            },
            (None, None) => match unicode {
                Some(c) => if self.composite() {
                    None
                } else {
                    Some(GlyphShape::System(c))
                },
                None => None,
            },
        }
    }

    /// What draws a character identifier.
    pub open spec fn cid_shape(self, cid: u32) -> Option<GlyphShape> {
        match self.cid {
            None => None,
            Some(c) => match c.source {
                None => None,
                Some(CidSource::TrueType(GidMap::Identity)) => if cid <= 0xFFFF {
                    Some(GlyphShape::TrueType(cid as u16))
                } else {
                    None
                },
                Some(CidSource::TrueType(GidMap::Listed(map))) => if cid < map.len() {
                    Some(GlyphShape::TrueType(map[cid as int]))
                } else {
                    None
                },
                Some(CidSource::Cff(map)) => if map.contains_key(cid) {
                    Some(GlyphShape::Cff(map[cid]))
                } else {
                    None
                },
            },
        }
    }
}

/// From character identifiers to the glyphs of a TrueType font.
enum CidToGid {
    Identity,
    Listed(Vec<u16>),
}

/// Where the glyphs of a composite font come from.
enum CidGlyphSource {
    TrueType(CidToGid),
    Cff(BTreeMap<u32, u16>),
}

/// Widths of characters.
enum WidthRun {
    Each(u32, Vec<Option<Real>>),
    Same(i64, i64, Real),
}

/// What a composite font has beyond a simple one.
struct CidFontData {
    to_unicode: BTreeMap<u32, char>,
    widths: Vec<WidthRun>,
    default_width: Real,
    glyph_source: Option<CidGlyphSource>,
}

pub struct Font {
    subtype: String,
    encoding: CharTable,
    widths: Vec<Option<Real>>,
    width_fallback: Option<WidthTable>,
    embedded_truetype: Option<Vec<u8>>,
    embedded_cff: Option<Vec<u8>>,
    base_font: String,
    cid: Option<CidFontData>,
}

spec fn width_model(w: Option<Real>) -> Option<RealModel> {
    match w {
        Some(r) => Some(r@),
        None => None,
    }
}

spec fn width_models(s: Seq<Option<Real>>) -> Seq<Option<RealModel>> {
    s.map_values(|w: Option<Real>| width_model(w))
}

spec fn bytes_model(b: Option<Vec<u8>>) -> Option<Seq<u8>> {
    match b {
        Some(v) => Some(v@),
        None => None,
    }
}

spec fn run_model(run: WidthRun) -> RunModel {
    match run {
        WidthRun::Each(first, widths) => RunModel::Each(first, width_models(widths@)),
        WidthRun::Same(first, last, w) => RunModel::Same(first, last, w@),
    }
}

spec fn run_models(s: Seq<WidthRun>) -> Seq<RunModel> {
    s.map_values(|r: WidthRun| run_model(r))
}

spec fn gid_model(g: CidToGid) -> GidMap {
    match g {
        CidToGid::Identity => GidMap::Identity,
        CidToGid::Listed(v) => GidMap::Listed(v@),
    }
}

spec fn source_model(s: Option<CidGlyphSource>) -> Option<CidSource> {
    match s {
        None => None,
        Some(CidGlyphSource::TrueType(gids)) => Some(CidSource::TrueType(gid_model(gids))),
        Some(CidGlyphSource::Cff(map)) => Some(CidSource::Cff(map@)),
    }
}

spec fn cid_model(c: CidFontData) -> CidModel {
    CidModel {
        unicode: c.to_unicode@,
        widths: run_models(c.widths@),
        default_width: c.default_width@,
        source: source_model(c.glyph_source),
    }
}

impl View for Font {
    type V = FontModel;

    closed spec fn view(&self) -> FontModel {
        FontModel {
            subtype: self.subtype@,
            encoding: self.encoding@,
            widths: width_models(self.widths@),
            fallback: self.width_fallback,
            truetype: bytes_model(self.embedded_truetype),
            cff: bytes_model(self.embedded_cff),
            base_font: self.base_font@,
            cid: match self.cid {
                Some(c) => Some(cid_model(c)),
                None => None,
            },
        }
    }
}

/// A number, where an object is one.
fn number(o: &Object) -> (r: Option<Real>)
    ensures
        width_model(r) == number_in(o@),
{
    match o {
        Object::Integer(n) => Some(Real::from_int(*n)),
        Object::Real(x) => Some(x.clone()),
        _ => None,
    }
}

/// The encoding with a name.
pub fn base_encoding_by_name(name: &str) -> (r: Option<CharTable>)
    ensures
        match r {
            Some(t) => encoding_named(name@) == Some(t@),
            None => encoding_named(name@) is None,
        },
{
    if same_text(name, "WinAnsiEncoding") || same_text(name, "MacRomanEncoding") {
        let t = build_win_ansi_encoding();
        assert(t@ =~= win_ansi_table());
        Some(t)
    } else if same_text(name, "StandardEncoding") {
        let t = build_standard_encoding();
        assert(t@ =~= standard_table());
        Some(t)
    } else {
        None
    }
}

fn win_ansi() -> (t: CharTable)
    ensures
        t@ == win_ansi_table(),
{
    let t = build_win_ansi_encoding();
    assert(t@ =~= win_ansi_table());
    t
}

/// Puts differences into a table.
fn put_differences(t: &mut CharTable, items: &[Object])
    requires
        old(t)@.len() == 256,
    ensures
        final(t)@ == with_differences(old(t)@, models(items@), 0, 0),
        final(t)@.len() == 256,
{
    let ghost ms = models(items@);
    let ghost goal = with_differences(t@, ms, 0, 0);
    let mut code: i128 = 0;
    let n: usize = items.len();
    let mut i: usize = 0;
    while i < n
        invariant
            0 <= i <= n,
            n == items@.len(),
            ms == models(items@),
            t@.len() == 256,
            i64::MIN <= code <= i64::MAX + i,
            goal == with_differences(t@, ms, i as nat, code as int),
        decreases items@.len() - i,
    {
        assert(ms[i as int] == items@[i as int]@);
        match &items[i] {
            Object::Integer(n) => {
                code = *n as i128;
            },
            Object::Name(name) => {
                match glyph_name_to_unicode(name.as_str()) {
                    Some(c) => {
                        if 0 <= code && code < 256 {
                            t.set(code as usize, Some(c));
                        }
                    },
                    None => {},
                }
                code += 1;
            },
            _ => {},
        }
        i += 1;
    }
}

/// The encoding that a dictionary says.
fn dict_encoding(d: &Dictionary) -> (t: CharTable)
    ensures
        t@ == encoding_in(d@),
        t@.len() == 256,
{
    let mut t: CharTable = match d.get("BaseEncoding") {
        Some(Object::Name(name)) => match base_encoding_by_name(name.as_str()) {
            Some(t) => t,
            None => win_ansi(),
        },
        _ => win_ansi(),
    };
    match d.get("Differences") {
        Some(o) => match o.as_array() {
            Some(items) => {
                put_differences(&mut t, items);
            },
            None => {},
        },
        None => {},
    }
    t
}

/// The encoding that a font says.
fn read_encoding(doc: &Document, d: &Dictionary) -> (r: Result<CharTable, PdfError>)
    ensures
        match encoding_of(doc@, d@) {
            Ok(t) => r is Ok && r->Ok_0@ == t && t.len() == 256,
            Err(e) => r is Err && r->Err_0@ == e,
        },
{
    match d.get("Encoding") {
        None => Ok(win_ansi()),
        Some(o) => match doc.get(o) {
            Err(e) => Err(e),
            Ok(Object::Name(name)) => match base_encoding_by_name(name.as_str()) {
                Some(t) => Ok(t),
                None => {
                    let t = build_standard_encoding();
                    assert(t@ =~= standard_table());
                    Ok(t)
                },
            },
            Ok(Object::Dictionary(e)) => Ok(dict_encoding(&e)),
            Ok(_) => Ok(win_ansi()),
        },
    }
}

/// The decoded data of a stream under a name.
fn read_data(doc: &Document, d: &Dictionary, key: &str) -> (r: Option<Vec<u8>>)
    ensures
        bytes_model(r) == data_under(doc@, d@, key@),
{
    match d.get(key) {
        None => None,
        Some(o) => match doc.get(o) {
            Ok(Object::Stream(stream)) => match decode_stream(&stream) {
                Ok(bytes) => Some(bytes),
                Err(_) => None,
            },
            _ => None,
        },
    }
}

/// The dictionary under a name.
fn read_dict(doc: &Document, d: &Dictionary, key: &str) -> (r: Option<Dictionary>)
    ensures
        match r {
            Some(x) => dict_under(doc@, d@, key@) == Some(x@),
            None => dict_under(doc@, d@, key@) is None,
        },
{
    match d.get(key) {
        None => None,
        Some(o) => match doc.get(o) {
            Ok(m) => match m.as_dict() {
                Some(x) => Some(x.clone()),
                None => None,
            },
            Err(_) => None,
        },
    }
}

/// The characters that the codes of a font stand for.
fn read_characters(doc: &Document, d: &Dictionary) -> (r: Result<CharTable, PdfError>)
    ensures
        match characters_of(doc@, d@) {
            Ok(t) => r is Ok && r->Ok_0@ == t && t.len() == 256,
            Err(e) => r is Err && r->Err_0@ == e,
        },
{
    let mut t = match read_encoding(doc, d) {
        Ok(t) => t,
        Err(e) => {
            return Err(e);
        },
    };
    match read_data(doc, d, "ToUnicode") {
        None => {},
        Some(bytes) => {
            let map = parse_to_unicode_cmap(bytes.as_slice());
            let ghost start = t@;
            let mut i: usize = 0;
            while i < 256
                invariant
                    0 <= i <= 256,
                    t@.len() == 256,
                    start.len() == 256,
                    forall|j: int|
                        0 <= j < i ==> #[trigger] t@[j] == overlaid_by(start, map@)[j],
                    forall|j: int| i <= j < 256 ==> #[trigger] t@[j] == start[j],
                decreases 256 - i,
            {
                match lookup(&map, i as u32) {
                    Some(c) => {
                        t.set(i, Some(*c));
                    },
                    None => {},
                }
                i += 1;
            }
            assert(t@ =~= overlaid_by(start, map@));
        },
    }
    Ok(t)
}

/// A table of no widths.
fn empty_widths() -> (w: Vec<Option<Real>>)
    ensures
        w@.len() == 256,
        forall|i: int| 0 <= i < 256 ==> #[trigger] w@[i] is None,
{
    let mut w: Vec<Option<Real>> = Vec::new();
    let mut i: usize = 0;
    while i < 256
        invariant
            0 <= i <= 256,
            w@.len() == i,
            forall|j: int| 0 <= j < i ==> #[trigger] w@[j] is None,
        decreases 256 - i,
    {
        w.push(None);
        i += 1;
    }
    w
}

/// The widths of the codes from `first` on.
fn list_widths(first: i64, items: &[Object]) -> (w: Vec<Option<Real>>)
    ensures
        width_models(w@) == widths_from(first, models(items@)),
        w@.len() == 256,
{
    let mut w: Vec<Option<Real>> = Vec::new();
    let n: usize = items.len();
    let mut code: usize = 0;
    while code < 256
        invariant
            0 <= code <= 256,
            n == items@.len(),
            w@.len() == code,
            forall|j: int|
                0 <= j < code ==> width_model(#[trigger] w@[j]) == widths_from(
                    first,
                    models(items@),
                )[j],
        decreases 256 - code,
    {
        let at: i128 = code as i128 - first as i128;
        if 0 <= at && at < n as i128 {
            assert(models(items@)[at as int] == items@[at as int]@);
            w.push(number(&items[at as usize]));
        } else {
            w.push(None);
        }
        code += 1;
    }
    assert(width_models(w@) =~= widths_from(first, models(items@)));
    w
}

/// The widths that a font says.
fn read_widths(doc: &Document, d: &Dictionary) -> (r: Result<Vec<Option<Real>>, PdfError>)
    ensures
        match widths_of(doc@, d@) {
            Ok(w) => r is Ok && width_models(r->Ok_0@) == w && w.len() == 256,
            Err(e) => r is Err && r->Err_0@ == e,
        },
{
    let none = empty_widths();
    assert(width_models(none@) =~= no_widths());
    match d.get("Widths") {
        None => Ok(none),
        Some(o) => match doc.get(o) {
            Err(e) => Err(e),
            Ok(m) => match m.as_array() {
                None => Ok(none),
                Some(items) => match d.get("FirstChar") {
                    None => Ok(none),
                    Some(f) => match f.as_int() {
                        Some(first) => Ok(list_widths(first, items)),
                        None => Ok(none),
                    },
                },
            },
        },
    }
}

/// The name under a key, or a default.
fn read_name(d: &Dictionary, key: &str, default: &str) -> (r: String)
    ensures
        r@ == name_under(d@, key@, default@),
{
    match d.get(key) {
        Some(Object::Name(n)) => n.as_str().to_owned(),
        _ => default.to_owned(),
    }
}

/// The font programs that a descriptor has.
fn load_embedded_font_files(doc: &Document, descriptor: Option<Dictionary>) -> (r: (
    Option<Vec<u8>>,
    Option<Vec<u8>>,
))
    ensures
        (bytes_model(r.0), bytes_model(r.1)) == programs(
            doc@,
            match descriptor {
                Some(d) => Some(d@),
                None => None,
            },
        ),
{
    let d = match descriptor {
        Some(d) => d,
        None => {
            return (None, None);
        },
    };
    match read_data(doc, &d, "FontFile2") {
        Some(bytes) => {
            return (Some(bytes), None);
        },
        None => {},
    }
    match d.get("FontFile3") {
        Some(o) => match doc.get(o) {
            Ok(Object::Stream(stream)) => match decode_stream(&stream) {
                Ok(bytes) => {
                    if same_text(read_name(&stream.dict, "Subtype", "").as_str(), "OpenType") {
                        (Some(bytes), None)
                    } else {
                        (None, Some(bytes))
                    }
                },
                Err(_) => (None, None),
            },
            _ => (None, None),
        },
        None => (None, None),
    }
}

fn hold_u32(n: i64) -> (r: u32)
    ensures
        r == held_u32(n),
{
    if n < 0 {
        0
    } else if n > u32::MAX as i64 {
        u32::MAX
    } else {
        n as u32
    }
}

/// The widths of an array.
fn run_widths(items: &Vec<Object>) -> (w: Vec<Option<Real>>)
    ensures
        width_models(w@) == models(items@).map_values(|o: ObjectModel| number_in(o)),
{
    let ghost goal = models(items@).map_values(|o: ObjectModel| number_in(o));
    let mut w: Vec<Option<Real>> = Vec::new();
    let mut i: usize = 0;
    while i < items.len()
        invariant
            0 <= i <= items@.len(),
            w@.len() == i,
            forall|j: int| 0 <= j < i ==> width_model(#[trigger] w@[j]) == number_in(items@[j]@),
        decreases items@.len() - i,
    {
        w.push(number(&items[i]));
        i += 1;
    }
    assert(width_models(w@) =~= goal);
    w
}

/// The widths of characters.
fn parse_cid_widths(items: &[Object]) -> (r: Vec<WidthRun>)
    ensures
        run_models(r@) == runs_from(models(items@), 0, seq![]),
{
    let ghost ms = models(items@);
    let mut r: Vec<WidthRun> = Vec::new();
    assert(run_models(r@) =~= seq![]);
    let n: usize = items.len();
    let mut i: usize = 0;
    while i < n && n - i >= 2
        invariant
            0 <= i <= n,
            n == items@.len(),
            ms == models(items@),
            runs_from(ms, 0, seq![]) == runs_from(ms, i as nat, run_models(r@)),
        decreases n - i,
    {
        let ghost before = run_models(r@);
        proof {
            assert(ms[i as int] == items@[i as int]@);
            assert(ms[i + 1] == items@[i + 1]@);
        }
        let first: i64 = match items[i].as_int() {
            Some(x) => x,
            None => {
                return r;
            },
        };
        match &items[i + 1] {
            Object::Array(run) => {
                assert(ms[i + 1]->Array_0 =~= models(run@));
                let e = WidthRun::Each(hold_u32(first), run_widths(run));
                r.push(e);
                assert(run_models(r@) =~= before.push(run_model(e)));
                i += 2;
            },
            second => {
                let last: i64 = match second.as_int() {
                    Some(x) => x,
                    None => {
                        return r;
                    },
                };
                if n - i < 3 {
                    return r;
                }
                assert(ms[i + 2] == items@[i + 2]@);
                match number(&items[i + 2]) {
                    Some(w) => {
                        let e = WidthRun::Same(first, last, w);
                        r.push(e);
                        assert(run_models(r@) =~= before.push(run_model(e)));
                    },
                    None => {
                        return r;
                    },
                }
                i += 3;
            },
        }
    }
    r
}

/// The one descendant of a composite font.
fn read_descendant(doc: &Document, d: &Dictionary) -> (r: Option<Dictionary>)
    ensures
        match r {
            Some(x) => descendant_of(doc@, d@) == Some(x@),
            None => descendant_of(doc@, d@) is None,
        },
{
    match d.get("DescendantFonts") {
        None => None,
        Some(o) => match doc.get(o) {
            Err(_) => None,
            Ok(m) => match m.as_array() {
                None => None,
                Some(items) => {
                    if items.len() == 0 {
                        return None;
                    }
                    assert(models(items@)[0] == items@[0]@);
                    match doc.get(&items[0]) {
                        Ok(x) => match x.as_dict() {
                            Some(y) => Some(y.clone()),
                            None => None,
                        },
                        Err(_) => None,
                    }
                },
            },
        },
    }
}

fn read_gid_map(doc: &Document, d: &Dictionary) -> (r: CidToGid)
    ensures
        gid_model(r) == gid_map_of(doc@, d@),
{
    match read_data(doc, d, "CIDToGIDMap") {
        Some(bytes) => CidToGid::Listed(units(bytes.as_slice())),
        None => CidToGid::Identity,
    }
}

fn read_default_width(d: &Dictionary) -> (r: Real)
    ensures
        r@ == default_width_of(d@),
{
    match d.get("DW") {
        Some(o) => match number(o) {
            Some(w) => w,
            None => Real::from_int(1000),
        },
        None => Real::from_int(1000),
    }
}

fn read_runs(doc: &Document, d: &Dictionary) -> (r: Vec<WidthRun>)
    ensures
        run_models(r@) == (match array_under(doc@, d@, "W"@) {
            Some(items) => runs_from(items, 0, seq![]),
            None => seq![],
        }),
{
    let none: Vec<WidthRun> = Vec::new();
    assert(run_models(none@) =~= seq![]);
    match d.get("W") {
        None => none,
        Some(o) => match doc.get(o) {
            Err(_) => none,
            Ok(m) => match m.as_array() {
                Some(items) => parse_cid_widths(items),
                None => none,
            },
        },
    }
}

/// What a composite font has beyond a simple one.
fn read_cid(
    doc: &Document,
    d: &Dictionary,
    truetype: &Option<Vec<u8>>,
    cff: &Option<Vec<u8>>,
) -> (r: CidFontData)
    ensures
        cid_model(r) == cid_of(doc@, d@, bytes_model(*truetype), bytes_model(*cff)),
{
    let to_unicode = match read_data(doc, d, "ToUnicode") {
        Some(bytes) => parse_to_unicode_cmap_wide(bytes.as_slice()),
        None => empty_table(),
    };
    let mut widths: Vec<WidthRun> = Vec::new();
    assert(run_models(widths@) =~= seq![]);
    let mut default_width = Real::from_int(1000);
    let mut cid_to_gid = CidToGid::Identity;
    match read_descendant(doc, d) {
        Some(x) => {
            widths = read_runs(doc, &x);
            default_width = read_default_width(&x);
            cid_to_gid = read_gid_map(doc, &x);
        },
        None => {},
    }
    let glyph_source = match truetype {
        Some(_) => Some(CidGlyphSource::TrueType(cid_to_gid)),
        None => match cff {
            Some(bytes) => match cff_map(bytes.as_slice()) {
                Some(m) => Some(CidGlyphSource::Cff(m)),
                None => None,
            },
            None => None,
        },
    };
    CidFontData { to_unicode, widths, default_width, glyph_source }
}

impl Font {
    /// The font that a dictionary says.
    pub fn load(doc: &Document, dict: &Dictionary) -> (r: Result<Font, PdfError>)
        ensures
            match font_of(doc@, dict@) {
                Ok(f) => r is Ok && r->Ok_0@ == f && f.encoding.len() == 256 && f.widths.len() == 256,
                Err(e) => r is Err && r->Err_0@ == e,
            },
    {
        let subtype = read_name(dict, "Subtype", "");
        let encoding = match read_characters(doc, dict) {
            Ok(t) => t,
            Err(e) => {
                return Err(e);
            },
        };
        let widths = match read_widths(doc, dict) {
            Ok(w) => w,
            Err(e) => {
                return Err(e);
            },
        };
        let base_font = read_name(dict, "BaseFont", "Helvetica");
        let composite = same_text(subtype.as_str(), "Type0");
        let mut bare = true;
        let mut i: usize = 0;
        while i < 256
            invariant
                0 <= i <= 256,
                widths@.len() == 256,
                bare == (forall|j: int| 0 <= j < i ==> #[trigger] widths@[j] is None),
            decreases 256 - i,
        {
            if widths[i].is_some() {
                bare = false;
            }
            i += 1;
        }
        proof {
            let ws = width_models(widths@);
            assert forall|j: int| 0 <= j < 256 implies (#[trigger] ws[j] is None <==> widths@[j] is None) by {}
            if bare {
                assert forall|j: int| 0 <= j < 256 implies #[trigger] ws[j] is None by {
                    assert(widths@[j] is None);
                }
            } else {
                let j = choose|j: int| 0 <= j < 256 && !(#[trigger] widths@[j] is None);
                assert(!(ws[j] is None));
            }
        }
        let width_fallback = if !composite && bare {
            Some(standard_width_fallback(base_font.as_str()))
        } else {
            None
        };
        let descriptor = match read_descendant(doc, dict) {
            Some(x) => if composite {
                read_dict(doc, &x, "FontDescriptor")
            } else {
                read_dict(doc, dict, "FontDescriptor")
            },
            None => read_dict(doc, dict, "FontDescriptor"),
        };
        let (embedded_truetype, embedded_cff) = load_embedded_font_files(doc, descriptor);
        let cid = if composite {
            Some(read_cid(doc, dict, &embedded_truetype, &embedded_cff))
        } else {
            None
        };
        Ok(
            Font {
                subtype,
                encoding,
                widths,
                width_fallback,
                embedded_truetype,
                embedded_cff,
                base_font,
                cid,
            },
        )
    }

    /// A font has an entry for each byte.
    pub open spec fn wf(&self) -> bool {
        self@.encoding.len() == 256 && self@.widths.len() == 256
    }

    /// The character and the width, in thousandths, of a code of one byte.
    pub fn decode_simple(&self, code: u8) -> (r: (Option<char>, Real))
        requires
            self.wf(),
        ensures
            (r.0, r.1@) == self@.simple(code),
    {
        let unicode = self.encoding[code as usize];
        assert(self@.widths[code as int] == width_model(self.widths@[code as int]));
        let width = match &self.widths[code as usize] {
            Some(w) => w.clone(),
            None => match self.width_fallback {
                Some(table) => match table.width(code) {
                    Some(w) => Real::from_int(w as i64),
                    None => Real::from_int(500),
                },
                None => Real::from_int(500),
            },
        };
        (unicode, width)
    }

    pub fn is_composite(&self) -> (r: bool)
        ensures
            r == self@.composite(),
    {
        same_text(self.subtype.as_str(), "Type0")
    }

    /// The name of the font.
    pub fn base_font(&self) -> (r: &str)
        ensures
            r@ == self@.base_font,
    {
        self.base_font.as_str()
    }

    /// The TrueType or OpenType program.
    pub fn truetype(&self) -> (r: Option<&[u8]>)
        ensures
            match r {
                Some(b) => self@.truetype == Some(b@),
                None => self@.truetype is None,
            },
    {
        match &self.embedded_truetype {
            Some(b) => Some(b.as_slice()),
            None => None,
        }
    }

    /// The compact program.
    pub fn cff(&self) -> (r: Option<&[u8]>)
        ensures
            match r {
                Some(b) => self@.cff == Some(b@),
                None => self@.cff is None,
            },
    {
        match &self.embedded_cff {
            Some(b) => Some(b.as_slice()),
            None => None,
        }
    }

    /// What draws a code of one byte.
    pub fn glyph_shape(&self, code: u8, unicode: Option<char>) -> (r: Option<GlyphShape>)
        ensures
            r == self@.shape(code, unicode),
    {
        match &self.embedded_truetype {
            Some(data) => match simple_glyph(data.as_slice(), code, unicode) {
                Some(g) => Some(GlyphShape::TrueType(g)),
                None => None,
            },
            None => match &self.embedded_cff {
                Some(data) => match cff_glyph(data.as_slice(), code) {
                    Some(g) => Some(GlyphShape::Cff(g)),
                    None => None,
                },
                None => match unicode {
                    Some(c) => if self.is_composite() {
                        None
                    } else {
                        Some(GlyphShape::System(c))
                    },
                    None => None,
                },
            },
        }
    }

    /// The character identifiers of a text; a byte left over is dropped.
    pub fn decode_composite(&self, bytes: &[u8]) -> (r: Vec<u32>)
        ensures
            r@ == be_units(bytes@).map_values(|u: u16| u as u32),
    {
        let list = units(bytes);
        let mut r: Vec<u32> = Vec::new();
        let mut i: usize = 0;
        while i < list.len()
            invariant
                0 <= i <= list@.len(),
                r@.len() == i,
                forall|j: int| 0 <= j < i ==> #[trigger] r@[j] == list@[j] as u32,
            decreases list@.len() - i,
        {
            r.push(list[i] as u32);
            i += 1;
        }
        assert(r@ =~= be_units(bytes@).map_values(|u: u16| u as u32));
        r
    }

    /// The character and the width, in thousandths, of a character identifier.
    pub fn cid_metrics(&self, cid: u32) -> (r: (Option<char>, Real))
        ensures
            (r.0, r.1@) == self@.metrics(cid),
    {
        match &self.cid {
            None => (None, Real::from_int(1000)),
            Some(c) => {
                let unicode = match lookup(&c.to_unicode, cid) {
                    Some(x) => Some(*x),
                    None => None,
                };
                let width = match find_width(&c.widths, cid) {
                    Some(w) => w,
                    None => c.default_width.clone(),
                };
                (unicode, width)
            },
        }
    }

    /// What draws a character identifier.
    pub fn cid_glyph_shape(&self, cid: u32) -> (r: Option<GlyphShape>)
        ensures
            r == self@.cid_shape(cid),
    {
        match &self.cid {
            None => None,
            Some(c) => match &c.glyph_source {
                None => None,
                Some(CidGlyphSource::TrueType(gids)) => match gids {
                    CidToGid::Identity => if cid <= 0xFFFF {
                        Some(GlyphShape::TrueType(cid as u16))
                    } else {
                        None
                    },
                    CidToGid::Listed(map) => if (cid as usize) < map.len() {
                        Some(GlyphShape::TrueType(map[cid as usize]))
                    } else {
                        None
                    },
                },
                Some(CidGlyphSource::Cff(map)) => match lookup(map, cid) {
                    Some(g) => Some(GlyphShape::Cff(*g)),
                    None => None,
                },
            },
        }
    }
}

/// The width that a run gives a character.
fn width_of_run(run: &WidthRun, cid: u32) -> (r: Option<Real>)
    ensures
        width_model(r) == run_width(run_model(*run), cid),
{
    match run {
        WidthRun::Each(first, widths) => {
            if cid < *first {
                return None;
            }
            let at: usize = (cid - *first) as usize;
            if at >= widths.len() {
                return None;
            }
            assert(width_models(widths@)[at as int] == width_model(widths@[at as int]));
            match &widths[at] {
                Some(w) => Some(w.clone()),
                None => None,
            }
        },
        WidthRun::Same(first, last, w) => {
            let d: i128 = cid as i128 - *first as i128;
            let rest: i128 = if d >= 0 {
                d % 0x1_0000_0000
            } else {
                let m: i128 = (-d) % 0x1_0000_0000;
                if m == 0 {
                    0
                } else {
                    0x1_0000_0000 - m
                }
            };
            assert(rest == (cid - *first) % 0x1_0000_0000);
            if *first as i128 + rest <= *last as i128 {
                Some(w.clone())
            } else {
                None
            }
        },
    }
}

/// The width of a character: the last run that gives one counts.
fn find_width(runs: &Vec<WidthRun>, cid: u32) -> (r: Option<Real>)
    ensures
        width_model(r) == width_in_runs(run_models(runs@), runs@.len(), cid),
{
    let ghost ms = run_models(runs@);
    let mut n: usize = runs.len();
    while n > 0
        invariant
            0 <= n <= runs@.len(),
            ms == run_models(runs@),
            width_in_runs(ms, runs@.len(), cid) == width_in_runs(ms, n as nat, cid),
        decreases n,
    {
        assert(ms[n - 1] == run_model(runs@[n - 1]));
        match width_of_run(&runs[n - 1], cid) {
            Some(w) => {
                return Some(w);
            },
            None => {},
        }
        n -= 1;
    }
    None
}

} // verus!
