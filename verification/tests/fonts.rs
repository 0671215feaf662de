use papyrus_pdf::cmap::{hex_to_char, hex_to_code_u32, parse_to_unicode_cmap, parse_to_unicode_cmap_wide};
use papyrus_pdf::document::Document;
use papyrus_pdf::error::PdfError;
use papyrus_pdf::faces::{cff_glyph, cff_map, face_bold, face_glyph, face_italic, invert_cids, macintosh_glyph, select_face, simple_glyph};
use papyrus_pdf::font::{base_encoding_by_name, Font, GlyphShape};
use papyrus_pdf::number::Real;
use papyrus_pdf::object::{Dictionary, ObjRef, Object, Stream};
use papyrus_pdf::widths::{standard_width_fallback, system_family, SystemFamily, WidthTable};

fn font_dict(entries: &[(&str, Object)]) -> Dictionary {
    let mut dict = Dictionary::new();
    for (k, v) in entries {
        dict.insert(k, v.clone());
    }
    dict
}

fn name(n: &str) -> Object {
    Object::Name(n.to_string())
}

fn stream(data: &[u8]) -> Object {
    Object::Stream(Stream { dict: Dictionary::new(), raw_data: data.to_vec() })
}

fn whole(n: i64) -> Real {
    Real::from_int(n)
}

/// A document for fonts whose parts are all direct objects.
fn dummy_doc() -> Document {
    let mut bytes = b"%PDF-1.7\n1 0 obj\n<< /Type /Catalog /Pages 2 0 R >>\nendobj\n2 0 obj\n<< /Type /Pages /Kids [] /Count 0 >>\nendobj\n".to_vec();
    let off1 = bytes.windows(7).position(|w| w == b"1 0 obj").unwrap();
    let off2 = bytes.windows(7).position(|w| w == b"2 0 obj").unwrap();
    let xref_offset = bytes.len();
    let xref = format!(
        "xref\n0 3\n0000000000 65535 f \n{off1:010} 00000 n \n{off2:010} 00000 n \ntrailer\n<< /Size 3 /Root 1 0 R >>\nstartxref\n{xref_offset}\n%%EOF"
    );
    bytes.extend_from_slice(xref.as_bytes());
    Document::open(bytes).unwrap()
}

fn helvetica(base: &str) -> Dictionary {
    font_dict(&[
        ("Subtype", name("Type1")),
        ("BaseFont", name(base)),
        ("Encoding", name("WinAnsiEncoding")),
    ])
}

#[test]
fn helvetica_fallback_widths_without_widths_array() {
    let doc = dummy_doc();
    let font = Font::load(&doc, &helvetica("Helvetica")).unwrap();
    let (unicode, width) = font.decode_simple(b'A');
    assert_eq!(unicode, Some('A'));
    assert_eq!(width, whole(667));
}

#[test]
fn helvetica_bold_fallback_uses_wider_bold_metrics_not_roman() {
    let doc = dummy_doc();
    let regular_font = Font::load(&doc, &helvetica("Helvetica")).unwrap();
    let bold_font = Font::load(&doc, &helvetica("Helvetica-Bold")).unwrap();
    let (_, regular_width) = regular_font.decode_simple(b'A');
    let (_, bold_width) = bold_font.decode_simple(b'A');
    assert_eq!(regular_width, whole(667));
    assert_eq!(bold_width, whole(722));
    assert_ne!(regular_width, bold_width);
}

#[test]
fn helvetica_fallback_resolves_accented_and_punctuation_codes_correctly() {
    let doc = dummy_doc();
    let font = Font::load(&doc, &helvetica("Helvetica")).unwrap();
    let (unicode, width) = font.decode_simple(0xEF);
    assert_eq!(unicode, Some('\u{00EF}'));
    assert_eq!(width, whole(222));
    let (_, width) = font.decode_simple(0xE9);
    assert_eq!(width, whole(556));
    let (unicode, width) = font.decode_simple(0x97);
    assert_eq!(unicode, Some('\u{2014}'));
    assert_eq!(width, whole(1000));
}

#[test]
fn explicit_widths_array_take_priority() {
    let doc = dummy_doc();
    let dict = font_dict(&[
        ("Subtype", name("TrueType")),
        ("FirstChar", Object::Integer(65)),
        ("Widths", Object::Array(vec![Object::Integer(999), Object::Integer(999)])),
    ]);
    let font = Font::load(&doc, &dict).unwrap();
    let (_, width) = font.decode_simple(b'A');
    assert_eq!(width, whole(999));
    // A code without a width has the default, as the font says widths of its own.
    assert_eq!(font.decode_simple(b'C').1, whole(500));
}

#[test]
fn widths_at_the_ends_of_the_range() {
    let doc = dummy_doc();
    let dict = font_dict(&[
        ("Subtype", name("TrueType")),
        ("FirstChar", Object::Integer(-1)),
        (
            "Widths",
            Object::Array(vec![
                Object::Integer(1),
                Object::Real(Real::from_scaled(25, 1)),
                Object::Null,
            ]),
        ),
    ]);
    let font = Font::load(&doc, &dict).unwrap();
    assert_eq!(font.decode_simple(0).1, Real::from_scaled(25, 1));
    assert_eq!(font.decode_simple(1).1, whole(500));
}

#[test]
fn differences_override_base_encoding() {
    let doc = dummy_doc();
    let mut enc_dict = Dictionary::new();
    enc_dict.insert("BaseEncoding", name("WinAnsiEncoding"));
    enc_dict.insert("Differences", Object::Array(vec![Object::Integer(65), name("eacute")]));
    let dict = font_dict(&[("Subtype", name("Type1")), ("Encoding", Object::Dictionary(enc_dict))]);
    let font = Font::load(&doc, &dict).unwrap();
    let (unicode, _) = font.decode_simple(65);
    assert_eq!(unicode, Some('\u{00E9}'));
}

#[test]
fn names_in_differences_take_one_code_each() {
    let doc = dummy_doc();
    let mut enc_dict = Dictionary::new();
    enc_dict.insert(
        "Differences",
        Object::Array(vec![
            Object::Integer(65),
            name("B"),
            name("nosuchglyph"),
            name("D"),
            Object::Integer(300),
            name("E"),
        ]),
    );
    let dict = font_dict(&[("Encoding", Object::Dictionary(enc_dict))]);
    let font = Font::load(&doc, &dict).unwrap();
    assert_eq!(font.decode_simple(65).0, Some('B'));
    assert_eq!(font.decode_simple(66).0, Some('B'));
    assert_eq!(font.decode_simple(67).0, Some('D'));
}

#[test]
fn encodings_by_name() {
    assert_eq!(base_encoding_by_name("WinAnsiEncoding").unwrap()[0x97], Some('\u{2014}'));
    assert_eq!(base_encoding_by_name("MacRomanEncoding").unwrap()[0x97], Some('\u{2014}'));
    assert_eq!(base_encoding_by_name("StandardEncoding").unwrap()[65], Some('A'));
    assert!(base_encoding_by_name("Other").is_none());
}

#[test]
fn a_reference_that_leads_nowhere_is_an_error_of_the_font() {
    let doc = dummy_doc();
    let dict = font_dict(&[("Encoding", Object::Reference(ObjRef::new(99, 0)))]);
    assert!(matches!(Font::load(&doc, &dict), Err(PdfError::ObjectNotFound(99, 0))));
    let dict = font_dict(&[("Widths", Object::Reference(ObjRef::new(98, 0)))]);
    assert!(matches!(Font::load(&doc, &dict), Err(PdfError::ObjectNotFound(98, 0))));
}

#[test]
fn type0_is_reported_composite() {
    let doc = dummy_doc();
    let dict = font_dict(&[("Subtype", name("Type0"))]);
    let font = Font::load(&doc, &dict).unwrap();
    assert!(font.is_composite());
}

#[test]
fn decode_composite_splits_two_byte_codes_and_drops_a_trailing_odd_byte() {
    let doc = dummy_doc();
    let dict = font_dict(&[("Subtype", name("Type0"))]);
    let font = Font::load(&doc, &dict).unwrap();
    assert_eq!(font.decode_composite(&[0x00, 0x41, 0x00, 0xFF, 0x9]), vec![0x0041, 0x00FF]);
}

#[test]
fn cid_widths_handle_both_w_array_forms_and_fall_back_to_dw() {
    let doc = dummy_doc();
    let cid_font_dict = font_dict(&[
        ("Subtype", name("CIDFontType2")),
        ("DW", Object::Integer(1000)),
        (
            "W",
            Object::Array(vec![
                Object::Integer(10),
                Object::Array(vec![Object::Integer(200), Object::Integer(300)]),
                Object::Integer(20),
                Object::Integer(22),
                Object::Integer(400),
            ]),
        ),
    ]);
    let type0_dict = font_dict(&[
        ("Subtype", name("Type0")),
        ("Encoding", name("Identity-H")),
        ("DescendantFonts", Object::Array(vec![Object::Dictionary(cid_font_dict)])),
    ]);
    let font = Font::load(&doc, &type0_dict).unwrap();
    assert_eq!(font.cid_metrics(10).1, whole(200));
    assert_eq!(font.cid_metrics(11).1, whole(300));
    assert_eq!(font.cid_metrics(20).1, whole(400));
    assert_eq!(font.cid_metrics(21).1, whole(400));
    assert_eq!(font.cid_metrics(22).1, whole(400));
    assert_eq!(font.cid_metrics(999).1, whole(1000));
}

#[test]
fn a_later_width_stands_in_place_of_an_earlier_one() {
    let doc = dummy_doc();
    let cid_font_dict = font_dict(&[
        ("DW", Object::Integer(7)),
        (
            "W",
            Object::Array(vec![
                Object::Integer(0),
                Object::Integer(9_000_000_000_000_000_000),
                Object::Integer(1),
                Object::Integer(5),
                Object::Array(vec![Object::Integer(2), Object::Null, Object::Integer(4)]),
                Object::Null,
                Object::Integer(6),
            ]),
        ),
    ]);
    let type0_dict = font_dict(&[
        ("Subtype", name("Type0")),
        ("DescendantFonts", Object::Array(vec![Object::Dictionary(cid_font_dict)])),
    ]);
    let font = Font::load(&doc, &type0_dict).unwrap();
    assert_eq!(font.cid_metrics(4).1, whole(1));
    assert_eq!(font.cid_metrics(5).1, whole(2));
    assert_eq!(font.cid_metrics(6).1, whole(1));
    assert_eq!(font.cid_metrics(7).1, whole(4));
}

#[test]
fn a_simple_font_has_no_character_identifiers() {
    let doc = dummy_doc();
    let font = Font::load(&doc, &helvetica("Helvetica")).unwrap();
    assert_eq!(font.cid_metrics(65), (None, whole(1000)));
    assert_eq!(font.cid_glyph_shape(65), None);
}

#[test]
fn to_unicode_wide_resolves_a_two_byte_source_code() {
    let doc = dummy_doc();
    let to_unicode_data =
        b"/CIDInit /ProcSet findresource begin\nbeginbfchar\n<4E2D> <4E2D>\nendbfchar\nend";
    let type0_dict = font_dict(&[
        ("Subtype", name("Type0")),
        ("Encoding", name("Identity-H")),
        ("ToUnicode", stream(to_unicode_data)),
    ]);
    let font = Font::load(&doc, &type0_dict).unwrap();
    assert_eq!(font.cid_metrics(0x4E2D).0, Some('中'));
}

#[test]
fn to_unicode_bfchar_overrides_base_encoding() {
    let doc = dummy_doc();
    let dict = font_dict(&[
        ("Subtype", name("TrueType")),
        ("Encoding", name("WinAnsiEncoding")),
        ("ToUnicode", stream(b"1 beginbfchar\n<41> <0042>\nendbfchar\n")),
    ]);
    let font = Font::load(&doc, &dict).unwrap();
    let (unicode, _) = font.decode_simple(0x41);
    assert_eq!(unicode, Some('B'));
}

#[test]
fn to_unicode_bfrange_with_base_increments_across_the_range() {
    let doc = dummy_doc();
    let dict = font_dict(&[
        ("Subtype", name("TrueType")),
        ("ToUnicode", stream(b"1 beginbfrange\n<01> <03> <0041>\nendbfrange\n")),
    ]);
    let font = Font::load(&doc, &dict).unwrap();
    assert_eq!(font.decode_simple(0x01).0, Some('A'));
    assert_eq!(font.decode_simple(0x02).0, Some('B'));
    assert_eq!(font.decode_simple(0x03).0, Some('C'));
}

#[test]
fn to_unicode_bfrange_with_explicit_array() {
    let doc = dummy_doc();
    let dict = font_dict(&[
        ("Subtype", name("TrueType")),
        ("ToUnicode", stream(b"1 beginbfrange\n<01> <02> [<0058> <0059>]\nendbfrange\n")),
    ]);
    let font = Font::load(&doc, &dict).unwrap();
    assert_eq!(font.decode_simple(0x01).0, Some('X'));
    assert_eq!(font.decode_simple(0x02).0, Some('Y'));
}

#[test]
fn maps_with_several_units_and_with_codes_out_of_range() {
    let wide = parse_to_unicode_cmap_wide(b"beginbfrange <0100> <0102> <D83DDE00> <05> <04> <0041> endbfrange");
    assert_eq!(wide.len(), 3);
    assert_eq!(wide.get(&0x101), Some(&'\u{1F600}'));
    let narrow = parse_to_unicode_cmap(b"beginbfchar <0100> <0041> <10> <D800> <11> <0042> endbfchar");
    assert_eq!(narrow.len(), 1);
    assert_eq!(narrow.get(&0x11), Some(&'B'));
}

#[test]
fn codes_and_characters_of_hexadecimal_strings() {
    assert_eq!(hex_to_code_u32(&[]), 0);
    assert_eq!(hex_to_code_u32(&[1, 2]), 0x102);
    assert_eq!(hex_to_code_u32(&[9, 1, 2, 3, 4]), 0x1020304);
    assert_eq!(hex_to_char(&[0, 0x41, 0, 0x42]), Some('A'));
    assert_eq!(hex_to_char(&[0xD8, 0x3D, 0xDE, 0x00]), Some('\u{1F600}'));
    assert_eq!(hex_to_char(&[0xDE, 0x00]), None);
    assert_eq!(hex_to_char(&[0xD8, 0x3D, 0, 0x41]), None);
    assert_eq!(hex_to_char(&[0x41]), None);
}

#[test]
fn the_name_of_a_font_tells_its_widths() {
    assert_eq!(standard_width_fallback("Courier-Bold"), WidthTable::Courier);
    assert_eq!(standard_width_fallback("ABCDEF+Times-Roman"), WidthTable::TimesRoman);
    assert_eq!(standard_width_fallback("Times-BoldItalic"), WidthTable::TimesBoldItalic);
    assert_eq!(standard_width_fallback("TimesNewRoman,Italic"), WidthTable::TimesItalic);
    assert_eq!(standard_width_fallback("TIMES-BOLD"), WidthTable::TimesBold);
    assert_eq!(standard_width_fallback("Arial-BoldMT"), WidthTable::HelveticaBold);
    assert_eq!(standard_width_fallback("Helvetica-Oblique"), WidthTable::Helvetica);
    assert_eq!(standard_width_fallback("Symbol"), WidthTable::Helvetica);
    assert_eq!(standard_width_fallback("Other-Bold"), WidthTable::Helvetica);
}

#[test]
fn widths_of_the_standard_fonts() {
    assert_eq!(WidthTable::Courier.width(b'i'), Some(600));
    assert_eq!(WidthTable::Courier.width(0xE9), Some(600));
    assert_eq!(WidthTable::Courier.width(0x97), Some(600));
    assert_eq!(WidthTable::Courier.width(5), None);
    assert_eq!(WidthTable::TimesRoman.width(b' '), Some(250));
    assert_eq!(WidthTable::TimesRoman.width(b'~'), Some(541));
    assert_eq!(WidthTable::TimesRoman.width(0xC9), Some(611));
    assert_eq!(WidthTable::TimesBold.width(b'"'), Some(555));
    assert_eq!(WidthTable::Helvetica.width(b'}'), Some(334));
    assert_eq!(WidthTable::HelveticaBold.width(b'~'), Some(584));
    assert_eq!(WidthTable::Helvetica.width(0xDF), Some(611));
    assert_eq!(WidthTable::Helvetica.width(0x81), None);
}

#[test]
fn fonts_of_the_system_stand_in_by_name() {
    assert_eq!(system_family("Helvetica"), (SystemFamily::Helvetica, false, false));
    assert_eq!(system_family("ABCDEF+Arial-BoldMT"), (SystemFamily::Helvetica, true, false));
    assert_eq!(system_family("Times-BoldItalic"), (SystemFamily::Times, true, true));
    assert_eq!(system_family("Courier-Oblique"), (SystemFamily::Courier, false, true));
    assert_eq!(system_family("Symbol"), (SystemFamily::Symbol, false, false));
    assert_eq!(system_family("ZapfDingbats"), (SystemFamily::ZapfDingbats, false, false));
    assert_eq!(system_family("Unknown"), (SystemFamily::Helvetica, false, false));
}

fn be16(n: u16) -> [u8; 2] {
    n.to_be_bytes()
}

fn be32(n: u32) -> [u8; 4] {
    n.to_be_bytes()
}

/// A character map with codes from `first` on.
fn trimmed_map(first: u16, glyphs: &[u16]) -> Vec<u8> {
    let mut t = Vec::new();
    t.extend_from_slice(&be16(6));
    t.extend_from_slice(&be16(10 + 2 * glyphs.len() as u16));
    t.extend_from_slice(&be16(0));
    t.extend_from_slice(&be16(first));
    t.extend_from_slice(&be16(glyphs.len() as u16));
    for g in glyphs {
        t.extend_from_slice(&be16(*g));
    }
    t
}

/// A TrueType face without outlines. Its maps are given by platform.
fn face_tables(maps: &[(u16, u16, Vec<u8>)], bold: bool) -> Vec<([u8; 4], Vec<u8>)> {
    let mut head = vec![0u8; 54];
    head[0..4].copy_from_slice(&be32(0x0001_0000));
    head[12..16].copy_from_slice(&be32(0x5F0F_3CF5));
    head[18..20].copy_from_slice(&be16(1000));
    let mut hhea = vec![0u8; 36];
    hhea[0..4].copy_from_slice(&be32(0x0001_0000));
    let mut maxp = Vec::new();
    maxp.extend_from_slice(&be32(0x0000_5000));
    maxp.extend_from_slice(&be16(100));
    let mut cmap = Vec::new();
    cmap.extend_from_slice(&be16(0));
    cmap.extend_from_slice(&be16(maps.len() as u16));
    let mut offset = 4 + 8 * maps.len() as u32;
    for (platform, encoding, data) in maps {
        cmap.extend_from_slice(&be16(*platform));
        cmap.extend_from_slice(&be16(*encoding));
        cmap.extend_from_slice(&be32(offset));
        offset += data.len() as u32;
    }
    for (_, _, data) in maps {
        cmap.extend_from_slice(data);
    }
    let mut os2 = vec![0u8; 78];
    os2[62..64].copy_from_slice(&be16(if bold { 0x20 } else { 0x40 }));
    vec![(*b"OS/2", os2), (*b"cmap", cmap), (*b"head", head), (*b"hhea", hhea), (*b"maxp", maxp)]
}

/// Faces laid out one behind the other, `start` bytes behind the start of the file.
fn face_bytes(tables: &[([u8; 4], Vec<u8>)], start: usize) -> Vec<u8> {
    let mut out = Vec::new();
    out.extend_from_slice(&be32(0x0001_0000));
    out.extend_from_slice(&be16(tables.len() as u16));
    out.extend_from_slice(&[0; 6]);
    let mut offset = start + 12 + 16 * tables.len();
    for (tag, data) in tables {
        out.extend_from_slice(tag);
        out.extend_from_slice(&be32(0));
        out.extend_from_slice(&be32(offset as u32));
        out.extend_from_slice(&be32(data.len() as u32));
        offset += data.len();
    }
    for (_, data) in tables {
        out.extend_from_slice(data);
    }
    out
}

fn truetype(maps: &[(u16, u16, Vec<u8>)]) -> Vec<u8> {
    face_bytes(&face_tables(maps, false), 0)
}

#[test]
fn glyphs_are_found_by_character_and_otherwise_by_code() {
    let both = truetype(&[(0, 3, trimmed_map(65, &[7])), (1, 0, trimmed_map(65, &[8, 9]))]);
    assert_eq!(simple_glyph(&both, 65, Some('A')), Some(7));
    assert_eq!(simple_glyph(&both, 66, Some('B')), Some(9));
    assert_eq!(simple_glyph(&both, 65, None), Some(8));
    assert_eq!(simple_glyph(&both, 67, Some('C')), None);
    assert_eq!(macintosh_glyph(&both, 65), Some(8));
    let unicode = truetype(&[(0, 3, trimmed_map(65, &[7]))]);
    assert_eq!(macintosh_glyph(&unicode, 65), None);
    assert_eq!(simple_glyph(b"no font", 65, Some('A')), None);
}

#[test]
fn a_map_that_cannot_be_read_ends_the_search() {
    let broken = truetype(&[(3, 1, vec![0, 99]), (1, 0, trimmed_map(65, &[8]))]);
    assert_eq!(macintosh_glyph(&broken, 65), None);
}

#[test]
fn the_face_of_a_collection_is_chosen_by_style() {
    let regular = face_tables(&[(1, 0, trimmed_map(65, &[1]))], false);
    let bold = face_tables(&[(1, 0, trimmed_map(65, &[2]))], true);
    let head_len = 12 + 4 * 2;
    let first = face_bytes(&regular, head_len);
    let second = face_bytes(&bold, head_len + first.len());
    let mut file = Vec::new();
    file.extend_from_slice(b"ttcf");
    file.extend_from_slice(&be32(0x0001_0000));
    file.extend_from_slice(&be32(2));
    file.extend_from_slice(&be32(head_len as u32));
    file.extend_from_slice(&be32((head_len + first.len()) as u32));
    file.extend_from_slice(&first);
    file.extend_from_slice(&second);
    assert_eq!(select_face(&file, false, false), 0);
    assert_eq!(select_face(&file, true, false), 1);
    assert_eq!(select_face(&file, true, true), 0);
    assert_eq!(select_face(&truetype(&[(1, 0, trimmed_map(65, &[1]))]), true, false), 0);
    assert_eq!(select_face(b"", true, false), 0);
}

/// An INDEX of a compact font.
fn index(items: &[&[u8]]) -> Vec<u8> {
    let mut out = be16(items.len() as u16).to_vec();
    if items.is_empty() {
        return out;
    }
    out.push(1);
    let mut at = 1u8;
    out.push(at);
    for i in items {
        at += i.len() as u8;
        out.push(at);
    }
    for i in items {
        out.extend_from_slice(i);
    }
    out
}

/// A number of a compact font in five bytes.
fn number5(n: usize) -> Vec<u8> {
    let mut out = vec![29];
    out.extend_from_slice(&be32(n as u32));
    out
}

/// A compact font with three glyphs; with character identifiers where `cids` are given.
fn compact_font(cids: Option<[u16; 2]>) -> Vec<u8> {
    compact_with(cids, number5)
}

fn compact_with(cids: Option<[u16; 2]>, place: fn(usize) -> Vec<u8>) -> Vec<u8> {
    let mut offsets = [0usize; 4];
    let mut out = Vec::new();
    for _ in 0..2 {
        let mut top = Vec::new();
        if cids.is_some() {
            for _ in 0..3 {
                top.extend_from_slice(&number5(0));
            }
            top.extend_from_slice(&[12, 30]);
            top.extend_from_slice(&number5(offsets[2]));
            top.extend_from_slice(&[12, 36]);
            top.extend_from_slice(&number5(offsets[3]));
            top.extend_from_slice(&[12, 37]);
        }
        top.extend_from_slice(&number5(offsets[1]));
        top.push(15);
        top.extend_from_slice(&place(offsets[0]));
        top.push(17);
        out = vec![1, 0, 4, 1];
        out.extend_from_slice(&index(&[b"F"]));
        out.extend_from_slice(&index(&[&top]));
        out.extend_from_slice(&index(&[]));
        out.extend_from_slice(&index(&[]));
        offsets[0] = out.len();
        out.extend_from_slice(&index(&[&[14], &[14], &[14]]));
        if cids.is_none() {
            offsets[1] = out.len();
            out.extend_from_slice(&[0, 0, 50, 0, 34]);
        }
        if let Some(list) = cids {
            offsets[1] = out.len();
            out.push(0);
            out.extend_from_slice(&be16(list[0]));
            out.extend_from_slice(&be16(list[1]));
            offsets[2] = out.len();
            out.extend_from_slice(&index(&[&[]]));
            offsets[3] = out.len();
            out.extend_from_slice(&[0, 0, 0, 0]);
        }
    }
    out
}

#[test]
fn a_compact_font_maps_its_character_identifiers_to_glyphs() {
    let map = cff_map(&compact_font(Some([70, 900]))).unwrap();
    assert_eq!(map.get(&70), Some(&1));
    assert_eq!(map.get(&900), Some(&2));
    assert_eq!(map.get(&1), None);
    assert_eq!(cff_map(&compact_font(None)).unwrap().len(), 0);
    assert!(cff_map(b"no font").is_none());
}

#[test]
fn of_two_glyphs_with_one_identifier_the_later_counts() {
    let map = invert_cids(&[Some(5), None, Some(5), Some(6)]);
    assert_eq!(map.get(&5), Some(&2));
    assert_eq!(map.get(&6), Some(&3));
    assert_eq!(map.len(), 2);
}

fn with_program(subtype: &str, key: &str, program: Object) -> Dictionary {
    let descriptor = font_dict(&[(key, program)]);
    font_dict(&[
        ("Subtype", name(subtype)),
        ("BaseFont", name("ABCDEF+Some")),
        ("FontDescriptor", Object::Dictionary(descriptor)),
    ])
}

#[test]
fn what_draws_a_code_depends_on_the_program() {
    let doc = dummy_doc();
    let data = truetype(&[(0, 3, trimmed_map(65, &[7]))]);
    let font = Font::load(&doc, &with_program("TrueType", "FontFile2", stream(&data))).unwrap();
    assert_eq!(font.glyph_shape(65, Some('A')), Some(GlyphShape::TrueType(7)));
    assert_eq!(font.glyph_shape(66, Some('B')), None);
    assert_eq!(font.truetype().unwrap(), data.as_slice());
    assert!(font.cff().is_none());

    let font = Font::load(&doc, &with_program("Type1", "FontFile3", stream(&compact_font(None)))).unwrap();
    assert_eq!(font.glyph_shape(65, None), Some(GlyphShape::Cff(2)));
    assert!(font.truetype().is_none());

    let mut open_type = Stream { dict: Dictionary::new(), raw_data: data };
    open_type.dict.insert("Subtype", name("OpenType"));
    let font = Font::load(&doc, &with_program("Type1", "FontFile3", Object::Stream(open_type))).unwrap();
    assert_eq!(font.glyph_shape(65, Some('A')), Some(GlyphShape::TrueType(7)));

    let font = Font::load(&doc, &helvetica("Helvetica")).unwrap();
    assert_eq!(font.glyph_shape(65, Some('A')), Some(GlyphShape::System('A')));
    assert_eq!(font.glyph_shape(65, None), None);
    assert_eq!(font.base_font(), "Helvetica");
}

#[test]
fn what_draws_a_character_identifier_depends_on_the_descendant() {
    let doc = dummy_doc();
    let data = truetype(&[(0, 3, trimmed_map(65, &[7]))]);
    let composite = |descendant: Dictionary| {
        font_dict(&[
            ("Subtype", name("Type0")),
            ("DescendantFonts", Object::Array(vec![Object::Dictionary(descendant)])),
        ])
    };
    let plain = with_program("CIDFontType2", "FontFile2", stream(&data));
    let font = Font::load(&doc, &composite(plain.clone())).unwrap();
    assert_eq!(font.cid_glyph_shape(9), Some(GlyphShape::TrueType(9)));
    assert_eq!(font.cid_glyph_shape(0x1_0000), None);

    let mut mapped = plain;
    mapped.insert("CIDToGIDMap", stream(&[0, 3, 0, 7]));
    let font = Font::load(&doc, &composite(mapped)).unwrap();
    assert_eq!(font.cid_glyph_shape(1), Some(GlyphShape::TrueType(7)));
    assert_eq!(font.cid_glyph_shape(2), None);

    let compact = with_program("CIDFontType0", "FontFile3", stream(&compact_font(Some([70, 900]))));
    let font = Font::load(&doc, &composite(compact)).unwrap();
    assert_eq!(font.cid_glyph_shape(900), Some(GlyphShape::Cff(2)));
    assert_eq!(font.cid_glyph_shape(2), None);

    let none = font_dict(&[("Subtype", name("CIDFontType2"))]);
    let font = Font::load(&doc, &composite(none)).unwrap();
    assert_eq!(font.cid_glyph_shape(9), None);
}

/// A composite font whose map leads one identifier to the glyph of a letter draws what the simple
/// font with the same program draws.
#[test]
fn composite_truetype_font_resolves_cid_via_explicit_cidtogidmap() {
    let doc = dummy_doc();
    let data = truetype(&[(1, 0, trimmed_map(65, &[36]))]);
    let simple = with_program("TrueType", "FontFile2", stream(&data));
    let gid_a = simple_glyph(&data, b'A', Some('A')).unwrap();
    let mut cid_to_gid_bytes = vec![0u8; 20];
    cid_to_gid_bytes[9 * 2] = (gid_a >> 8) as u8;
    cid_to_gid_bytes[9 * 2 + 1] = (gid_a & 0xff) as u8;
    let cid_font_dict = font_dict(&[
        ("Subtype", name("CIDFontType2")),
        ("FontDescriptor", simple.get("FontDescriptor").unwrap().clone()),
        ("DW", Object::Integer(1000)),
        (
            "W",
            Object::Array(vec![Object::Integer(9), Object::Array(vec![Object::Integer(600)])]),
        ),
        ("CIDToGIDMap", stream(&cid_to_gid_bytes)),
    ]);
    let to_unicode_data =
        b"/CIDInit /ProcSet findresource begin\nbeginbfchar\n<0009> <0041>\nendbfchar\nend";
    let type0_dict = font_dict(&[
        ("Subtype", name("Type0")),
        ("Encoding", name("Identity-H")),
        ("DescendantFonts", Object::Array(vec![Object::Dictionary(cid_font_dict)])),
        ("ToUnicode", stream(to_unicode_data)),
    ]);
    let font = Font::load(&doc, &type0_dict).unwrap();
    assert!(font.is_composite());
    let (unicode, width) = font.cid_metrics(9);
    assert_eq!(unicode, Some('A'));
    assert_eq!(width, whole(600));
    let shape = font.cid_glyph_shape(9).unwrap();
    let simple_font = Font::load(&doc, &simple).unwrap();
    assert_eq!(Some(shape), simple_font.glyph_shape(b'A', Some('A')));
}

#[test]
fn a_collection_that_does_not_hold_its_places_has_no_faces() {
    let file = [0x74, 0x74, 0x63, 0x66, 0, 1, 0, 0, 0xFF, 0xFF, 0xFF, 0xFF];
    assert_eq!(face_glyph(&file, 0, 'A'), None);
    assert_eq!(macintosh_glyph(&file, 65), None);
    assert_eq!(face_bold(&file, 0), None);
    assert_eq!(face_italic(&file, 0), None);
}

#[test]
fn groups_of_a_map_that_end_too_far_away_are_not_read() {
    for (format, at) in [(10u16, 16usize), (12, 12), (13, 12), (14, 6)] {
        let mut map = vec![0; 24];
        map[..2].copy_from_slice(&be16(format));
        map[at..at + 4].copy_from_slice(&[0xFF; 4]);
        let font = truetype(&[(0, 3, map.clone()), (1, 0, trimmed_map(65, &[8]))]);
        assert_eq!(simple_glyph(&font, 65, Some('A')), None);
        let maps = [(0, 3, trimmed_map(65, &[7])), (1, 0, trimmed_map(65, &[8])), (0, 4, map)];
        let font = truetype(&maps);
        assert_eq!(face_glyph(&font, 0, 'A'), Some(7));
        assert_eq!(face_glyph(&font, 0, 'B'), None);
        assert_eq!(macintosh_glyph(&font, 65), Some(8));
    }
    let mut groups = vec![0, 12, 0, 0, 0, 0, 0, 28, 0, 0, 0, 0, 0, 0, 0, 1];
    groups.extend_from_slice(&be32(65));
    groups.extend_from_slice(&be32(70));
    groups.extend_from_slice(&be32(3));
    let font = truetype(&[(0, 4, groups)]);
    assert_eq!(face_glyph(&font, 0, 'B'), Some(4));
    assert_eq!(face_glyph(&font, 1, 'B'), None);
    assert_eq!((face_bold(&font, 0), face_italic(&font, 0)), (Some(false), Some(false)));
}

#[test]
fn a_table_outside_the_file_is_missing() {
    let font = truetype(&[(0, 3, trimmed_map(65, &[7]))]);
    assert_eq!(face_glyph(&font, 0, 'A'), Some(7));
    assert_eq!(face_glyph(&font[..font.len() - 60], 0, 'A'), None);
}

#[test]
fn a_compact_font_with_a_part_outside_itself_has_no_glyphs() {
    let font = compact_font(None);
    assert_eq!(cff_glyph(&font, 65), Some(2));
    let outside = [1, 0, 4, 1, 0, 0, 0, 1, 4, 0, 0, 0, 1, 0xFF, 0xFF, 0xFF, 0xFF];
    assert_eq!(cff_glyph(&outside, 65), None);
    assert!(cff_map(&outside).is_none());
    for cut in 1..font.len() {
        assert_eq!(cff_glyph(&font[..font.len() - cut], 66), None);
    }
}

#[test]
fn wide_and_narrow_maps_agree_on_codes_of_one_byte() {
    let small = b"2 beginbfchar <41> <0061> <0042> <0062> endbfchar
        1 beginbfrange <50> <52> <0070> endbfrange 1 beginbfrange <60> <61> [<0078> <0079>] endbfrange";
    let wide = parse_to_unicode_cmap_wide(small);
    assert_eq!(wide, parse_to_unicode_cmap(small));
    assert_eq!(wide.len(), 7);
    let large = b"1 beginbfchar <0141> <0061> endbfchar";
    assert_eq!(parse_to_unicode_cmap(large).len(), 0);
    assert_eq!(parse_to_unicode_cmap_wide(large).get(&0x141), Some(&'a'));
}

/// A number of a compact font with a point, from the half bytes given behind its four digits.
fn with_point(n: usize, rest: &[u8]) -> Vec<u8> {
    let mut halves: Vec<u8> = format!("{n:04}").bytes().map(|b| b - 48).collect();
    halves.extend_from_slice(rest);
    halves.push(15);
    if halves.len() % 2 == 1 {
        halves.push(15);
    }
    let mut out = vec![30];
    out.extend(halves.chunks(2).map(|c| c[0] * 16 + c[1]));
    out
}

#[test]
fn places_of_a_compact_font_can_be_written_with_a_point() {
    let exact: fn(usize) -> Vec<u8> = |n| with_point(n, &[]);
    let cut: fn(usize) -> Vec<u8> = |n| with_point(n, &[10, 9, 9]);
    let shifted: fn(usize) -> Vec<u8> = |n| with_point(n, &[0, 0, 12, 2]);
    let raised: fn(usize) -> Vec<u8> =
        |n| with_point(n.saturating_sub(1), &[10, 9, 9, 9, 9, 9, 9, 9, 9, 9, 9, 9, 9, 9, 9, 9, 9, 9, 9, 9]);
    for place in [exact, cut, shifted, raised] {
        assert_eq!(cff_glyph(&compact_with(None, place), 65), Some(2));
    }
    let wrong: fn(usize) -> Vec<u8> = |n| with_point(n, &[11]);
    let other: fn(usize) -> Vec<u8> = |n| with_point(n, &[13]);
    for place in [wrong, other] {
        assert_eq!(cff_glyph(&compact_with(None, place), 65), None);
    }
}
