//! Which glyphs are found for codes and characters, and how maps to Unicode are read.
use vstd::prelude::*;
use crate::cmap::{blocks_from, chars_from, code_number, listed_from, ranges_from, with_char, with_range, CodeMap};
use crate::encoding::win_ansi_char;
use crate::face_tables::map_fits;
use crate::faces::{by_cid, face_bold_of, face_for, face_from, face_glyph_of, face_italic_of, macintosh_from, macintosh_glyph_of, simple_glyph_of, tables_code_of, tables_platform_of, tables_unicode_of, unicode_from, collection_size_of, cff_glyph_of, FontPlatform};
use crate::font::{FontModel, GlyphShape};
use crate::lexer::{lex, Lexed, TokenModel};
use crate::text::be_units;
use crate::widths::{begins, family_by_name, plain_name, SystemFamily};

verus! {

/// A pair of strings in a map gives the code of the first the character of the second, and the next
/// pair is read behind it; what is no string ends the pairs.
pub proof fn pairs_of_a_map_are_read(d: Seq<u8>, p: int, q: int, r: int, m: CodeMap, wide: bool, src: Seq<u8>, dst: Seq<u8>, t: TokenModel)
    requires
        0 <= p <= d.len(),
    ensures
        lex(d, p) == Lexed::Token(TokenModel::HexString(src), q) && lex(d, q) == Lexed::Token(
            TokenModel::HexString(dst),
            r,
        ) ==> chars_from(d, p, m, wide) == chars_from(
            d,
            r,
            with_char(m, code_number(src), dst, wide),
            wide,
        ),
        lex(d, p) == Lexed::Token(t, q) && !(t is HexString) ==> chars_from(d, p, m, wide) == (m, q),
{
}

/// A range of a map with one string gives its codes the characters from that one on, and the next
/// range is read behind it.
pub proof fn ranges_of_a_map_are_read(
    d: Seq<u8>,
    p: int,
    q: int,
    r: int,
    s: int,
    m: CodeMap,
    lo: Seq<u8>,
    hi: Seq<u8>,
    base: Seq<u8>,
)
    requires
        0 <= p <= d.len(),
        lex(d, p) == Lexed::Token(TokenModel::HexString(lo), q),
        lex(d, q) == Lexed::Token(TokenModel::HexString(hi), r),
        lex(d, r) == Lexed::Token(TokenModel::HexString(base), s),
    ensures
        ranges_from(d, p, m, true) == ranges_from(
            d,
            s,
            with_range(m, code_number(lo), code_number(hi) as int, be_units(base)),
            true,
        ),
{
}

/// In the array of a range each code takes the next string, up to the last code.
pub proof fn array_of_a_range_is_read(d: Seq<u8>, p: int, q: int, m: CodeMap, code: int, hi: u32, wide: bool, dst: Seq<u8>)
    requires
        0 <= code,
        lex(d, p) == Lexed::Token(TokenModel::HexString(dst), q),
    ensures
        code <= hi ==> listed_from(d, p, m, code, hi, wide) == listed_from(
            d,
            q,
            with_char(m, code as u32, dst, wide),
            code + 1,
            hi,
            wide,
        ),
        code > hi ==> listed_from(d, p, m, code, hi, wide) == (m, p),
{
}

/// The blocks of a map start with their words; other words are passed over.
pub proof fn blocks_of_a_map_are_read(d: Seq<u8>, p: int, q: int, m: CodeMap, wide: bool, word: Seq<char>)
    requires
        0 <= p <= d.len(),
        lex(d, p) == Lexed::Token(TokenModel::Keyword(word), q),
    ensures
        word == "beginbfchar"@ ==> blocks_from(d, p, m, wide) == blocks_from(
            d,
            chars_from(d, q, m, wide).1,
            chars_from(d, q, m, wide).0,
            wide,
        ),
        word == "beginbfrange"@ ==> blocks_from(d, p, m, wide) == blocks_from(
            d,
            ranges_from(d, q, m, wide).1,
            ranges_from(d, q, m, wide).0,
            wide,
        ),
        word != "beginbfchar"@ && word != "beginbfrange"@ ==> blocks_from(d, p, m, wide)
            == blocks_from(d, q, m, wide),
{
    reveal_strlit("beginbfchar");
    reveal_strlit("beginbfrange");
    assert("beginbfchar"@.len() == 11 && "beginbfrange"@.len() == 12);
}

/// No two codes of the encoding of Windows mean the same character, and those that Latin-1 has for
/// control characters mean characters beyond it.
pub proof fn codes_of_windows_differ(a: int, b: int)
    requires
        0 <= a < 256,
        0 <= b < 256,
        win_ansi_char(a) is Some,
    ensures
        win_ansi_char(a) == win_ansi_char(b) ==> a == b,
        0x80 <= a < 0xA0 ==> win_ansi_char(a)->0 as u32 > 0xFF,
        a >= 0x20,
        a != 0x7F,
{
}

/// A character has the glyph of the first map of Unicode that has one for it.
pub proof fn first_map_of_unicode_counts(
    head: Seq<u8>,
    hhea: Seq<u8>,
    maxp: Seq<u8>,
    cmap: Seq<u8>,
    i: int,
    k: int,
    c: char,
)
    requires
        0 <= i <= k <= 0xFFFF,
        forall|j: int| i <= j <= k ==> #[trigger] map_fits(cmap, j),
        forall|j: int|
            i <= j < k ==> (#[trigger] tables_unicode_of(head, hhea, maxp, cmap, j as u16)) == Some(false)
                || (tables_unicode_of(head, hhea, maxp, cmap, j as u16) == Some(true)
                && tables_code_of(head, hhea, maxp, cmap, j as u16, c as u32) is None),
        tables_unicode_of(head, hhea, maxp, cmap, k as u16) == Some(true),
        tables_code_of(head, hhea, maxp, cmap, k as u16, c as u32) is Some,
    ensures
        unicode_from(head, hhea, maxp, cmap, i, c) == tables_code_of(
            head,
            hhea,
            maxp,
            cmap,
            k as u16,
            c as u32,
        ),
    decreases k - i,
{
    assert(map_fits(cmap, i));
    if i < k {
        assert(tables_unicode_of(head, hhea, maxp, cmap, i as u16) is Some);
        first_map_of_unicode_counts(head, hhea, maxp, cmap, i + 1, k, c);
    }
}

/// The map of the Macintosh is the first with its platform.
pub proof fn first_map_of_the_macintosh_counts(
    head: Seq<u8>,
    hhea: Seq<u8>,
    maxp: Seq<u8>,
    cmap: Seq<u8>,
    i: int,
    k: int,
)
    requires
        0 <= i <= k <= 0xFFFF,
        forall|j: int| i <= j <= k ==> #[trigger] map_fits(cmap, j),
        forall|j: int|
            i <= j < k ==> (#[trigger] tables_platform_of(head, hhea, maxp, cmap, j as u16)) is Some
                && tables_platform_of(head, hhea, maxp, cmap, j as u16) != Some(FontPlatform::Macintosh),
        tables_platform_of(head, hhea, maxp, cmap, k as u16) == Some(FontPlatform::Macintosh),
    ensures
        macintosh_from(head, hhea, maxp, cmap, i) == Some(k as u16),
    decreases k - i,
{
    assert(map_fits(cmap, i));
    if i < k {
        assert(tables_platform_of(head, hhea, maxp, cmap, i as u16) is Some);
        first_map_of_the_macintosh_counts(head, hhea, maxp, cmap, i + 1, k);
    }
}

/// A code of a simple font has the glyph of its character, and where that is not known or has none
/// the glyph that the map of the Macintosh has for the code.
pub proof fn character_goes_before_code(data: Seq<u8>, code: u8, c: char)
    ensures
        face_glyph_of(data, 0, c) is Some ==> simple_glyph_of(data, code, Some(c)) == face_glyph_of(
            data,
            0,
            c,
        ),
        face_glyph_of(data, 0, c) is None ==> simple_glyph_of(data, code, Some(c)) == macintosh_glyph_of(
            data,
            code as u32,
        ),
        simple_glyph_of(data, code, None) == macintosh_glyph_of(data, code as u32),
{
}

/// A glyph is taken from the program of its font, a TrueType one first; without any from a font of
/// the system, by its character.
pub proof fn shapes_come_from_the_program(f: FontModel, code: u8, c: char, data: Seq<u8>)
    ensures
        f.truetype == Some(data) && simple_glyph_of(data, code, Some(c)) is Some ==> f.shape(code, Some(c))
            == Some(GlyphShape::TrueType(simple_glyph_of(data, code, Some(c))->0)),
        f.truetype is None && f.cff == Some(data) && cff_glyph_of(data, code) is Some ==> f.shape(
            code,
            Some(c),
        ) == Some(GlyphShape::Cff(cff_glyph_of(data, code)->0)),
        f.truetype is None && f.cff is None && !f.composite() ==> f.shape(code, Some(c)) == Some(
            GlyphShape::System(c),
        ),
        f.truetype is None && f.cff is None ==> f.shape(code, None) is None,
{
}

/// The glyph with an identifier is the last that has it.
pub proof fn last_glyph_with_the_identifier(cids: Seq<Option<u16>>, n: nat, k: int, cid: u16)
    requires
        n <= cids.len(),
        n <= 0x1_0000,
        0 <= k < n,
        cids[k] == Some(cid),
        forall|j: int| k < j < n ==> #[trigger] cids[j] != Some(cid),
    ensures
        by_cid(cids, n).contains_key(cid as u32),
        by_cid(cids, n)[cid as u32] == k,
    decreases n,
{
    if k < n - 1 {
        assert(cids[n - 1] != Some(cid));
        last_glyph_with_the_identifier(cids, (n - 1) as nat, k, cid);
    }
}

/// An identifier that no glyph has is not found.
pub proof fn no_glyph_with_the_identifier(cids: Seq<Option<u16>>, n: nat, cid: u32)
    requires
        n <= cids.len(),
        forall|j: int| 0 <= j < n && (#[trigger] cids[j]) is Some ==> cids[j]->0 as u32 != cid,
    ensures
        !by_cid(cids, n).contains_key(cid),
    decreases n,
{
    if n > 0 {
        no_glyph_with_the_identifier(cids, (n - 1) as nat, cid);
    }
}

/// The face is the first with the style.
pub proof fn first_face_with_the_style(data: Seq<u8>, count: u32, i: int, k: int, bold: bool, italic: bool)
    requires
        0 <= i <= k < count,
        face_bold_of(data, k as u32) == Some(bold),
        face_italic_of(data, k as u32) == Some(italic),
        forall|j: int|
            i <= j < k ==> (#[trigger] face_bold_of(data, j as u32)) != Some(bold) || face_italic_of(
                data,
                j as u32,
            ) != Some(italic),
    ensures
        face_from(data, count, i, bold, italic) == k,
    decreases k - i,
{
    if i < k {
        assert(face_bold_of(data, i as u32) != Some(bold) || face_italic_of(data, i as u32) != Some(
            italic,
        ));
        first_face_with_the_style(data, count, i + 1, k, bold, italic);
    }
}

/// Where no face has the style it is the first of all; a file that is no collection has one face.
pub proof fn first_face_without_the_style(data: Seq<u8>, count: u32, i: int, bold: bool, italic: bool)
    requires
        0 <= i,
        forall|j: int|
            i <= j < count ==> (#[trigger] face_bold_of(data, j as u32)) != Some(bold) || face_italic_of(
                data,
                j as u32,
            ) != Some(italic),
    ensures
        face_from(data, count, i, bold, italic) == 0,
        collection_size_of(data) is None ==> face_for(data, bold, italic) == 0,
    decreases count - i,
{
    if i < count {
        assert(face_bold_of(data, i as u32) != Some(bold) || face_italic_of(data, i as u32) != Some(
            italic,
        ));
        first_face_without_the_style(data, count, i + 1, bold, italic);
    }
    reveal_with_fuel(face_from, 2);
}

/// The family that stands in goes by how the name starts.
pub proof fn family_goes_by_the_name(base_font: Seq<char>)
    ensures
        ({
            let name = plain_name(base_font);
            let sans = begins(name, "helvetica"@) || begins(name, "arial"@);
            let family = family_by_name(base_font);
            &&& sans ==> family == SystemFamily::Helvetica
            &&& !sans ==> (family == SystemFamily::Times <==> begins(name, "times"@))
            &&& !sans && !begins(name, "times"@) ==> (family == SystemFamily::Courier <==> begins(
                name,
                "courier"@,
            ))
            &&& !sans && !begins(name, "times"@) && !begins(name, "courier"@) ==> (family
                == SystemFamily::Symbol <==> begins(name, "symbol"@))
            &&& !sans && !begins(name, "times"@) && !begins(name, "courier"@) && !begins(
                name,
                "symbol"@,
            ) ==> (family == SystemFamily::ZapfDingbats <==> begins(name, "zapf"@))
        }),
{
}

} // verus!
