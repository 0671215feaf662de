//! Character encodings of simple fonts, and the names of glyphs.
use vstd::prelude::*;
use vstd::slice::slice_subrange;
use vstd::utf8::{encode_utf8, is_scalar};
use crate::lexer::{hex_digit, hex_val};
use crate::text::{char_of, same_text};

verus! {

/// The characters of ASCII that can be printed.
pub open spec fn ascii_char(code: int) -> Option<char> {
    if 0x20 <= code < 0x7F {
        Some(code as char)
    } else {
        None
    }
}

/// `StandardEncoding`: ASCII, with curved quotation marks for the straight ones.
pub open spec fn standard_char(code: int) -> Option<char> {
    if code == 0x27 {
        Some('\u{2019}')
    } else if code == 0x60 {
        Some('\u{2018}')
    } else {
        ascii_char(code)
    }
}

/// What Windows-1252 has in the place of control characters.
pub open spec fn win_extra(code: int) -> Option<char> {
    if code == 0x80 {
        Some('\u{20AC}')
    } else if code == 0x82 {
        Some('\u{201A}')
    } else if code == 0x83 {
        Some('\u{0192}')
    } else if code == 0x84 {
        Some('\u{201E}')
    } else if code == 0x85 {
        Some('\u{2026}')
    } else if code == 0x86 {
        Some('\u{2020}')
    } else if code == 0x87 {
        Some('\u{2021}')
    } else if code == 0x88 {
        Some('\u{02C6}')
    } else if code == 0x89 {
        Some('\u{2030}')
    } else if code == 0x8A {
        Some('\u{0160}')
    } else if code == 0x8B {
        Some('\u{2039}')
    } else if code == 0x8C {
        Some('\u{0152}')
    } else if code == 0x8E {
        Some('\u{017D}')
    } else if code == 0x91 {
        Some('\u{2018}')
    } else if code == 0x92 {
        Some('\u{2019}')
    } else if code == 0x93 {
        Some('\u{201C}')
    } else if code == 0x94 {
        Some('\u{201D}')
    } else if code == 0x95 {
        Some('\u{2022}')
    } else if code == 0x96 {
        Some('\u{2013}')
    } else if code == 0x97 {
        Some('\u{2014}')
    } else if code == 0x98 {
        Some('\u{02DC}')
    } else if code == 0x99 {
        Some('\u{2122}')
    } else if code == 0x9A {
        Some('\u{0161}')
    } else if code == 0x9B {
        Some('\u{203A}')
    } else if code == 0x9C {
        Some('\u{0153}')
    } else if code == 0x9E {
        Some('\u{017E}')
    } else if code == 0x9F {
        Some('\u{0178}')
    } else {
        None
    }
}

/// `WinAnsiEncoding`: Windows-1252.
pub open spec fn win_ansi_char(code: int) -> Option<char> {
    if 0x80 <= code < 0xA0 {
        win_extra(code)
    } else if 0xA0 <= code <= 0xFF {
        Some(code as char)
    } else {
        ascii_char(code)
    }
}

/// A table of 256 characters.
pub type CharTable = Vec<Option<char>>;

fn latin_char(code: u8) -> (r: char)
    ensures
        r == code as char,
{
    code as char
}

pub fn ascii_table() -> (r: CharTable)
    ensures
        r@.len() == 256,
        forall|i: int| 0 <= i < 256 ==> #[trigger] r@[i] == ascii_char(i),
{
    let mut r: CharTable = Vec::new();
    let mut i: usize = 0;
    while i < 256
        invariant
            0 <= i <= 256,
            r@.len() == i,
            forall|j: int| 0 <= j < i ==> #[trigger] r@[j] == ascii_char(j),
        decreases 256 - i,
    {
        if 0x20 <= i && i < 0x7F {
            r.push(Some(latin_char(i as u8)));
        } else {
            r.push(None);
        }
        i += 1;
    }
    r
}

/// The table of `StandardEncoding`.
pub fn build_standard_encoding() -> (r: CharTable)
    ensures
        r@.len() == 256,
        forall|i: int| 0 <= i < 256 ==> #[trigger] r@[i] == standard_char(i),
{
    let mut r = ascii_table();
    r.set(0x27, Some('\u{2019}'));
    r.set(0x60, Some('\u{2018}'));
    r
}

fn win_extra_char(code: u8) -> (r: Option<char>)
    ensures
        r == win_extra(code as int),
{
    match code {
        0x80 => Some('\u{20AC}'),
        0x82 => Some('\u{201A}'),
        0x83 => Some('\u{0192}'),
        0x84 => Some('\u{201E}'),
        0x85 => Some('\u{2026}'),
        0x86 => Some('\u{2020}'),
        0x87 => Some('\u{2021}'),
        0x88 => Some('\u{02C6}'),
        0x89 => Some('\u{2030}'),
        0x8A => Some('\u{0160}'),
        0x8B => Some('\u{2039}'),
        0x8C => Some('\u{0152}'),
        0x8E => Some('\u{017D}'),
        0x91 => Some('\u{2018}'),
        0x92 => Some('\u{2019}'),
        0x93 => Some('\u{201C}'),
        0x94 => Some('\u{201D}'),
        0x95 => Some('\u{2022}'),
        0x96 => Some('\u{2013}'),
        0x97 => Some('\u{2014}'),
        0x98 => Some('\u{02DC}'),
        0x99 => Some('\u{2122}'),
        0x9A => Some('\u{0161}'),
        0x9B => Some('\u{203A}'),
        0x9C => Some('\u{0153}'),
        0x9E => Some('\u{017E}'),
        0x9F => Some('\u{0178}'),
        _ => None,
    }
}

/// The table of `WinAnsiEncoding`.
pub fn build_win_ansi_encoding() -> (r: CharTable)
    ensures
        r@.len() == 256,
        forall|i: int| 0 <= i < 256 ==> #[trigger] r@[i] == win_ansi_char(i),
{
    let mut r = ascii_table();
    let mut i: usize = 0x80;
    while i < 256
        invariant
            0x80 <= i <= 256,
            r@.len() == 256,
            forall|j: int| 0 <= j < i ==> #[trigger] r@[j] == win_ansi_char(j),
            forall|j: int| 0 <= j < 0x80 ==> #[trigger] r@[j] == ascii_char(j),
        decreases 256 - i,
    {
        if i < 0xA0 {
            r.set(i, win_extra_char(i as u8));
        } else {
            r.set(i, Some(latin_char(i as u8)));
        }
        i += 1;
    }
    r
}

/// The number that hexadecimal digits write, behind a value.
pub open spec fn hex_number(s: Seq<u8>, acc: nat) -> Option<nat>
    decreases s.len(),
{
    if s.len() == 0 {
        Some(acc)
    } else {
        match hex_digit(s[0]) {
            Some(v) => hex_number(s.drop_first(), acc * 16 + v as nat),
            None => None,
        }
    }
}

/// A hexadecimal number of 32 bits; a plus sign may stand before it.
pub open spec fn hex_u32(s: Seq<u8>) -> Option<u32> {
    let digits = if s.len() > 0 && s[0] == 43 {
        s.drop_first()
    } else {
        s
    };
    match hex_number(digits, 0) {
        Some(n) => if digits.len() > 0 && n <= u32::MAX {
            Some(n as u32)
        } else {
            None
        },
        None => None,
    }
}

pub open spec fn all_hex(s: Seq<u8>) -> bool {
    forall|i: int| 0 <= i < s.len() ==> hex_digit(#[trigger] s[i]) is Some
}

/// The character with a number, where there is one.
pub open spec fn scalar_char(n: u32) -> Option<char> {
    if is_scalar(n) {
        Some(n as char)
    } else {
        None
    }
}

/// The names that glyphs have.
pub open spec fn listed_glyph(name: Seq<char>) -> Option<char> {
    if name == "space"@ {
        Some(' ')
    } else if name == "exclam"@ {
        Some('!')
    } else if name == "quotedbl"@ {
        Some('"')
    } else if name == "numbersign"@ {
        Some('#')
    } else if name == "dollar"@ {
        Some('$')
    } else if name == "percent"@ {
        Some('%')
    } else if name == "ampersand"@ {
        Some('&')
    } else if name == "quotesingle"@ || name == "quoteright"@ {
        Some('\'')
    } else if name == "parenleft"@ {
        Some('(')
    } else if name == "parenright"@ {
        Some(')')
    } else if name == "asterisk"@ {
        Some('*')
    } else if name == "plus"@ {
        Some('+')
    } else if name == "comma"@ {
        Some(',')
    } else if name == "hyphen"@ || name == "minus"@ {
        Some('-')
    } else if name == "period"@ {
        Some('.')
    } else if name == "slash"@ {
        Some('/')
    } else if name == "zero"@ {
        Some('0')
    } else if name == "one"@ {
        Some('1')
    } else if name == "two"@ {
        Some('2')
    } else if name == "three"@ {
        Some('3')
    } else if name == "four"@ {
        Some('4')
    } else if name == "five"@ {
        Some('5')
    } else if name == "six"@ {
        Some('6')
    } else if name == "seven"@ {
        Some('7')
    } else if name == "eight"@ {
        Some('8')
    } else if name == "nine"@ {
        Some('9')
    } else if name == "colon"@ {
        Some(':')
    } else if name == "semicolon"@ {
        Some(';')
    } else if name == "less"@ {
        Some('<')
    } else if name == "equal"@ {
        Some('=')
    } else if name == "greater"@ {
        Some('>')
    } else if name == "question"@ {
        Some('?')
    } else if name == "at"@ {
        Some('@')
    } else if name == "bracketleft"@ {
        Some('[')
    } else if name == "backslash"@ {
        Some('\\')
    } else if name == "bracketright"@ {
        Some(']')
    } else if name == "asciicircum"@ {
        Some('^')
    } else if name == "underscore"@ {
        Some('_')
    } else if name == "grave"@ || name == "quoteleft"@ {
        Some('`')
    } else if name == "braceleft"@ {
        Some('{')
    } else if name == "bar"@ {
        Some('|')
    } else if name == "braceright"@ {
        Some('}')
    } else if name == "asciitilde"@ {
        Some('~')
    } else if name == "eacute"@ {
        Some('\u{00E9}')
    } else if name == "egrave"@ {
        Some('\u{00E8}')
    } else if name == "ecirc"@ {
        Some('\u{00EA}')
    } else if name == "edieresis"@ {
        Some('\u{00EB}')
    } else if name == "agrave"@ {
        Some('\u{00E0}')
    } else if name == "acircumflex"@ {
        Some('\u{00E2}')
    } else if name == "adieresis"@ {
        Some('\u{00E4}')
    } else if name == "ccedilla"@ {
        Some('\u{00E7}')
    } else if name == "ntilde"@ {
        Some('\u{00F1}')
    } else if name == "ograve"@ {
        Some('\u{00F2}')
    } else if name == "ocircumflex"@ {
        Some('\u{00F4}')
    } else if name == "odieresis"@ {
        Some('\u{00F6}')
    } else if name == "ugrave"@ {
        Some('\u{00F9}')
    } else if name == "ucircumflex"@ {
        Some('\u{00FB}')
    } else if name == "udieresis"@ {
        Some('\u{00FC}')
    } else if name == "Eacute"@ {
        Some('\u{00C9}')
    } else if name == "Egrave"@ {
        Some('\u{00C8}')
    } else if name == "Agrave"@ {
        Some('\u{00C0}')
    } else if name == "Ccedilla"@ {
        Some('\u{00C7}')
    } else if name == "Ntilde"@ {
        Some('\u{00D1}')
    } else {
        None
    }
}

/// The character that the name of a glyph means: `uni` and a hexadecimal number, `u` and at least
/// four hexadecimal digits, a listed name, or one letter.
pub open spec fn glyph_char(name: Seq<char>) -> Option<char> {
    let b = encode_utf8(name);
    let after_uni = if b.len() >= 3 && b[0] == 117 && b[1] == 110 && b[2] == 105 {
        hex_u32(b.skip(3))
    } else {
        None
    };
    let after_u = if b.len() >= 5 && b[0] == 117 && all_hex(b.skip(1)) {
        hex_u32(b.skip(1))
    } else {
        None
    };
    if after_uni is Some {
        scalar_char(after_uni->Some_0)
    } else if after_u is Some {
        scalar_char(after_u->Some_0)
    } else if listed_glyph(name) is Some {
        listed_glyph(name)
    } else if b.len() == 1 {
        Some(b[0] as char)
    } else {
        None
    }
}

proof fn hex_number_grows(s: Seq<u8>, acc: nat)
    ensures
        hex_number(s, acc) is Some ==> hex_number(s, acc)->Some_0 >= acc,
        all_hex(s) <==> hex_number(s, acc) is Some,
    decreases s.len(),
{
    if s.len() > 0 {
        let rest = s.drop_first();
        match hex_digit(s[0]) {
            Some(v) => {
                hex_number_grows(rest, acc * 16 + v as nat);
                assert(all_hex(s) <==> all_hex(rest)) by {
                    if all_hex(rest) {
                        assert forall|i: int| 0 <= i < s.len() implies hex_digit(
                            #[trigger] s[i],
                        ) is Some by {
                            if i > 0 {
                                assert(rest[i - 1] == s[i]);
                            }
                        }
                    }
                    if all_hex(s) {
                        assert forall|i: int| 0 <= i < rest.len() implies hex_digit(
                            #[trigger] rest[i],
                        ) is Some by {
                            assert(s[i + 1] == rest[i]);
                        }
                    }
                }
            },
            None => {
                assert(!all_hex(s)) by {
                    assert(hex_digit(s[0]) is None);
                }
            },
        }
    }
}

/// Reads a hexadecimal number of 32 bits.
pub fn parse_hex_u32(s: &[u8]) -> (r: Option<u32>)
    ensures
        r == hex_u32(s@),
{
    let digits = if s.len() > 0 && s[0] == 43 {
        let d = slice_subrange(s, 1, s.len());
        assert(d@ =~= s@.drop_first());
        d
    } else {
        s
    };
    if digits.len() == 0 {
        return None;
    }
    let mut value: u64 = 0;
    let mut i: usize = 0;
    assert(digits@.skip(0) =~= digits@);
    while i < digits.len()
        invariant
            0 <= i <= digits@.len(),
            digits@.len() > 0,
            value <= u32::MAX,
            hex_number(digits@, 0) == hex_number(digits@.skip(i as int), value as nat),
            hex_u32(s@) == match hex_number(digits@, 0) {
                Some(n) => if digits@.len() > 0 && n <= u32::MAX {
                    Some(n as u32)
                } else {
                    None
                },
                None => None,
            },
        decreases digits@.len() - i,
    {
        proof {
            assert(digits@.skip(i as int).drop_first() =~= digits@.skip(i + 1));
        }
        match hex_val(digits[i]) {
            Some(v) => {
                value = value * 16 + v as u64;
                if value > u32::MAX as u64 {
                    proof {
                        hex_number_grows(digits@.skip(i + 1), value as nat);
                    }
                    return None;
                }
            },
            None => {
                return None;
            },
        }
        i += 1;
    }
    assert(digits@.skip(i as int) =~= seq![]);
    Some(value as u32)
}

fn listed_glyph_char(name: &str) -> (r: Option<char>)
    ensures
        r == listed_glyph(name@),
{
    if same_text(name, "space") {
        Some(' ')
    } else if same_text(name, "exclam") {
        Some('!')
    } else if same_text(name, "quotedbl") {
        Some('"')
    } else if same_text(name, "numbersign") {
        Some('#')
    } else if same_text(name, "dollar") {
        Some('$')
    } else if same_text(name, "percent") {
        Some('%')
    } else if same_text(name, "ampersand") {
        Some('&')
    } else if same_text(name, "quotesingle") || same_text(name, "quoteright") {
        Some('\'')
    } else if same_text(name, "parenleft") {
        Some('(')
    } else if same_text(name, "parenright") {
        Some(')')
    } else if same_text(name, "asterisk") {
        Some('*')
    } else if same_text(name, "plus") {
        Some('+')
    } else if same_text(name, "comma") {
        Some(',')
    } else if same_text(name, "hyphen") || same_text(name, "minus") {
        Some('-')
    } else if same_text(name, "period") {
        Some('.')
    } else if same_text(name, "slash") {
        Some('/')
    } else if same_text(name, "zero") {
        Some('0')
    } else if same_text(name, "one") {
        Some('1')
    } else if same_text(name, "two") {
        Some('2')
    } else if same_text(name, "three") {
        Some('3')
    } else if same_text(name, "four") {
        Some('4')
    } else if same_text(name, "five") {
        Some('5')
    } else if same_text(name, "six") {
        Some('6')
    } else if same_text(name, "seven") {
        Some('7')
    } else if same_text(name, "eight") {
        Some('8')
    } else if same_text(name, "nine") {
        Some('9')
    } else if same_text(name, "colon") {
        Some(':')
    } else if same_text(name, "semicolon") {
        Some(';')
    } else if same_text(name, "less") {
        Some('<')
    } else if same_text(name, "equal") {
        Some('=')
    } else if same_text(name, "greater") {
        Some('>')
    } else if same_text(name, "question") {
        Some('?')
    } else if same_text(name, "at") {
        Some('@')
    } else if same_text(name, "bracketleft") {
        Some('[')
    } else if same_text(name, "backslash") {
        Some('\\')
    } else if same_text(name, "bracketright") {
        Some(']')
    } else if same_text(name, "asciicircum") {
        Some('^')
    } else if same_text(name, "underscore") {
        Some('_')
    } else if same_text(name, "grave") || same_text(name, "quoteleft") {
        Some('`')
    } else if same_text(name, "braceleft") {
        Some('{')
    } else if same_text(name, "bar") {
        Some('|')
    } else if same_text(name, "braceright") {
        Some('}')
    } else if same_text(name, "asciitilde") {
        Some('~')
    } else if same_text(name, "eacute") {
        Some('\u{00E9}')
    } else if same_text(name, "egrave") {
        Some('\u{00E8}')
    } else if same_text(name, "ecirc") {
        Some('\u{00EA}')
    } else if same_text(name, "edieresis") {
        Some('\u{00EB}')
    } else if same_text(name, "agrave") {
        Some('\u{00E0}')
    } else if same_text(name, "acircumflex") {
        Some('\u{00E2}')
    } else if same_text(name, "adieresis") {
        Some('\u{00E4}')
    } else if same_text(name, "ccedilla") {
        Some('\u{00E7}')
    } else if same_text(name, "ntilde") {
        Some('\u{00F1}')
    } else if same_text(name, "ograve") {
        Some('\u{00F2}')
    } else if same_text(name, "ocircumflex") {
        Some('\u{00F4}')
    } else if same_text(name, "odieresis") {
        Some('\u{00F6}')
    } else if same_text(name, "ugrave") {
        Some('\u{00F9}')
    } else if same_text(name, "ucircumflex") {
        Some('\u{00FB}')
    } else if same_text(name, "udieresis") {
        Some('\u{00FC}')
    } else if same_text(name, "Eacute") {
        Some('\u{00C9}')
    } else if same_text(name, "Egrave") {
        Some('\u{00C8}')
    } else if same_text(name, "Agrave") {
        Some('\u{00C0}')
    } else if same_text(name, "Ccedilla") {
        Some('\u{00C7}')
    } else if same_text(name, "Ntilde") {
        Some('\u{00D1}')
    } else {
        None
    }
}

/// The character that the name of a glyph means.
pub fn glyph_name_to_unicode(name: &str) -> (r: Option<char>)
    ensures
        r == glyph_char(name@),
{
    let b = name.as_bytes();
    if b.len() >= 3 && b[0] == 117 && b[1] == 110 && b[2] == 105 {
        let rest = slice_subrange(b, 3, b.len());
        assert(rest@ =~= b@.skip(3));
        match parse_hex_u32(rest) {
            Some(n) => {
                return char_of(n);
            },
            None => {},
        }
    }
    if b.len() >= 5 && b[0] == 117 {
        let rest = slice_subrange(b, 1, b.len());
        assert(rest@ =~= b@.skip(1));
        proof {
            hex_number_grows(rest@, 0);
            if rest@[0] == 43 {
                assert(hex_digit(rest@[0]) is None);
            }
        }
        if rest[0] != 43 {
            match parse_hex_u32(rest) {
                Some(n) => {
                    return char_of(n);
                },
                None => {},
            }
        }
    }
    match listed_glyph_char(name) {
        Some(c) => Some(c),
        None => if b.len() == 1 {
            Some(latin_char(b[0]))
        } else {
            None
        },
    }
}

} // verus!
