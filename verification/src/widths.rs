//! Widths of the standard fonts, in thousandths of their size, and what the name of a font tells.
use vstd::prelude::*;
use vstd::utf8::encode_utf8;
use crate::bytes::{find_subslice, matches_at, occurs_at, occurs_is_found};

verus! {

/// A standard font with widths of its own.
#[derive(Debug, Clone, Copy, PartialEq, Eq, Structural)]
pub enum WidthTable {
    Courier,
    TimesRoman,
    TimesBold,
    TimesItalic,
    TimesBoldItalic,
    Helvetica,
    HelveticaBold,
}

/// The letter that an accented letter of the Windows code is made of.
pub open spec fn accent_base(code: u8) -> Option<u8> {
    if 0xC0 <= code <= 0xC5 {
        Some(65)
    } else if code == 0xC7 {
        Some(67)
    } else if 0xC8 <= code <= 0xCB {
        Some(69)
    } else if 0xCC <= code <= 0xCF {
        Some(73)
    } else if code == 0xD1 {
        Some(78)
    } else if 0xD2 <= code <= 0xD6 || code == 0xD8 {
        Some(79)
    } else if 0xD9 <= code <= 0xDC {
        Some(85)
    } else if code == 0xDD {
        Some(89)
    } else if 0xE0 <= code <= 0xE5 {
        Some(97)
    } else if code == 0xE7 {
        Some(99)
    } else if 0xE8 <= code <= 0xEB {
        Some(101)
    } else if 0xEC <= code <= 0xEF {
        Some(105)
    } else if code == 0xF1 {
        Some(110)
    } else if 0xF2 <= code <= 0xF6 || code == 0xF8 {
        Some(111)
    } else if 0xF9 <= code <= 0xFC {
        Some(117)
    } else if code == 0xFD || code == 0xFF {
        Some(121)
    } else {
        None
    }
}

/// The width of a sign of the Windows code that no letter is the base of.
pub open spec fn symbol_width(code: u8) -> Option<u16> {
    if code == 0x80 || code == 0x83 || code == 0x86 || code == 0x87 || code == 0x96 || code == 0xAB
        || code == 0xBB {
        Some(556)
    } else if code == 0x82 || code == 0x91 || code == 0x92 {
        Some(222)
    } else if code == 0x84 || code == 0x88 || code == 0x8B || code == 0x93 || code == 0x94 || code
        == 0x98 || code == 0x9B || code == 0xA1 {
        Some(333)
    } else if code == 0x85 || code == 0x89 || code == 0x8C || code == 0x97 || code == 0x99 || code
        == 0xC6 {
        Some(1000)
    } else if code == 0x95 {
        Some(350)
    } else if code == 0x9C {
        Some(944)
    } else if code == 0xA0 {
        Some(278)
    } else if code == 0xA9 || code == 0xAE {
        Some(760)
    } else if code == 0xBF || code == 0xDF {
        Some(611)
    } else if code == 0xE6 {
        Some(722)
    } else {
        None
    }
}

/// The letter that an accented letter is made of: both have one width.
pub fn winansi_accent_base(code: u8) -> (r: Option<u8>)
    ensures
        r == accent_base(code),
{
    match code {
        0xC0..=0xC5 => Some(65),
        0xC7 => Some(67),
        0xC8..=0xCB => Some(69),
        0xCC..=0xCF => Some(73),
        0xD1 => Some(78),
        0xD2..=0xD6 | 0xD8 => Some(79),
        0xD9..=0xDC => Some(85),
        0xDD => Some(89),
        0xE0..=0xE5 => Some(97),
        0xE7 => Some(99),
        0xE8..=0xEB => Some(101),
        0xEC..=0xEF => Some(105),
        0xF1 => Some(110),
        0xF2..=0xF6 | 0xF8 => Some(111),
        0xF9..=0xFC => Some(117),
        0xFD | 0xFF => Some(121),
        _ => None,
    }
}

/// The width of a sign that no letter is the base of, the same for all fonts.
pub fn winansi_symbol_width(code: u8) -> (r: Option<u16>)
    ensures
        r == symbol_width(code),
{
    match code {
        0x80 => Some(556),
        0x82 => Some(222),
        0x83 => Some(556),
        0x84 => Some(333),
        0x85 => Some(1000),
        0x86 => Some(556),
        0x87 => Some(556),
        0x88 => Some(333),
        0x89 => Some(1000),
        0x8B => Some(333),
        0x8C => Some(1000),
        0x91 | 0x92 => Some(222),
        0x93 | 0x94 => Some(333),
        0x95 => Some(350),
        0x96 => Some(556),
        0x97 => Some(1000),
        0x98 => Some(333),
        0x99 => Some(1000),
        0x9B => Some(333),
        0x9C => Some(944),
        0xA0 => Some(278),
        0xA1 => Some(333),
        0xA9 => Some(760),
        0xAB => Some(556),
        0xAE => Some(760),
        0xBB => Some(556),
        0xBF => Some(611),
        0xC6 => Some(1000),
        0xE6 => Some(722),
        0xDF => Some(611),
        _ => None,
    }
}

/// The widths of the printable characters of Times Roman.
#[verifier::opaque]
pub open spec fn times_roman_printed() -> Seq<u16> {
    seq![
        250u16, 333, 408, 500, 500, 833, 778, 180, 333, 333, 500, 564,
        250, 333, 250, 278, 500, 500, 500, 500, 500, 500, 500, 500,
        500, 500, 278, 278, 564, 564, 564, 444, 921, 722, 667, 667,
        722, 611, 556, 722, 722, 333, 389, 722, 611, 889, 722, 722,
        556, 722, 667, 556, 611, 722, 722, 944, 722, 722, 611, 333,
        278, 333, 469, 500, 333, 444, 500, 444, 500, 444, 333, 500,
        500, 278, 278, 500, 278, 778, 500, 500, 500, 500, 333, 389,
        278, 500, 500, 722, 500, 500, 444, 480, 200, 480, 541,
    ]
}

fn times_roman_at(i: usize) -> (w: u16)
    requires
        i < 95,
    ensures
        w == times_roman_printed()[i as int],
        times_roman_printed().len() == 95,
{
    let widths: [u16; 95] = [
        250, 333, 408, 500, 500, 833, 778, 180, 333, 333, 500, 564,
        250, 333, 250, 278, 500, 500, 500, 500, 500, 500, 500, 500,
        500, 500, 278, 278, 564, 564, 564, 444, 921, 722, 667, 667,
        722, 611, 556, 722, 722, 333, 389, 722, 611, 889, 722, 722,
        556, 722, 667, 556, 611, 722, 722, 944, 722, 722, 611, 333,
        278, 333, 469, 500, 333, 444, 500, 444, 500, 444, 333, 500,
        500, 278, 278, 500, 278, 778, 500, 500, 500, 500, 333, 389,
        278, 500, 500, 722, 500, 500, 444, 480, 200, 480, 541,
    ];
    proof {
        reveal(times_roman_printed);
        assert(widths@ =~= times_roman_printed());
    }
    widths[i]
}

/// The widths of the printable characters of Times Bold.
#[verifier::opaque]
pub open spec fn times_bold_printed() -> Seq<u16> {
    seq![
        250u16, 333, 555, 500, 500, 1000, 833, 278, 333, 333, 500, 570,
        250, 333, 250, 278, 500, 500, 500, 500, 500, 500, 500, 500,
        500, 500, 333, 333, 570, 570, 570, 500, 930, 722, 667, 722,
        722, 667, 611, 778, 778, 389, 500, 778, 667, 944, 722, 778,
        611, 778, 722, 556, 667, 722, 722, 1000, 722, 722, 667, 333,
        278, 333, 581, 500, 333, 500, 556, 444, 556, 444, 333, 500,
        556, 278, 333, 556, 278, 833, 556, 500, 556, 556, 444, 389,
        333, 556, 500, 722, 500, 500, 444, 394, 220, 394, 520,
    ]
}

fn times_bold_at(i: usize) -> (w: u16)
    requires
        i < 95,
    ensures
        w == times_bold_printed()[i as int],
        times_bold_printed().len() == 95,
{
    let widths: [u16; 95] = [
        250, 333, 555, 500, 500, 1000, 833, 278, 333, 333, 500, 570,
        250, 333, 250, 278, 500, 500, 500, 500, 500, 500, 500, 500,
        500, 500, 333, 333, 570, 570, 570, 500, 930, 722, 667, 722,
        722, 667, 611, 778, 778, 389, 500, 778, 667, 944, 722, 778,
        611, 778, 722, 556, 667, 722, 722, 1000, 722, 722, 667, 333,
        278, 333, 581, 500, 333, 500, 556, 444, 556, 444, 333, 500,
        556, 278, 333, 556, 278, 833, 556, 500, 556, 556, 444, 389,
        333, 556, 500, 722, 500, 500, 444, 394, 220, 394, 520,
    ];
    proof {
        reveal(times_bold_printed);
        assert(widths@ =~= times_bold_printed());
    }
    widths[i]
}

/// The widths of the printable characters of Times Italic.
#[verifier::opaque]
pub open spec fn times_italic_printed() -> Seq<u16> {
    seq![
        250u16, 333, 420, 500, 500, 833, 778, 214, 333, 333, 500, 675,
        250, 333, 250, 278, 500, 500, 500, 500, 500, 500, 500, 500,
        500, 500, 333, 333, 675, 675, 675, 500, 920, 611, 611, 667,
        722, 611, 611, 722, 722, 333, 444, 667, 556, 833, 667, 722,
        611, 722, 611, 500, 556, 722, 611, 833, 611, 556, 556, 389,
        278, 389, 422, 500, 333, 500, 500, 444, 500, 444, 278, 500,
        500, 278, 278, 444, 278, 722, 500, 500, 500, 500, 389, 389,
        278, 500, 444, 667, 444, 444, 389, 400, 275, 400, 541,
    ]
}

fn times_italic_at(i: usize) -> (w: u16)
    requires
        i < 95,
    ensures
        w == times_italic_printed()[i as int],
        times_italic_printed().len() == 95,
{
    let widths: [u16; 95] = [
        250, 333, 420, 500, 500, 833, 778, 214, 333, 333, 500, 675,
        250, 333, 250, 278, 500, 500, 500, 500, 500, 500, 500, 500,
        500, 500, 333, 333, 675, 675, 675, 500, 920, 611, 611, 667,
        722, 611, 611, 722, 722, 333, 444, 667, 556, 833, 667, 722,
        611, 722, 611, 500, 556, 722, 611, 833, 611, 556, 556, 389,
        278, 389, 422, 500, 333, 500, 500, 444, 500, 444, 278, 500,
        500, 278, 278, 444, 278, 722, 500, 500, 500, 500, 389, 389,
        278, 500, 444, 667, 444, 444, 389, 400, 275, 400, 541,
    ];
    proof {
        reveal(times_italic_printed);
        assert(widths@ =~= times_italic_printed());
    }
    widths[i]
}

/// The widths of the printable characters of Times Bold Italic.
#[verifier::opaque]
pub open spec fn times_bold_italic_printed() -> Seq<u16> {
    seq![
        250u16, 389, 555, 500, 500, 833, 778, 278, 333, 333, 500, 570,
        250, 333, 250, 278, 500, 500, 500, 500, 500, 500, 500, 500,
        500, 500, 333, 333, 570, 570, 570, 500, 832, 667, 667, 667,
        722, 667, 667, 722, 778, 389, 500, 667, 611, 889, 722, 722,
        611, 722, 667, 556, 611, 722, 667, 889, 667, 611, 611, 333,
        278, 333, 570, 500, 333, 500, 500, 444, 500, 444, 333, 500,
        556, 278, 278, 500, 278, 778, 556, 500, 500, 500, 389, 389,
        278, 556, 444, 667, 500, 444, 389, 348, 220, 348, 570,
    ]
}

fn times_bold_italic_at(i: usize) -> (w: u16)
    requires
        i < 95,
    ensures
        w == times_bold_italic_printed()[i as int],
        times_bold_italic_printed().len() == 95,
{
    let widths: [u16; 95] = [
        250, 389, 555, 500, 500, 833, 778, 278, 333, 333, 500, 570,
        250, 333, 250, 278, 500, 500, 500, 500, 500, 500, 500, 500,
        500, 500, 333, 333, 570, 570, 570, 500, 832, 667, 667, 667,
        722, 667, 667, 722, 778, 389, 500, 667, 611, 889, 722, 722,
        611, 722, 667, 556, 611, 722, 667, 889, 667, 611, 611, 333,
        278, 333, 570, 500, 333, 500, 500, 444, 500, 444, 333, 500,
        556, 278, 278, 500, 278, 778, 556, 500, 500, 500, 389, 389,
        278, 556, 444, 667, 500, 444, 389, 348, 220, 348, 570,
    ];
    proof {
        reveal(times_bold_italic_printed);
        assert(widths@ =~= times_bold_italic_printed());
    }
    widths[i]
}

/// The widths of the printable characters of Helvetica.
#[verifier::opaque]
pub open spec fn helvetica_printed() -> Seq<u16> {
    seq![
        278u16, 278, 355, 556, 556, 889, 667, 191, 333, 333, 389, 584,
        278, 333, 278, 278, 556, 556, 556, 556, 556, 556, 556, 556,
        556, 556, 278, 278, 584, 584, 584, 556, 1015, 667, 667, 722,
        722, 667, 611, 778, 722, 278, 500, 667, 556, 833, 722, 778,
        667, 778, 722, 667, 611, 722, 667, 944, 667, 667, 611, 278,
        278, 278, 469, 556, 333, 556, 556, 500, 556, 556, 278, 556,
        556, 222, 222, 500, 222, 833, 556, 556, 556, 556, 333, 500,
        278, 556, 500, 722, 500, 500, 500, 334, 260, 334, 584,
    ]
}

fn helvetica_at(i: usize) -> (w: u16)
    requires
        i < 95,
    ensures
        w == helvetica_printed()[i as int],
        helvetica_printed().len() == 95,
{
    let widths: [u16; 95] = [
        278, 278, 355, 556, 556, 889, 667, 191, 333, 333, 389, 584,
        278, 333, 278, 278, 556, 556, 556, 556, 556, 556, 556, 556,
        556, 556, 278, 278, 584, 584, 584, 556, 1015, 667, 667, 722,
        722, 667, 611, 778, 722, 278, 500, 667, 556, 833, 722, 778,
        667, 778, 722, 667, 611, 722, 667, 944, 667, 667, 611, 278,
        278, 278, 469, 556, 333, 556, 556, 500, 556, 556, 278, 556,
        556, 222, 222, 500, 222, 833, 556, 556, 556, 556, 333, 500,
        278, 556, 500, 722, 500, 500, 500, 334, 260, 334, 584,
    ];
    proof {
        reveal(helvetica_printed);
        assert(widths@ =~= helvetica_printed());
    }
    widths[i]
}

/// The widths of the printable characters of Helvetica Bold.
#[verifier::opaque]
pub open spec fn helvetica_bold_printed() -> Seq<u16> {
    seq![
        278u16, 333, 474, 556, 556, 889, 722, 238, 333, 333, 389, 584,
        278, 333, 278, 278, 556, 556, 556, 556, 556, 556, 556, 556,
        556, 556, 333, 333, 584, 584, 584, 611, 975, 722, 722, 722,
        722, 667, 611, 778, 722, 278, 556, 722, 611, 833, 722, 778,
        667, 778, 722, 667, 611, 722, 667, 944, 667, 667, 611, 333,
        278, 333, 584, 556, 333, 556, 611, 556, 611, 556, 333, 611,
        611, 278, 278, 556, 278, 889, 611, 611, 611, 611, 389, 556,
        333, 611, 556, 778, 556, 556, 500, 389, 280, 389, 584,
    ]
}

fn helvetica_bold_at(i: usize) -> (w: u16)
    requires
        i < 95,
    ensures
        w == helvetica_bold_printed()[i as int],
        helvetica_bold_printed().len() == 95,
{
    let widths: [u16; 95] = [
        278, 333, 474, 556, 556, 889, 722, 238, 333, 333, 389, 584,
        278, 333, 278, 278, 556, 556, 556, 556, 556, 556, 556, 556,
        556, 556, 333, 333, 584, 584, 584, 611, 975, 722, 722, 722,
        722, 667, 611, 778, 722, 278, 556, 722, 611, 833, 722, 778,
        667, 778, 722, 667, 611, 722, 667, 944, 667, 667, 611, 333,
        278, 333, 584, 556, 333, 556, 611, 556, 611, 556, 333, 611,
        611, 278, 278, 556, 278, 889, 611, 611, 611, 611, 389, 556,
        333, 611, 556, 778, 556, 556, 500, 389, 280, 389, 584,
    ];
    proof {
        reveal(helvetica_bold_printed);
        assert(widths@ =~= helvetica_bold_printed());
    }
    widths[i]
}

/// The widths of the printable characters, from the space on.
pub open spec fn printed(table: WidthTable) -> Seq<u16> {
    match table {
        WidthTable::Courier => Seq::new(95, |i: int| 600u16),
        WidthTable::TimesRoman => times_roman_printed(),
        WidthTable::TimesBold => times_bold_printed(),
        WidthTable::TimesItalic => times_italic_printed(),
        WidthTable::TimesBoldItalic => times_bold_italic_printed(),
        WidthTable::Helvetica => helvetica_printed(),
        WidthTable::HelveticaBold => helvetica_bold_printed(),
    }
}

/// The width of a character: its own, that of its base letter, or that of a sign. In Courier all
/// that have a width have one width.
pub open spec fn table_width(table: WidthTable, code: u8) -> Option<u16> {
    if 32 <= code <= 126 {
        Some(printed(table)[code - 32])
    } else {
        match accent_base(code) {
            Some(base) => Some(printed(table)[base - 32]),
            None => match symbol_width(code) {
                Some(w) => Some(
                    if table == WidthTable::Courier {
                        600
                    } else {
                        w
                    },
                ),
                None => None,
            },
        }
    }
}

fn printed_at(table: WidthTable, i: usize) -> (w: u16)
    requires
        i < 95,
    ensures
        w == printed(table)[i as int],
{
    match table {
        WidthTable::Courier => 600,
        WidthTable::TimesRoman => times_roman_at(i),
        WidthTable::TimesBold => times_bold_at(i),
        WidthTable::TimesItalic => times_italic_at(i),
        WidthTable::TimesBoldItalic => times_bold_italic_at(i),
        WidthTable::Helvetica => helvetica_at(i),
        WidthTable::HelveticaBold => helvetica_bold_at(i),
    }
}

impl WidthTable {
    /// The width of a character, where the table has one.
    pub fn width(self, code: u8) -> (r: Option<u16>)
        ensures
            r == table_width(self, code),
    {
        if 32 <= code && code <= 126 {
            return Some(printed_at(self, (code - 32) as usize));
        }
        match winansi_accent_base(code) {
            Some(base) => Some(printed_at(self, (base - 32) as usize)),
            None => match winansi_symbol_width(code) {
                Some(w) => match self {
                    WidthTable::Courier => Some(600),
                    _ => Some(w),
                },
                None => None,
            },
        }
    }
}

/// Where the name proper starts, behind the last `+` before `n`.
pub open spec fn behind_plus(name: Seq<u8>, n: int) -> int
    decreases n,
{
    if n <= 0 {
        0
    } else if name[n - 1] == 43 {
        n
    } else {
        behind_plus(name, n - 1)
    }
}

/// A letter in lower case.
pub open spec fn small(b: u8) -> u8 {
    if 65 <= b <= 90 {
        (b + 32) as u8
    } else {
        b
    }
}

/// The name of a font in lower case, without the tag of a subset.
pub open spec fn plain_name(base_font: Seq<char>) -> Seq<u8> {
    let b = encode_utf8(base_font);
    b.skip(behind_plus(b, b.len() as int)).map_values(|x: u8| small(x))
}

/// A word stands in a name.
pub open spec fn holds(name: Seq<u8>, word: Seq<char>) -> bool {
    exists|i: int| occurs_at(name, encode_utf8(word), i)
}

pub open spec fn is_bold_name(name: Seq<u8>) -> bool {
    holds(name, "bold"@)
}

pub open spec fn is_italic_name(name: Seq<u8>) -> bool {
    holds(name, "italic"@) || holds(name, "oblique"@)
}

/// The widths that a font has by its name. The oblique of Helvetica has the widths of the roman.
pub open spec fn widths_by_name(base_font: Seq<char>) -> WidthTable {
    let name = plain_name(base_font);
    if holds(name, "courier"@) {
        WidthTable::Courier
    } else if holds(name, "times"@) {
        if is_bold_name(name) {
            if is_italic_name(name) {
                WidthTable::TimesBoldItalic
            } else {
                WidthTable::TimesBold
            }
        } else if is_italic_name(name) {
            WidthTable::TimesItalic
        } else {
            WidthTable::TimesRoman
        }
    } else if (holds(name, "helvetica"@) || holds(name, "arial"@)) && is_bold_name(name) {
        WidthTable::HelveticaBold
    } else {
        WidthTable::Helvetica
    }
}

/// The name of a font in lower case, without the tag of a subset.
fn plain_name_of(base_font: &str) -> (r: Vec<u8>)
    ensures
        r@ == plain_name(base_font@),
{
    let b = base_font.as_bytes();
    let n: usize = b.len();
    let mut start: usize = n;
    while start > 0 && b[start - 1] != 43
        invariant
            0 <= start <= b@.len(),
            behind_plus(b@, b@.len() as int) == behind_plus(b@, start as int),
        decreases start,
    {
        start -= 1;
    }
    let mut r: Vec<u8> = Vec::new();
    let mut i: usize = start;
    while i < n
        invariant
            start <= i <= n,
            n == b@.len(),
            r@.len() == i - start,
            forall|j: int| 0 <= j < i - start ==> #[trigger] r@[j] == small(b@[start + j]),
        decreases n - i,
    {
        let c: u8 = b[i];
        r.push(
            if 65 <= c && c <= 90 {
                c + 32
            } else {
                c
            },
        );
        i += 1;
    }
    assert(r@ =~= plain_name(base_font@));
    r
}

fn name_holds(name: &[u8], word: &str) -> (r: bool)
    ensures
        r == holds(name@, word@),
{
    match find_subslice(name, word.as_bytes(), 0) {
        Some(i) => {
            assert(occurs_at(name@, encode_utf8(word@), i as int));
            true
        },
        None => {
            assert forall|i: int| !occurs_at(name@, encode_utf8(word@), i) by {
                if occurs_at(name@, encode_utf8(word@), i) {
                    occurs_is_found(name@, encode_utf8(word@), 0, i);
                }
            }
            false
        },
    }
}

/// The widths that a font has by its name.
pub fn standard_width_fallback(base_font: &str) -> (r: WidthTable)
    ensures
        r == widths_by_name(base_font@),
{
    let plain = plain_name_of(base_font);
    let name: &[u8] = plain.as_slice();
    let bold = name_holds(name, "bold");
    let italic = name_holds(name, "italic") || name_holds(name, "oblique");
    if name_holds(name, "courier") {
        WidthTable::Courier
    } else if name_holds(name, "times") {
        if bold && italic {
            WidthTable::TimesBoldItalic
        } else if bold {
            WidthTable::TimesBold
        } else if italic {
            WidthTable::TimesItalic
        } else {
            WidthTable::TimesRoman
        }
    } else if (name_holds(name, "helvetica") || name_holds(name, "arial")) && bold {
        WidthTable::HelveticaBold
    } else {
        WidthTable::Helvetica
    }
}

/// A family that stands in for fonts that a document names and does not hold.
#[derive(Debug, Clone, Copy, PartialEq, Eq, Structural)]
pub enum SystemFamily {
    Helvetica,
    Times,
    Courier,
    Symbol,
    ZapfDingbats,
}

pub open spec fn begins(name: Seq<u8>, word: Seq<char>) -> bool {
    occurs_at(name, encode_utf8(word), 0)
}

/// The family that stands in for a font; Helvetica where the name tells nothing.
pub open spec fn family_by_name(base_font: Seq<char>) -> SystemFamily {
    let name = plain_name(base_font);
    if begins(name, "helvetica"@) || begins(name, "arial"@) {
        SystemFamily::Helvetica
    } else if begins(name, "times"@) {
        SystemFamily::Times
    } else if begins(name, "courier"@) {
        SystemFamily::Courier
    } else if begins(name, "symbol"@) {
        SystemFamily::Symbol
    } else if begins(name, "zapf"@) {
        SystemFamily::ZapfDingbats
    } else {
        SystemFamily::Helvetica
    }
}

/// The family that stands in for a font, and whether it is bold and italic.
pub fn system_family(base_font: &str) -> (r: (SystemFamily, bool, bool))
    ensures
        r.0 == family_by_name(base_font@),
        r.1 == is_bold_name(plain_name(base_font@)),
        r.2 == is_italic_name(plain_name(base_font@)),
{
    let plain = plain_name_of(base_font);
    let name: &[u8] = plain.as_slice();
    let bold = name_holds(name, "bold");
    let italic = name_holds(name, "italic") || name_holds(name, "oblique");
    let family = if matches_at(name, "helvetica".as_bytes(), 0) || matches_at(
        name,
        "arial".as_bytes(),
        0,
    ) {
        SystemFamily::Helvetica
    } else if matches_at(name, "times".as_bytes(), 0) {
        SystemFamily::Times
    } else if matches_at(name, "courier".as_bytes(), 0) {
        SystemFamily::Courier
    } else if matches_at(name, "symbol".as_bytes(), 0) {
        SystemFamily::Symbol
    } else if matches_at(name, "zapf".as_bytes(), 0) {
        SystemFamily::ZapfDingbats
    } else {
        SystemFamily::Helvetica
    };
    (family, bold, italic)
}

} // verus!
