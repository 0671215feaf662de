//! The content of the appearances that annotations and form fields get.
//!
//! Lengths and colors are counted in millionths, which is as exact as a real is written.
use vstd::prelude::*;
use vstd::utf8::encode_utf8;
use crate::number::{scaled, Real};

verus! {

/// One in millionths.
pub const ONE: i64 = 1_000_000;

/// A text as bytes.
pub open spec fn ascii(text: Seq<char>) -> Seq<u8> {
    encode_utf8(text)
}

/// Appends a text.
pub fn push_text(out: &mut Vec<u8>, text: &str)
    ensures
        final(out)@ == old(out)@ + ascii(text@),
{
    out.extend_from_slice(text.as_bytes());
    assert(out@ =~= old(out)@ + ascii(text@));
}

/// A number of millionths as it is written with `places` digits after the point.
pub open spec fn micro_text(n: int, places: int) -> Seq<u8> {
    scaled(n, 6).fixed(places)
}

/// Appends a number with the point moved `scale` to the left, with `places` digits after it.
pub fn push_scaled(out: &mut Vec<u8>, n: i128, scale: usize, places: usize)
    requires
        n > i128::MIN,
    ensures
        final(out)@ == old(out)@ + scaled(n as int, scale as nat).fixed(places as int),
{
    let r = Real::from_scaled(n, scale);
    r.write_fixed(places, out);
}

/// Three color components as they are written.
pub open spec fn color_text(color: [i64; 3]) -> Seq<u8> {
    micro_text(color[0] as int, 3) + ascii(" "@) + micro_text(color[1] as int, 3) + ascii(" "@)
        + micro_text(color[2] as int, 3)
}

fn push_color(out: &mut Vec<u8>, color: &[i64; 3])
    ensures
        final(out)@ == old(out)@ + color_text(*color),
{
    let ghost before = out@;
    push_scaled(out, color[0] as i128, 6, 3);
    push_text(out, " ");
    push_scaled(out, color[1] as i128, 6, 3);
    push_text(out, " ");
    push_scaled(out, color[2] as i128, 6, 3);
    assert(out@ =~= before + color_text(*color));
}

/// The lesser and the greater of two numbers.
pub open spec fn lesser(a: i64, b: i64) -> i64 {
    if a <= b {
        a
    } else {
        b
    }
}

pub open spec fn greater(a: i64, b: i64) -> i64 {
    if a >= b {
        a
    } else {
        b
    }
}

/// A length between two numbers, at least one.
pub open spec fn extent(a: int, b: int) -> int {
    if b - a > 1_000_000 {
        b - a
    } else {
        1_000_000
    }
}

/// A rectangle with its corners in order: left, bottom, right and top.
pub open spec fn corners(rect: [i64; 4]) -> (i64, i64, i64, i64) {
    (
        lesser(rect[0], rect[2]),
        lesser(rect[1], rect[3]),
        greater(rect[0], rect[2]),
        greater(rect[1], rect[3]),
    )
}

/// The lesser and the greater of two numbers.
pub fn min_max(a: i64, b: i64) -> (r: (i64, i64))
    ensures
        r.0 == lesser(a, b),
        r.1 == greater(a, b),
{
    if a <= b {
        if a == b {
            (a, a)
        } else {
            (a, b)
        }
    } else {
        (b, a)
    }
}

/// A length between two numbers, at least one.
pub fn span(a: i64, b: i64) -> (r: i128)
    ensures
        r == extent(a as int, b as int),
        1_000_000 <= r <= 0x1_0000_0000_0000_0000,
{
    let d: i128 = b as i128 - a as i128;
    if d > 1_000_000 {
        d
    } else {
        1_000_000
    }
}

/// A rectangle filled with a color through the graphics state `GS0`.
#[verifier::opaque]
pub open spec fn highlight_text(color: [i64; 3], width: int, height: int) -> Seq<u8> {
    ascii("/GS0 gs "@) + color_text(color) + ascii(" rg 0 0 "@) + micro_text(width, 3) + ascii(
        " "@,
    ) + micro_text(height, 3) + ascii(" re f"@)
}

pub fn highlight_content(color: &[i64; 3], width: i128, height: i128) -> (r: Vec<u8>)
    requires
        width > i128::MIN,
        height > i128::MIN,
    ensures
        r@ == highlight_text(*color, width as int, height as int),
{
    let mut out: Vec<u8> = Vec::new();
    push_text(&mut out, "/GS0 gs ");
    push_color(&mut out, color);
    push_text(&mut out, " rg 0 0 ");
    push_scaled(&mut out, width, 6, 3);
    push_text(&mut out, " ");
    push_scaled(&mut out, height, 6, 3);
    push_text(&mut out, " re f");
    proof {
        reveal(highlight_text);
    }
    assert(out@ =~= highlight_text(*color, width as int, height as int));
    out
}

/// A line across, at some hundredths of the height.
#[verifier::opaque]
pub open spec fn line_text(color: [i64; 3], width: int, height: int, hundredths: int) -> Seq<u8> {
    let y = scaled(height * hundredths, 8).fixed(3);
    color_text(color) + ascii(" RG 1 w 0 "@) + y + ascii(" m "@) + micro_text(width, 3) + ascii(
        " "@,
    ) + y + ascii(" l S"@)
}

pub fn line_content(color: &[i64; 3], width: i128, height: i128, hundredths: i128) -> (r: Vec<u8>)
    requires
        0 <= width <= 0x1_0000_0000_0000_0000,
        0 <= height <= 0x1_0000_0000_0000_0000,
        0 <= hundredths <= 100,
    ensures
        r@ == line_text(*color, width as int, height as int, hundredths as int),
{
    assert(0 <= height * hundredths <= 0x1_0000_0000_0000_0000 * 100) by (nonlinear_arith)
        requires
            0 <= height <= 0x1_0000_0000_0000_0000,
            0 <= hundredths <= 100,
    ;
    let y: i128 = height * hundredths;
    let mut out: Vec<u8> = Vec::new();
    push_color(&mut out, color);
    push_text(&mut out, " RG 1 w 0 ");
    push_scaled(&mut out, y, 8, 3);
    push_text(&mut out, " m ");
    push_scaled(&mut out, width, 6, 3);
    push_text(&mut out, " ");
    push_scaled(&mut out, y, 8, 3);
    push_text(&mut out, " l S");
    proof {
        reveal(line_text);
    }
    assert(out@ =~= line_text(*color, width as int, height as int, hundredths as int));
    out
}

/// A character of a text as it is written between round brackets.
pub open spec fn literal_char(c: char) -> Seq<char> {
    if c == '\\' || c == '(' || c == ')' {
        seq!['\\', c]
    } else if (c as u32) < 256 {
        seq![c]
    } else {
        seq!['?']
    }
}

/// A text as it is written between round brackets; what is not in Latin-1 becomes `?`.
pub open spec fn literal_text(text: Seq<char>) -> Seq<char>
    decreases text.len(),
{
    if text.len() == 0 {
        seq![]
    } else {
        literal_text(text.drop_last()) + literal_char(text.last())
    }
}

/// A text as it is written between round brackets.
pub fn escape_pdf_literal(text: &str) -> (r: String)
    ensures
        r@ == literal_text(text@),
{
    let mut out = String::new();
    assert(out@ =~= literal_text(text@.take(0)));
    for c in it: text.chars()
        invariant
            it.seq() == text@,
            out@ == literal_text(text@.take(it.index() as int)),
    {
        let ghost i = it.index() as int;
        let ghost before = out@;
        proof {
            assert(text@.take(i + 1).drop_last() =~= text@.take(i));
            assert(text@.take(i + 1).last() == c);
        }
        if c == '\\' || c == '(' || c == ')' {
            out.push('\\');
            out.push(c);
            assert(out@ =~= before + seq!['\\', c]);
        } else if (c as u32) < 256 {
            out.push(c);
            assert(out@ =~= before + seq![c]);
        } else {
            out.push('?');
            assert(out@ =~= before + seq!['?']);
        }
    }
    assert(text@.take(text@.len() as int) =~= text@);
    out
}

/// Where the line of a text stands: in the middle of the height, raised by a fifth of the size.
/// Lengths are given with `unit` for one, and the result is ten times as fine.
pub open spec fn baseline(height: int, size: int, unit: int) -> int {
    5 * (if height - size > unit {
        height - size
    } else {
        unit
    }) + 2 * size
}

fn text_line(height: i128, size: i128, unit: i128) -> (r: i128)
    requires
        0 <= height <= 0x10_0000_0000_0000_0000,
        -0x10_0000_0000_0000_0000 <= size <= 0x10_0000_0000_0000_0000,
        0 <= unit <= 0x1_0000_0000,
    ensures
        r == baseline(height as int, size as int, unit as int),
        r > i128::MIN,
{
    let d: i128 = height - size;
    5 * (if d > unit {
        d
    } else {
        unit
    }) + 2 * size
}

/// A filled rectangle under a text, where there is one.
pub open spec fn background_text(width: int, height: int, background: Option<[i64; 3]>) -> Seq<u8> {
    match background {
        Some(color) => color_text(color) + ascii(" rg 0 0 "@) + micro_text(width, 3) + ascii(" "@)
            + micro_text(height, 3) + ascii(" re f\n"@),
        None => seq![],
    }
}

/// A line of text in Helvetica, over a background where there is one.
#[verifier::opaque]
pub open spec fn overlay_text(
    width: int,
    height: int,
    text: Seq<char>,
    size: int,
    color: [i64; 3],
    background: Option<[i64; 3]>,
) -> Seq<u8> {
    background_text(width, height, background) + ascii("q\nBT\n/Helv "@) + micro_text(size, 2)
        + ascii(" Tf\n"@) + color_text(color) + ascii(" rg\n2 "@) + scaled(
        baseline(height, size, 1_000_000),
        7,
    ).fixed(2) + ascii(" Td\n("@) + ascii(literal_text(text)) + ascii(") Tj\nET\nQ"@)
}

/// A line of text in Helvetica, over a background where there is one.
pub fn build_text_appearance_content(
    width: i128,
    height: i128,
    text: &str,
    font_size: i64,
    text_color: &[i64; 3],
    background: &Option<[i64; 3]>,
) -> (r: Vec<u8>)
    requires
        0 <= width <= 0x1_0000_0000_0000_0000,
        0 <= height <= 0x1_0000_0000_0000_0000,
    ensures
        r@ == overlay_text(
            width as int,
            height as int,
            text@,
            font_size as int,
            *text_color,
            *background,
        ),
{
    let mut out: Vec<u8> = Vec::new();
    match background {
        Some(color) => {
            push_color(&mut out, color);
            push_text(&mut out, " rg 0 0 ");
            push_scaled(&mut out, width, 6, 3);
            push_text(&mut out, " ");
            push_scaled(&mut out, height, 6, 3);
            push_text(&mut out, " re f\n");
        },
        None => {},
    }
    assert(out@ =~= background_text(width as int, height as int, *background));
    push_text(&mut out, "q\nBT\n/Helv ");
    push_scaled(&mut out, font_size as i128, 6, 2);
    push_text(&mut out, " Tf\n");
    push_color(&mut out, text_color);
    push_text(&mut out, " rg\n2 ");
    push_scaled(&mut out, text_line(height, font_size as i128, 1_000_000), 7, 2);
    push_text(&mut out, " Td\n(");
    let escaped = escape_pdf_literal(text);
    push_text(&mut out, escaped.as_str());
    push_text(&mut out, ") Tj\nET\nQ");
    proof {
        reveal(overlay_text);
    }
    assert(out@ =~= overlay_text(
        width as int,
        height as int,
        text@,
        font_size as int,
        *text_color,
        *background,
    ));
    out
}

/// The default appearance of a free text.
#[verifier::opaque]
pub open spec fn default_appearance(size: int) -> Seq<u8> {
    ascii("/Helv "@) + micro_text(size, 2) + ascii(" Tf 0 g"@)
}

pub fn make_default_appearance(font_size: i64) -> (r: Vec<u8>)
    ensures
        r@ == default_appearance(font_size as int),
{
    let mut out: Vec<u8> = Vec::new();
    push_text(&mut out, "/Helv ");
    push_scaled(&mut out, font_size as i128, 6, 2);
    push_text(&mut out, " Tf 0 g");
    proof {
        reveal(default_appearance);
    }
    assert(out@ =~= default_appearance(font_size as int));
    out
}

/// The size of the text in a form field, in ten-millionths: seven tenths of the height, from 6
/// to 18.
pub open spec fn field_size(height: int) -> int {
    if 7 * height < 60_000_000 {
        60_000_000
    } else if 7 * height > 180_000_000 {
        180_000_000
    } else {
        7 * height
    }
}

/// The text of a form field.
#[verifier::opaque]
pub open spec fn field_text(height: int, value: Seq<char>) -> Seq<u8> {
    ascii("/Tx BMC\nq\nBT\n/Helv "@) + scaled(field_size(height), 7).fixed(2) + ascii(
        " Tf\n0 0 0 rg\n2 "@,
    ) + scaled(baseline(10 * height, field_size(height), 10_000_000), 8).fixed(2) + ascii(
        " Td\n("@,
    ) + ascii(literal_text(value)) + ascii(") Tj\nET\nQ\nEMC"@)
}

/// The text of a form field.
pub fn field_content(height: i128, value: &str) -> (r: Vec<u8>)
    requires
        0 <= height <= 0x1_0000_0000_0000_0000,
    ensures
        r@ == field_text(height as int, value@),
{
    let size: i128 = if 7 * height < 60_000_000 {
        60_000_000
    } else if 7 * height > 180_000_000 {
        180_000_000
    } else {
        7 * height
    };
    let mut out: Vec<u8> = Vec::new();
    push_text(&mut out, "/Tx BMC\nq\nBT\n/Helv ");
    push_scaled(&mut out, size, 7, 2);
    push_text(&mut out, " Tf\n0 0 0 rg\n2 ");
    push_scaled(&mut out, text_line(10 * height, size, 10_000_000), 8, 2);
    push_text(&mut out, " Td\n(");
    let escaped = escape_pdf_literal(value);
    push_text(&mut out, escaped.as_str());
    push_text(&mut out, ") Tj\nET\nQ\nEMC");
    proof {
        reveal(field_text);
    }
    assert(out@ =~= field_text(height as int, value@));
    out
}

} // verus!
