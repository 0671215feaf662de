//! Images decoded to pixels.
//!
//! Supported are the gray, RGB and CMYK color spaces of devices, with the calibrated ones taken
//! for them, and those based on a profile, by the number of their components alone; with eight
//! bits for each component. Pixels have the opacity that a soft mask gives them.
use vstd::prelude::*;
use crate::decimal::{push_signed, signed_decimal};
use crate::display::DecodedImage;
use crate::document::{required_int, DocModel, Document};
use crate::error::{DecodeProblem, ErrorModel, Expected, PdfError};
use crate::filters::{decode_stream, get_int_or, int_entry, stream_decoded};
use crate::object::{entry, models, DictModel, Dictionary, Object, ObjectModel, Stream};
use crate::text::{decode_lossy, same_text, text_of};

verus! {

#[derive(Debug, Clone, Copy, PartialEq, Eq, Structural)]
pub enum ColorSpaceKind {
    Gray,
    Rgb,
    Cmyk,
}

impl ColorSpaceKind {
    pub open spec fn count(self) -> nat {
        match self {
            ColorSpaceKind::Gray => 1,
            ColorSpaceKind::Rgb => 3,
            ColorSpaceKind::Cmyk => 4,
        }
    }

    /// How many components a color has.
    pub fn components(self) -> (r: usize)
        ensures
            r == self.count(),
    {
        match self {
            ColorSpaceKind::Gray => 1,
            ColorSpaceKind::Rgb => 3,
            ColorSpaceKind::Cmyk => 4,
        }
    }
}

/// What is left of the light of a component behind its ink and the black one, to the nearest
/// whole number.
pub open spec fn unprinted(ink: u8, black: u8) -> u8 {
    ((2 * (255 - ink) * (255 - black) + 255) / 510) as u8
}

fn light(ink: u8, black: u8) -> (r: u8)
    ensures
        r == unprinted(ink, black),
{
    let a: u32 = 255 - ink as u32;
    let b: u32 = 255 - black as u32;
    assert(a * b <= 255 * 255) by (nonlinear_arith)
        requires
            0 <= a <= 255,
            0 <= b <= 255,
    ;
    assert(2 * (255 - ink) * (255 - black) == 2 * (a * b)) by (nonlinear_arith)
        requires
            a == 255 - ink,
            b == 255 - black,
    ;
    ((2 * (a * b) + 255) / 510) as u8
}

/// A color of four inks as light, without a profile.
pub fn cmyk_to_rgb(c: u8, m: u8, y: u8, k: u8) -> (r: (u8, u8, u8))
    ensures
        r == (unprinted(c, k), unprinted(m, k), unprinted(y, k)),
{
    (light(c, k), light(m, k), light(y, k))
}

/// The red, green and blue of the pixel `p`.
pub open spec fn pixel(kind: ColorSpaceKind, d: Seq<u8>, p: int) -> (u8, u8, u8) {
    match kind {
        ColorSpaceKind::Gray => (d[p], d[p], d[p]),
        ColorSpaceKind::Rgb => (d[3 * p], d[3 * p + 1], d[3 * p + 2]),
        ColorSpaceKind::Cmyk => (
            unprinted(d[4 * p], d[4 * p + 3]),
            unprinted(d[4 * p + 1], d[4 * p + 3]),
            unprinted(d[4 * p + 2], d[4 * p + 3]),
        ),
    }
}

/// The first `n` pixels, each with full opacity.
pub open spec fn rgba_of(kind: ColorSpaceKind, d: Seq<u8>, n: nat) -> Seq<u8>
    decreases n,
{
    if n == 0 {
        seq![]
    } else {
        let c = pixel(kind, d, n - 1);
        rgba_of(kind, d, (n - 1) as nat) + seq![c.0, c.1, c.2, 255u8]
    }
}

/// ` is not supported`
pub open spec fn not_supported() -> Seq<char> {
    " is not supported"@
}

pub open spec fn unsupported_space(before: Seq<char>, name: Seq<char>) -> ErrorModel {
    ErrorModel::UnsupportedFilter(before + name + not_supported())
}

/// The color space that a name means.
pub open spec fn named_space(name: Seq<char>) -> Result<ColorSpaceKind, ErrorModel> {
    if name == "DeviceGray"@ || name == "CalGray"@ || name == "G"@ {
        Ok(ColorSpaceKind::Gray)
    } else if name == "DeviceRGB"@ || name == "CalRGB"@ || name == "RGB"@ {
        Ok(ColorSpaceKind::Rgb)
    } else if name == "DeviceCMYK"@ || name == "CMYK"@ {
        Ok(ColorSpaceKind::Cmyk)
    } else {
        Err(unsupported_space("color space /"@, name))
    }
}

/// The color space with as many components as the dictionary of a profile says.
pub open spec fn profile_space(profile: ObjectModel) -> ColorSpaceKind {
    match profile.dict() {
        Some(d) => match required_int(d, "N"@) {
            Ok(n) => if n == 1 {
                ColorSpaceKind::Gray
            } else if n == 4 {
                ColorSpaceKind::Cmyk
            } else {
                ColorSpaceKind::Rgb
            },
            Err(_) => ColorSpaceKind::Rgb,
        },
        None => ColorSpaceKind::Rgb,
    }
}

/// The color space that an array describes.
pub open spec fn array_space(doc: DocModel, items: Seq<ObjectModel>) -> Result<
    ColorSpaceKind,
    ErrorModel,
> {
    let family = if items.len() > 0 && items[0].name() is Some {
        items[0].name()->Some_0
    } else {
        seq![]
    };
    if family != "ICCBased"@ {
        Err(unsupported_space("color space family /"@, family))
    } else if items.len() < 2 {
        Err(ErrorModel::MissingKey("ICCBased stream"@))
    } else {
        match doc.got(items[1]) {
            Err(e) => Err(e),
            Ok(profile) => Ok(profile_space(profile)),
        }
    }
}

/// The color space of an image.
pub open spec fn color_space(doc: DocModel, d: DictModel) -> Result<ColorSpaceKind, ErrorModel> {
    let stated = match entry(d, "ColorSpace"@) {
        Some(o) => Some(o),
        None => entry(d, "CS"@),
    };
    match stated {
        None => Err(ErrorModel::MissingKey("ColorSpace"@)),
        Some(o) => match doc.got(o) {
            Err(e) => Err(e),
            Ok(ObjectModel::Name(n)) => named_space(n),
            Ok(ObjectModel::Array(items)) => array_space(doc, items),
            Ok(_) => Err(ErrorModel::UnexpectedType(Expected::ColorSpace)),
        },
    }
}

/// A size of an image: the low 32 bits of a number that is not negative.
pub open spec fn image_size(n: int) -> u32 {
    if n < 0 {
        0
    } else {
        crate::xref::low32(n)
    }
}

/// `-bit-per-component images are not supported yet`, behind the number of bits.
pub open spec fn depth_message(bits: i64) -> Seq<char> {
    text_of(signed_decimal(bits as int)) + "-bit-per-component images are not supported yet"@
}

/// An image decoded without a mask, or why it cannot be.
pub open spec fn opaque_image(doc: DocModel, d: DictModel, raw: Seq<u8>) -> Result<
    (u32, u32, Seq<u8>),
    ErrorModel,
> {
    match (required_int(d, "Width"@), required_int(d, "Height"@)) {
        (Err(e), _) => Err(e),
        (_, Err(e)) => Err(e),
        (Ok(w), Ok(h)) => {
            let width = image_size(w);
            let height = image_size(h);
            let bits = int_entry(d, "BitsPerComponent"@, 8);
            if width == 0 || height == 0 {
                Err(ErrorModel::DecodeError(DecodeProblem::ZeroSize))
            } else if bits != 8 {
                Err(ErrorModel::UnsupportedFilter(depth_message(bits)))
            } else {
                match color_space(doc, d) {
                    Err(e) => Err(e),
                    Ok(kind) => match stream_decoded(d, raw) {
                        Err(e) => Err(e),
                        Ok(data) => if data.len() < width * height * kind.count() {
                            Err(ErrorModel::DecodeError(DecodeProblem::TooShort))
                        } else {
                            Ok((width, height, rgba_of(kind, data, (width * height) as nat)))
                        },
                    },
                }
            }
        },
    }
}

/// The pixels of the soft mask of an image, where it has one that can be decoded.
pub open spec fn mask_of(doc: DocModel, d: DictModel) -> Option<(u32, u32, Seq<u8>)> {
    match entry(d, "SMask"@) {
        None => None,
        Some(o) => match doc.got(o) {
            Ok(ObjectModel::Stream(mask, raw)) => match opaque_image(doc, mask, raw) {
                Ok(pixels) => Some(pixels),
                Err(_) => None,
            },
            _ => None,
        },
    }
}

/// The pixel of a mask with some size that lies on the pixel `p` of an image with a size of its
/// own, where both cover the same square.
pub open spec fn mask_pixel(width: int, height: int, mask_width: int, mask_height: int, p: int) -> int {
    ((p / width) * mask_height / height) * mask_width + (p % width) * mask_width / width
}

/// The pixels of an image with the gray of a mask for their opacity.
pub open spec fn masked(image: (u32, u32, Seq<u8>), mask: (u32, u32, Seq<u8>)) -> Seq<u8> {
    Seq::new(
        image.2.len(),
        |i: int|
            if i % 4 == 3 {
                mask.2[4 * mask_pixel(
                    image.0 as int,
                    image.1 as int,
                    mask.0 as int,
                    mask.1 as int,
                    i / 4,
                )]
            } else {
                image.2[i]
            },
    )
}

/// An image decoded, or why it cannot be.
pub open spec fn image_of(doc: DocModel, d: DictModel, raw: Seq<u8>) -> Result<
    (u32, u32, Seq<u8>),
    ErrorModel,
> {
    match opaque_image(doc, d, raw) {
        Err(e) => Err(e),
        Ok(image) => match mask_of(doc, d) {
            None => Ok(image),
            Some(mask) => Ok((image.0, image.1, masked(image, mask))),
        },
    }
}

proof fn rgba_length(kind: ColorSpaceKind, d: Seq<u8>, n: nat)
    ensures
        rgba_of(kind, d, n).len() == 4 * n,
    decreases n,
{
    if n > 0 {
        rgba_length(kind, d, (n - 1) as nat);
    }
}

/// A place within `0..a` lies within `0..b` when both are stretched to the same length.
proof fn scaled_within(x: int, a: int, b: int)
    requires
        0 <= x < a,
        0 < b,
    ensures
        0 <= x * b / a < b,
{
    assert(x * b < a * b) by (nonlinear_arith)
        requires
            x < a,
            0 < b,
    ;
    assert(0 <= x * b) by (nonlinear_arith)
        requires
            0 <= x,
            0 < b,
    ;
    assert(0 <= x * b / a < b) by (nonlinear_arith)
        requires
            0 <= x * b < a * b,
            0 < a,
            0 < b,
    ;
}

/// The pixel of the mask lies within it.
proof fn mask_pixel_within(width: int, height: int, mask_width: int, mask_height: int, p: int)
    requires
        0 < width,
        0 < height,
        0 < mask_width,
        0 < mask_height,
        0 <= p < width * height,
    ensures
        0 <= p % width < width,
        0 <= p / width < height,
        0 <= (p / width) * mask_height / height < mask_height,
        0 <= (p % width) * mask_width / width < mask_width,
        0 <= mask_pixel(width, height, mask_width, mask_height, p) < mask_width * mask_height,
{
    assert(0 <= p / width < height) by (nonlinear_arith)
        requires
            0 < width,
            0 <= p < width * height,
    ;
    assert(0 <= p % width < width) by (nonlinear_arith)
        requires
            0 < width,
    ;
    scaled_within(p / width, height, mask_height);
    scaled_within(p % width, width, mask_width);
    let row = (p / width) * mask_height / height;
    let col = (p % width) * mask_width / width;
    assert(0 <= row * mask_width + col < mask_width * mask_height) by (nonlinear_arith)
        requires
            0 <= row,
            row + 1 <= mask_height,
            0 <= col < mask_width,
    ;
}

fn message(before: &str, name: &str, after: &str) -> (r: String)
    ensures
        r@ == before@ + name@ + after@,
{
    let mut r: String = before.to_owned();
    r.append(name);
    r.append(after);
    r
}

fn space_of_name(name: &str) -> (r: Result<ColorSpaceKind, PdfError>)
    ensures
        match named_space(name@) {
            Ok(k) => r is Ok && r->Ok_0 == k,
            Err(e) => r is Err && r->Err_0@ == e,
        },
{
    if same_text(name, "DeviceGray") || same_text(name, "CalGray") || same_text(name, "G") {
        Ok(ColorSpaceKind::Gray)
    } else if same_text(name, "DeviceRGB") || same_text(name, "CalRGB") || same_text(name, "RGB") {
        Ok(ColorSpaceKind::Rgb)
    } else if same_text(name, "DeviceCMYK") || same_text(name, "CMYK") {
        Ok(ColorSpaceKind::Cmyk)
    } else {
        Err(PdfError::UnsupportedFilter(message("color space /", name, " is not supported")))
    }
}

fn space_of_array(doc: &Document, items: &[Object]) -> (r: Result<ColorSpaceKind, PdfError>)
    ensures
        match array_space(doc@, models(items@)) {
            Ok(k) => r is Ok && r->Ok_0 == k,
            Err(e) => r is Err && r->Err_0@ == e,
        },
{
    let ghost ms = models(items@);
    let family: &str = if items.len() > 0 {
        assert(ms[0] == items@[0]@);
        match items[0].as_name() {
            Some(n) => n,
            None => "",
        }
    } else {
        ""
    };
    proof {
        reveal_strlit("");
        assert(""@ =~= seq![]);
    }
    if !same_text(family, "ICCBased") {
        return Err(
            PdfError::UnsupportedFilter(
                message("color space family /", family, " is not supported"),
            ),
        );
    }
    if items.len() < 2 {
        return Err(PdfError::MissingKey("ICCBased stream".to_owned()));
    }
    assert(ms[1] == items@[1]@);
    match doc.get(&items[1]) {
        Err(e) => Err(e),
        Ok(profile) => match profile.as_dict() {
            Some(d) => match d.get_int("N") {
                Ok(n) => if n == 1 {
                    Ok(ColorSpaceKind::Gray)
                } else if n == 4 {
                    Ok(ColorSpaceKind::Cmyk)
                } else {
                    Ok(ColorSpaceKind::Rgb)
                },
                Err(_) => Ok(ColorSpaceKind::Rgb),
            },
            None => Ok(ColorSpaceKind::Rgb),
        },
    }
}

fn resolve_color_space(doc: &Document, dict: &Dictionary) -> (r: Result<ColorSpaceKind, PdfError>)
    ensures
        match color_space(doc@, dict@) {
            Ok(k) => r is Ok && r->Ok_0 == k,
            Err(e) => r is Err && r->Err_0@ == e,
        },
{
    let stated = match dict.get("ColorSpace") {
        Some(o) => Some(o),
        None => dict.get("CS"),
    };
    match stated {
        None => Err(PdfError::MissingKey("ColorSpace".to_owned())),
        Some(o) => match doc.get(o) {
            Err(e) => Err(e),
            Ok(Object::Name(n)) => space_of_name(n.as_str()),
            Ok(Object::Array(items)) => {
                assert(doc@.got(o@)->Ok_0->Array_0 =~= models(items@));
                space_of_array(doc, items.as_slice())
            },
            Ok(_) => Err(PdfError::UnexpectedType(Expected::ColorSpace)),
        },
    }
}

fn to_size(n: i64) -> (r: u32)
    ensures
        r == image_size(n as int),
{
    if n < 0 {
        0
    } else {
        (n % 0x1_0000_0000) as u32
    }
}

/// Decodes an image to pixels with full opacity.
fn decode_opaque(doc: &Document, stream: &Stream) -> (r: Result<DecodedImage, PdfError>)
    ensures
        match opaque_image(doc@, stream.dict@, stream.raw_data@) {
            Ok((width, height, rgba)) => {
                &&& r is Ok
                &&& r->Ok_0.width == width
                &&& r->Ok_0.height == height
                &&& r->Ok_0.rgba@ == rgba
                &&& width > 0
                &&& height > 0
                &&& rgba.len() == 4 * (width * height)
            },
            Err(e) => r is Err && r->Err_0@ == e,
        },
{
    let width: u32 = match stream.dict.get_int("Width") {
        Ok(n) => to_size(n),
        Err(e) => {
            return Err(e);
        },
    };
    let height: u32 = match stream.dict.get_int("Height") {
        Ok(n) => to_size(n),
        Err(e) => {
            return Err(e);
        },
    };
    if width == 0 || height == 0 {
        return Err(PdfError::DecodeError(DecodeProblem::ZeroSize));
    }
    let bits: i64 = get_int_or(&stream.dict, "BitsPerComponent", 8);
    if bits != 8 {
        let mut digits: Vec<u8> = Vec::new();
        push_signed(&mut digits, bits);
        assert(digits@ =~= signed_decimal(bits as int));
        let mut text = decode_lossy(digits.as_slice());
        text.append("-bit-per-component images are not supported yet");
        return Err(PdfError::UnsupportedFilter(text));
    }
    let kind: ColorSpaceKind = match resolve_color_space(doc, &stream.dict) {
        Ok(k) => k,
        Err(e) => {
            return Err(e);
        },
    };
    let data = match decode_stream(stream) {
        Ok(d) => d,
        Err(e) => {
            return Err(e);
        },
    };
    assert(width * height <= 0xFFFF_FFFF * 0xFFFF_FFFF) by (nonlinear_arith)
        requires
            0 <= width <= 0xFFFF_FFFF,
            0 <= height <= 0xFFFF_FFFF,
    ;
    let pixels: u128 = width as u128 * height as u128;
    let count: usize = kind.components();
    assert(pixels * count <= 4 * pixels) by (nonlinear_arith)
        requires
            0 <= count <= 4,
            0 <= pixels,
    ;
    if (data.len() as u128) < pixels * count as u128 {
        return Err(PdfError::DecodeError(DecodeProblem::TooShort));
    }
    assert(pixels <= pixels * count) by (nonlinear_arith)
        requires
            1 <= count,
            0 <= pixels,
    ;
    let n: usize = pixels as usize;
    let mut rgba: Vec<u8> = Vec::new();
    assert(rgba@ =~= seq![]);
    let mut p: usize = 0;
    while p < n
        invariant
            0 <= p <= n,
            count == kind.count(),
            n * count <= data@.len(),
            data@.len() <= usize::MAX,
            rgba@ == rgba_of(kind, data@, p as nat),
        decreases n - p,
    {
        assert(p * count + count <= n * count) by (nonlinear_arith)
            requires
                p < n,
                0 <= count,
        ;
        let (r, g, b) = match kind {
            ColorSpaceKind::Gray => (data[p], data[p], data[p]),
            ColorSpaceKind::Rgb => (data[3 * p], data[3 * p + 1], data[3 * p + 2]),
            ColorSpaceKind::Cmyk => cmyk_to_rgb(
                data[4 * p],
                data[4 * p + 1],
                data[4 * p + 2],
                data[4 * p + 3],
            ),
        };
        let ghost before = rgba@;
        rgba.push(r);
        rgba.push(g);
        rgba.push(b);
        rgba.push(255);
        assert(rgba@ =~= before + seq![r, g, b, 255u8]);
        p += 1;
    }
    proof {
        rgba_length(kind, data@, n as nat);
    }
    Ok(DecodedImage { width, height, rgba })
}

/// The mask of an image, where it has one that can be decoded.
fn decode_mask(doc: &Document, dict: &Dictionary) -> (r: Option<DecodedImage>)
    ensures
        match mask_of(doc@, dict@) {
            Some((width, height, rgba)) => {
                &&& r is Some
                &&& r->Some_0.width == width
                &&& r->Some_0.height == height
                &&& r->Some_0.rgba@ == rgba
                &&& width > 0
                &&& height > 0
                &&& rgba.len() == 4 * (width * height)
            },
            None => r is None,
        },
{
    match dict.get("SMask") {
        None => None,
        Some(o) => match doc.get(o) {
            Ok(Object::Stream(mask)) => match decode_opaque(doc, &mask) {
                Ok(image) => Some(image),
                Err(_) => None,
            },
            _ => None,
        },
    }
}

/// Decodes an image to pixels.
pub fn decode_image(doc: &Document, stream: &Stream) -> (r: Result<DecodedImage, PdfError>)
    ensures
        match image_of(doc@, stream.dict@, stream.raw_data@) {
            Ok((width, height, rgba)) => {
                &&& r is Ok
                &&& r->Ok_0.width == width
                &&& r->Ok_0.height == height
                &&& r->Ok_0.rgba@ == rgba
            },
            Err(e) => r is Err && r->Err_0@ == e,
        },
{
    let mut image = match decode_opaque(doc, stream) {
        Ok(image) => image,
        Err(e) => {
            return Err(e);
        },
    };
    let mask = match decode_mask(doc, &stream.dict) {
        Some(mask) => mask,
        None => {
            return Ok(image);
        },
    };
    let ghost opaque = (image.width, image.height, image.rgba@);
    let ghost shape = (mask.width, mask.height, mask.rgba@);
    let width: u64 = image.width as u64;
    let height: u64 = image.height as u64;
    let mask_width: u64 = mask.width as u64;
    let mask_height: u64 = mask.height as u64;
    let total: usize = image.rgba.len();
    let mask_total: usize = mask.rgba.len();
    let n: usize = total / 4;
    let mut p: usize = 0;
    while p < n
        invariant
            0 <= p <= n,
            total == 4 * n,
            mask_total == 4 * (mask_width * mask_height),
            image.rgba@.len() == 4 * n,
            opaque.2.len() == 4 * n,
            n == width * height,
            width == opaque.0,
            height == opaque.1,
            image.width == opaque.0,
            image.height == opaque.1,
            mask_width == shape.0,
            mask_height == shape.1,
            width > 0,
            height > 0,
            mask_width > 0,
            mask_height > 0,
            mask.rgba@ == shape.2,
            shape.2.len() == 4 * (mask_width * mask_height),
            forall|i: int| 0 <= i < 4 * p ==> #[trigger] image.rgba@[i] == masked(opaque, shape)[i],
            forall|i: int|
                4 * p <= i < 4 * n ==> #[trigger] image.rgba@[i] == opaque.2[i],
        decreases n - p,
    {
        proof {
            mask_pixel_within(
                width as int,
                height as int,
                mask_width as int,
                mask_height as int,
                p as int,
            );
        }
        let y: u64 = p as u64 / width;
        let x: u64 = p as u64 % width;
        assert(y * mask_height <= 0xFFFF_FFFF * 0xFFFF_FFFF) by (nonlinear_arith)
            requires
                0 <= y <= 0xFFFF_FFFF,
                0 <= mask_height <= 0xFFFF_FFFF,
        ;
        assert(x * mask_width <= 0xFFFF_FFFF * 0xFFFF_FFFF) by (nonlinear_arith)
            requires
                0 <= x <= 0xFFFF_FFFF,
                0 <= mask_width <= 0xFFFF_FFFF,
        ;
        let row: u64 = y * mask_height / height;
        let col: u64 = x * mask_width / width;
        assert(0 <= row * mask_width <= 0xFFFF_FFFF * 0xFFFF_FFFF) by (nonlinear_arith)
            requires
                0 <= row <= 0xFFFF_FFFF,
                0 <= mask_width <= 0xFFFF_FFFF,
        ;
        let at: usize = (row * mask_width + col) as usize;
        let ghost before = image.rgba@;
        image.rgba.set(4 * p + 3, mask.rgba[4 * at]);
        assert forall|i: int| 0 <= i < 4 * (p + 1) implies #[trigger] image.rgba@[i] == masked(
            opaque,
            shape,
        )[i] by {
            if i >= 4 * p {
                assert(i / 4 == p);
                assert(before[i] == opaque.2[i]);
            } else {
                assert(before[i] == masked(opaque, shape)[i]);
            }
        }
        assert forall|i: int| 4 * (p + 1) <= i < 4 * n implies #[trigger] image.rgba@[i]
            == opaque.2[i] by {
            assert(before[i] == opaque.2[i]);
        }
        p += 1;
    }
    assert(image.rgba@ =~= masked(opaque, shape));
    Ok(image)
}

} // verus!
