//! JPEG images: their size, from the headers alone, and their samples.
use vstd::prelude::*;
use zune_jpeg::zune_core::bytestream::ZCursor;
use zune_jpeg::zune_core::colorspace::ColorSpace;
use zune_jpeg::zune_core::options::DecoderOptions;
use crate::error::{DecodeProblem, ErrorModel, PdfError};
use crate::jpeg_scans::{decodable, is_decodable, pair_at, read_pair};

verus! {

/// Markers that stand alone: nothing follows that belongs to them.
pub open spec fn alone(marker: u8) -> bool {
    marker == 1 || 0xD0 <= marker <= 0xD8
}

/// Markers of a frame: its header holds the size of the image.
pub open spec fn frame(marker: u8) -> bool {
    0xC0 <= marker <= 0xCF && marker != 0xC4 && marker != 0xC8 && marker != 0xCC
}

/// The width, the height and the number of components in the first frame header from `p` on,
/// where a marker stands. There is none behind the start of the samples.
pub open spec fn frame_from(d: Seq<u8>, p: int) -> Option<(u16, u16, u8)>
    decreases d.len() - p,
{
    if p < 0 || p + 1 >= d.len() || d[p] != 0xFF {
        None
    } else {
        let marker = d[p + 1];
        if marker == 0xFF {
            frame_from(d, p + 1)
        } else if alone(marker) {
            frame_from(d, p + 2)
        } else if marker == 0xD9 || marker == 0xDA || p + 3 >= d.len() {
            None
        } else if frame(marker) {
            if p + 9 >= d.len() {
                None
            } else {
                Some((pair_at(d, p + 7) as u16, pair_at(d, p + 5) as u16, d[p + 9]))
            }
        } else if pair_at(d, p + 2) < 2 || p + 2 + pair_at(d, p + 2) >= d.len() {
            None
        } else {
            frame_from(d, p + 2 + pair_at(d, p + 2))
        }
    }
}

/// The width, the height and the number of components of an image.
pub open spec fn jpeg_size(d: Seq<u8>) -> Result<(u16, u16, u8), ErrorModel> {
    let found = if d.len() >= 2 && d[0] == 0xFF && d[1] == 0xD8 {
        frame_from(d, 2)
    } else {
        None
    };
    match found {
        Some(size) => Ok(size),
        None => Err(ErrorModel::DecodeError(DecodeProblem::Jpeg)),
    }
}

/// Reads the width, the height and the number of components of an image without its samples.
pub fn jpeg_dimensions(data: &[u8]) -> (r: Result<(u16, u16, u8), PdfError>)
    ensures
        match jpeg_size(data@) {
            Ok(size) => r is Ok && r->Ok_0 == size,
            Err(e) => r is Err && r->Err_0@ == e,
        },
{
    if data.len() < 2 || data[0] != 0xFF || data[1] != 0xD8 {
        return Err(PdfError::DecodeError(DecodeProblem::Jpeg));
    }
    let ghost goal = frame_from(data@, 2);
    let n: usize = data.len();
    let mut p: usize = 2;
    while n >= 2 && p < n - 1 && data[p] == 0xFF
        invariant
            n == data@.len(),
            2 <= p <= n,
            goal == frame_from(data@, 2),
            goal == frame_from(data@, p as int),
            data@[0] == 0xFF,
            data@[1] == 0xD8,
        decreases n - p,
    {
        let marker: u8 = data[p + 1];
        if marker == 0xFF {
            p += 1;
        } else if marker == 1 || 0xD0 <= marker && marker <= 0xD8 {
            p += 2;
        } else if marker == 0xD9 || marker == 0xDA || n - p <= 3 {
            return Err(PdfError::DecodeError(DecodeProblem::Jpeg));
        } else if 0xC0 <= marker && marker <= 0xCF && marker != 0xC4 && marker != 0xC8 && marker
            != 0xCC {
            if n - p <= 9 {
                return Err(PdfError::DecodeError(DecodeProblem::Jpeg));
            }
            return Ok((read_pair(data, p + 7), read_pair(data, p + 5), data[p + 9]));
        } else {
            let length: usize = read_pair(data, p + 2) as usize;
            if length < 2 || length >= n - p - 2 {
                return Err(PdfError::DecodeError(DecodeProblem::Jpeg));
            }
            p += 2 + length;
        }
    }
    Err(PdfError::DecodeError(DecodeProblem::Jpeg))
}

/// The colors that the samples of an image are given in.
#[derive(Debug, Clone, Copy, PartialEq, Eq, Structural)]
pub enum JpegColor {
    Gray,
    Rgb,
    Cmyk,
}

/// The number of components of an image in some colors.
pub open spec fn components_of(color: JpegColor) -> u8 {
    match color {
        JpegColor::Gray => 1,
        JpegColor::Rgb => 3,
        JpegColor::Cmyk => 4,
    }
}

/// What `zune_jpeg::JpegDecoder::decode` makes of an image with its samples asked for in some
/// colors; `None` where it reports an error.
pub uninterp spec fn jpeg_samples(data: Seq<u8>, color: JpegColor) -> Option<Seq<u8>>;

/// Calls `zune_jpeg::JpegDecoder::decode` with the default options but for the colors that are
/// asked for. Claims that the outcome depends on the data and the colors alone; how an image is
/// decoded is not said. It is handed only images in which no product of a first coefficient and
/// its quantization leaves four bytes, and whose components are sampled in a way that its buffers
/// are made for.
#[verifier::external_body]
fn decode_samples(data: &[u8], color: JpegColor) -> (r: Option<Vec<u8>>)
    requires
        decodable(data@, components_of(color)),
    ensures
        match r {
            Some(out) => jpeg_samples(data@, color) == Some(out@),
            None => jpeg_samples(data@, color) is None,
        },
{
    let space = match color {
        JpegColor::Gray => ColorSpace::Luma,
        JpegColor::Rgb => ColorSpace::RGB,
        JpegColor::Cmyk => ColorSpace::CMYK,
    };
    let options = DecoderOptions::default().jpeg_set_out_colorspace(space);
    zune_jpeg::JpegDecoder::new_with_options(ZCursor::new(data), options).decode().ok()
}

/// The colors of an image with some number of components.
pub open spec fn colors_of(components: u8) -> Option<JpegColor> {
    if components == 1 {
        Some(JpegColor::Gray)
    } else if components == 3 {
        Some(JpegColor::Rgb)
    } else if components == 4 {
        Some(JpegColor::Cmyk)
    } else {
        None
    }
}

/// The colors of an image with some number of components; other numbers have none.
pub fn jpeg_color(components: u8) -> (r: Option<JpegColor>)
    ensures
        r == colors_of(components),
{
    match components {
        1 => Some(JpegColor::Gray),
        3 => Some(JpegColor::Rgb),
        4 => Some(JpegColor::Cmyk),
        _ => None,
    }
}

/// The samples of an image, as many for each pixel as its header says. An image that cannot be
/// decoded has none.
pub open spec fn jpeg_decoded(d: Seq<u8>) -> Result<Seq<u8>, ErrorModel> {
    match jpeg_size(d) {
        Err(e) => Err(e),
        Ok((_, _, components)) => {
            let samples = match colors_of(components) {
                Some(color) => if decodable(d, components) {
                    jpeg_samples(d, color)
                } else {
                    None
                },
                None => None,
            };
            match samples {
                Some(out) => Ok(out),
                None => Err(ErrorModel::DecodeError(DecodeProblem::Jpeg)),
            }
        },
    }
}

/// Decodes an image to its samples.
pub fn jpeg_decode(data: &[u8]) -> (r: Result<Vec<u8>, PdfError>)
    ensures
        match jpeg_decoded(data@) {
            Ok(out) => r is Ok && r->Ok_0@ == out,
            Err(e) => r is Err && r->Err_0@ == e,
        },
{
    let components: u8 = match jpeg_dimensions(data) {
        Ok((_, _, c)) => c,
        Err(e) => {
            return Err(e);
        },
    };
    let samples = match jpeg_color(components) {
        Some(color) => {
            if is_decodable(data, components) {
                decode_samples(data, color)
            } else {
                None
            }
        },
        None => None,
    };
    match samples {
        Some(out) => Ok(out),
        None => Err(PdfError::DecodeError(DecodeProblem::Jpeg)),
    }
}

} // verus!
