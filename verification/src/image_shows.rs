//! What the pixels of an image are, byte by byte.
use vstd::prelude::*;
use crate::document::DocModel;
use crate::error::ErrorModel;
use crate::filters::stream_decoded;
use crate::image::{array_space, color_space, image_of, mask_of, mask_pixel, opaque_image, pixel, rgba_of, unprinted, ColorSpaceKind};
use crate::object::{entry, DictModel, ObjectModel};

verus! {

/// An image is `width` by `height` pixels of eight bits for each component, in a color space, and
/// its stream holds `data`.
pub open spec fn holds_pixels(
    doc: DocModel,
    d: DictModel,
    raw: Seq<u8>,
    width: int,
    height: int,
    kind: ColorSpaceKind,
    data: Seq<u8>,
) -> bool {
    &&& 0 < width <= u32::MAX
    &&& 0 < height <= u32::MAX
    &&& entry(d, "Width"@) == Some(ObjectModel::Integer(width))
    &&& entry(d, "Height"@) == Some(ObjectModel::Integer(height))
    &&& entry(d, "BitsPerComponent"@) is None || entry(d, "BitsPerComponent"@) == Some(
        ObjectModel::Integer(8),
    )
    &&& color_space(doc, d) == Ok::<ColorSpaceKind, ErrorModel>(kind)
    &&& stream_decoded(d, raw) == Ok::<Seq<u8>, ErrorModel>(data)
    &&& data.len() >= width * height * match kind {
        ColorSpaceKind::Gray => 1,
        ColorSpaceKind::Rgb => 3int,
        ColorSpaceKind::Cmyk => 4,
    }
}

proof fn bytes_of_pixel(kind: ColorSpaceKind, d: Seq<u8>, n: nat, p: int)
    ensures
        rgba_of(kind, d, n).len() == 4 * n,
        0 <= p < n ==> {
            let r = rgba_of(kind, d, n);
            let c = pixel(kind, d, p);
            r[4 * p] == c.0 && r[4 * p + 1] == c.1 && r[4 * p + 2] == c.2 && r[4 * p + 3] == 255
        },
    decreases n,
{
    if n > 0 {
        bytes_of_pixel(kind, d, (n - 1) as nat, p);
    }
}

proof fn decoded_is(
    doc: DocModel,
    d: DictModel,
    raw: Seq<u8>,
    width: int,
    height: int,
    kind: ColorSpaceKind,
    data: Seq<u8>,
)
    requires
        holds_pixels(doc, d, raw, width, height, kind, data),
    ensures
        opaque_image(doc, d, raw) == Ok::<(u32, u32, Seq<u8>), ErrorModel>(
            (width as u32, height as u32, rgba_of(kind, data, (width * height) as nat)),
        ),
{
    assert(crate::image::image_size(width) == width);
    assert(crate::image::image_size(height) == height);
    assert(0 < width * height) by (nonlinear_arith)
        requires
            0 < width,
            0 < height,
    ;
}

/// An image whose stream holds enough is decoded, to four bytes for each pixel.
pub proof fn enough_data_is_an_image(
    doc: DocModel,
    d: DictModel,
    raw: Seq<u8>,
    width: int,
    height: int,
    kind: ColorSpaceKind,
    data: Seq<u8>,
)
    requires
        holds_pixels(doc, d, raw, width, height, kind, data),
    ensures
        image_of(doc, d, raw) is Ok,
        image_of(doc, d, raw)->Ok_0.0 == width,
        image_of(doc, d, raw)->Ok_0.1 == height,
        image_of(doc, d, raw)->Ok_0.2.len() == 4 * (width * height),
{
    decoded_is(doc, d, raw, width, height, kind, data);
    bytes_of_pixel(kind, data, (width * height) as nat, 0);
    assert(0 < width * height) by (nonlinear_arith)
        requires
            0 < width,
            0 < height,
    ;
}

/// The pixels of an RGB image without a soft mask are the bytes of its stream in their order, with
/// full opacity.
pub proof fn rgb_pixels_are_their_bytes(
    doc: DocModel,
    d: DictModel,
    raw: Seq<u8>,
    width: int,
    height: int,
    data: Seq<u8>,
)
    requires
        holds_pixels(doc, d, raw, width, height, ColorSpaceKind::Rgb, data),
        entry(d, "SMask"@) is None,
    ensures
        forall|p: int, k: int|
            #![trigger data[3 * p + k]]
            0 <= p < width * height && 0 <= k < 3 ==> image_of(doc, d, raw)->Ok_0.2[4 * p + k]
                == data[3 * p + k],
        forall|p: int|
            0 <= p < width * height ==> #[trigger] image_of(doc, d, raw)->Ok_0.2[4 * p + 3] == 255,
{
    decoded_is(doc, d, raw, width, height, ColorSpaceKind::Rgb, data);
    let rgba = image_of(doc, d, raw)->Ok_0.2;
    assert forall|p: int, k: int|
        #![trigger data[3 * p + k]]
        0 <= p < width * height && 0 <= k < 3 implies rgba[4 * p + k] == data[3 * p + k] by {
        bytes_of_pixel(ColorSpaceKind::Rgb, data, (width * height) as nat, p);
        assert(k == 0 || k == 1 || k == 2);
    }
    assert forall|p: int| 0 <= p < width * height implies #[trigger] rgba[4 * p + 3] == 255 by {
        bytes_of_pixel(ColorSpaceKind::Rgb, data, (width * height) as nat, p);
    }
}

/// A pixel of a gray image without a soft mask has its byte for all three colors, with full
/// opacity.
pub proof fn gray_pixels_are_their_bytes(
    doc: DocModel,
    d: DictModel,
    raw: Seq<u8>,
    width: int,
    height: int,
    data: Seq<u8>,
)
    requires
        holds_pixels(doc, d, raw, width, height, ColorSpaceKind::Gray, data),
        entry(d, "SMask"@) is None,
    ensures
        forall|p: int, k: int|
            0 <= p < width * height && 0 <= k < 3 ==> #[trigger] image_of(doc, d, raw)->Ok_0.2[4 * p
                + k] == data[p],
        forall|p: int|
            0 <= p < width * height ==> #[trigger] image_of(doc, d, raw)->Ok_0.2[4 * p + 3] == 255,
{
    decoded_is(doc, d, raw, width, height, ColorSpaceKind::Gray, data);
    let rgba = image_of(doc, d, raw)->Ok_0.2;
    assert forall|p: int, k: int|
        0 <= p < width * height && 0 <= k < 3 implies #[trigger] rgba[4 * p + k] == data[p] by {
        bytes_of_pixel(ColorSpaceKind::Gray, data, (width * height) as nat, p);
        assert(k == 0 || k == 1 || k == 2);
    }
    assert forall|p: int| 0 <= p < width * height implies #[trigger] rgba[4 * p + 3] == 255 by {
        bytes_of_pixel(ColorSpaceKind::Gray, data, (width * height) as nat, p);
    }
}

/// A color of a pixel of four inks, times 255, is off by at most half of 255 from what the ink of
/// that color and the black one leave: cyan takes from red, magenta from green and yellow from
/// blue.
pub proof fn inks_take_from_their_colors(
    doc: DocModel,
    d: DictModel,
    raw: Seq<u8>,
    width: int,
    height: int,
    data: Seq<u8>,
)
    requires
        holds_pixels(doc, d, raw, width, height, ColorSpaceKind::Cmyk, data),
        entry(d, "SMask"@) is None,
    ensures
        forall|p: int, k: int|
            #![trigger data[4 * p + k]]
            0 <= p < width * height && 0 <= k < 3 ==> {
                let light = (255 - data[4 * p + k]) * (255 - data[4 * p + 3]);
                let shown = image_of(doc, d, raw)->Ok_0.2[4 * p + k];
                -255 <= 2 * (255 * shown - light) <= 255
            },
        forall|p: int|
            0 <= p < width * height ==> #[trigger] image_of(doc, d, raw)->Ok_0.2[4 * p + 3] == 255,
{
    decoded_is(doc, d, raw, width, height, ColorSpaceKind::Cmyk, data);
    let rgba = image_of(doc, d, raw)->Ok_0.2;
    assert forall|p: int, k: int|
        #![trigger data[4 * p + k]]
        0 <= p < width * height && 0 <= k < 3 implies ({
        let light = (255 - data[4 * p + k]) * (255 - data[4 * p + 3]);
        -255 <= 2 * (255 * rgba[4 * p + k] - light) <= 255
    }) by {
        bytes_of_pixel(ColorSpaceKind::Cmyk, data, (width * height) as nat, p);
        assert(k == 0 || k == 1 || k == 2);
        light_is_near(data[4 * p + k], data[4 * p + 3]);
    }
    assert forall|p: int| 0 <= p < width * height implies #[trigger] rgba[4 * p + 3] == 255 by {
        bytes_of_pixel(ColorSpaceKind::Cmyk, data, (width * height) as nat, p);
    }
}

/// What an ink and the black one leave of the light, to the nearest whole number; without ink all
/// of it, and none under full black or full ink.
pub proof fn light_is_near(ink: u8, black: u8)
    ensures
        -255 <= 2 * (255 * unprinted(ink, black) - (255 - ink) * (255 - black)) <= 255,
        unprinted(ink, 0) == 255 - ink,
        unprinted(0, black) == 255 - black,
        unprinted(ink, 255) == 0,
        unprinted(255, black) == 0,
{
    let light = (255 - ink) * (255 - black);
    assert(0 <= light <= 255 * 255) by (nonlinear_arith)
        requires
            light == (255 - ink) * (255 - black),
            0 <= ink <= 255,
            0 <= black <= 255,
    ;
    assert(2 * (255 - ink) * (255 - black) == 2 * light) by (nonlinear_arith)
        requires
            light == (255 - ink) * (255 - black),
    ;
    assert((2 * (255 - ink) * (255 - 0) + 255) / 510 == 255 - ink);
    assert((2 * (255 - 0) * (255 - black) + 255) / 510 == 255 - black) by (nonlinear_arith)
        requires
            0 <= black <= 255,
    ;
    assert(2 * (255 - ink) * (255 - 255) == 0) by (nonlinear_arith);
    assert(2 * (255 - 255) * (255 - black) == 0) by (nonlinear_arith);
}

proof fn mask_pixel_is(width: int, height: int, mask_width: int, mask_height: int, x: int, y: int, u: int, v: int)
    requires
        0 < width,
        0 < height,
        0 < mask_width,
        0 < mask_height,
        0 <= x < width,
        0 <= y < height,
        u * width <= x * mask_width < (u + 1) * width,
        v * height <= y * mask_height < (v + 1) * height,
    ensures
        mask_pixel(width, height, mask_width, mask_height, y * width + x) == v * mask_width + u,
{
    vstd::arithmetic::div_mod::lemma_fundamental_div_mod_converse(y * width + x, width, y, x);
    assert(x * mask_width == u * width + (x * mask_width - u * width));
    assert((u + 1) * width == u * width + width) by (nonlinear_arith);
    assert((v + 1) * height == v * height + height) by (nonlinear_arith);
    vstd::arithmetic::div_mod::lemma_fundamental_div_mod_converse(
        x * mask_width,
        width,
        u,
        x * mask_width - u * width,
    );
    vstd::arithmetic::div_mod::lemma_fundamental_div_mod_converse(
        y * mask_height,
        height,
        v,
        y * mask_height - v * height,
    );
}

/// A soft mask leaves the colors as they are. The opacity of a pixel is the gray of the pixel of
/// the mask in which its corner lies, where both are stretched to the same square.
pub proof fn mask_gives_the_opacity(
    doc: DocModel,
    d: DictModel,
    raw: Seq<u8>,
    width: int,
    height: int,
    kind: ColorSpaceKind,
    data: Seq<u8>,
    mask: (u32, u32, Seq<u8>),
    x: int,
    y: int,
    u: int,
    v: int,
)
    requires
        holds_pixels(doc, d, raw, width, height, kind, data),
        mask_of(doc, d) == Some(mask),
        0 < mask.0,
        0 < mask.1,
        0 <= x < width,
        0 <= y < height,
        u * width <= x * mask.0 < (u + 1) * width,
        v * height <= y * mask.1 < (v + 1) * height,
    ensures
        image_of(doc, d, raw)->Ok_0.2[4 * (y * width + x) + 3] == mask.2[4 * (v * mask.0 + u)],
        forall|k: int|
            0 <= k < 3 ==> #[trigger] image_of(doc, d, raw)->Ok_0.2[4 * (y * width + x) + k]
                == opaque_image(doc, d, raw)->Ok_0.2[4 * (y * width + x) + k],
{
    decoded_is(doc, d, raw, width, height, kind, data);
    let p = y * width + x;
    assert(0 <= p < width * height) by (nonlinear_arith)
        requires
            p == y * width + x,
            0 <= x < width,
            0 <= y < height,
    ;
    bytes_of_pixel(kind, data, (width * height) as nat, p);
    mask_pixel_is(width, height, mask.0 as int, mask.1 as int, x, y, u, v);
    assert((4 * p + 3) / 4 == p);
}

/// A soft mask of the same size gives each pixel the opacity that its own place says.
pub proof fn mask_of_the_same_size(
    doc: DocModel,
    d: DictModel,
    m: DictModel,
    raw: Seq<u8>,
    mask_raw: Seq<u8>,
    width: int,
    height: int,
    kind: ColorSpaceKind,
    data: Seq<u8>,
    mask_data: Seq<u8>,
    p: int,
)
    requires
        holds_pixels(doc, d, raw, width, height, kind, data),
        entry(d, "SMask"@) == Some(ObjectModel::Stream(m, mask_raw)),
        holds_pixels(doc, m, mask_raw, width, height, ColorSpaceKind::Gray, mask_data),
        0 <= p < width * height,
    ensures
        image_of(doc, d, raw)->Ok_0.2[4 * p + 3] == mask_data[p],
{
    decoded_is(doc, m, mask_raw, width, height, ColorSpaceKind::Gray, mask_data);
    bytes_of_pixel(ColorSpaceKind::Gray, mask_data, (width * height) as nat, p);
    let x = p % width;
    let y = p / width;
    assert(p == y * width + x && 0 <= x < width && 0 <= y < height) by (nonlinear_arith)
        requires
            0 < width,
            0 <= p < width * height,
            x == p % width,
            y == p / width,
    ;
    assert((x + 1) * width == x * width + width) by (nonlinear_arith);
    assert((y + 1) * height == y * height + height) by (nonlinear_arith);
    let mask = mask_of(doc, d)->0;
    mask_gives_the_opacity(doc, d, raw, width, height, kind, data, mask, x, y, x, y);
}

/// The names of the color spaces.
pub proof fn color_spaces_have_their_names(doc: DocModel, d: DictModel, name: Seq<char>)
    requires
        entry(d, "ColorSpace"@) == Some(ObjectModel::Name(name)) || (entry(d, "ColorSpace"@) is None
            && entry(d, "CS"@) == Some(ObjectModel::Name(name))),
    ensures
        color_space(doc, d) == Ok::<ColorSpaceKind, ErrorModel>(ColorSpaceKind::Gray) <==> name
            == "DeviceGray"@ || name == "CalGray"@ || name == "G"@,
        color_space(doc, d) == Ok::<ColorSpaceKind, ErrorModel>(ColorSpaceKind::Rgb) <==> name
            == "DeviceRGB"@ || name == "CalRGB"@ || name == "RGB"@,
        color_space(doc, d) == Ok::<ColorSpaceKind, ErrorModel>(ColorSpaceKind::Cmyk) <==> name
            == "DeviceCMYK"@ || name == "CMYK"@,
{
    reveal_strlit("DeviceGray");
    reveal_strlit("CalGray");
    reveal_strlit("G");
    reveal_strlit("DeviceRGB");
    reveal_strlit("CalRGB");
    reveal_strlit("RGB");
    reveal_strlit("DeviceCMYK");
    reveal_strlit("CMYK");
    assert("DeviceGray"@[6] == 'G');
    assert("DeviceCMYK"@[6] == 'C');
    assert("CalGray"@.len() == 7);
    assert("DeviceRGB"@.len() == 9);
    assert("CalRGB"@.len() == 6);
    assert("RGB"@.len() == 3);
    assert("CMYK"@.len() == 4);
    assert("G"@.len() == 1);
}

/// A color space with a profile is the one with as many components as the profile says.
pub proof fn profile_says_the_components(doc: DocModel, items: Seq<ObjectModel>, profile: DictModel, bytes: Seq<u8>, n: int)
    requires
        items.len() >= 2,
        items[0] == ObjectModel::Name("ICCBased"@),
        items[1] == ObjectModel::Stream(profile, bytes),
        entry(profile, "N"@) == Some(ObjectModel::Integer(n)),
        n == 1 || n == 3 || n == 4,
    ensures
        array_space(doc, items) is Ok,
        array_space(doc, items)->Ok_0.count() == n,
{
}

} // verus!
