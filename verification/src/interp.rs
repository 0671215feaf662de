//! Content streams carried out: from instructions to what a page shows.
//!
//! Patterns, shadings and marked content are passed over.
use vstd::prelude::*;
use crate::affine::identity_matrix;
use crate::annots::{annots_in, appearance_of, bbox_of, bounds_of, read_annots, read_appearance, read_bbox, read_rect, read_shown, shown_annot};
use crate::canvas::{begins_with, chain, chain_stays, clip_chain, clip_stays, font_at, item_stays, segment_in, segment_model, segment_models, segments_in, segments_stay, Bounds, BoundsModel, Clip, ClipModel, Color, ColorModel, DisplayItem, DisplayList, GlyphModel, ImageModel, ItemModel, Matrix, MatrixModel, PathModel, PathSegment, Point, PointModel, SegmentModel, Step, StepModel, StepNode, Transform};
use crate::content::{instruction_models, instructions, parse_content_stream, ContentInstruction, InstructionModel};
use crate::display::{FillRule, PaintOp};
use crate::document::{DocModel, Document};
use crate::error::{ErrorModel, PdfError};
use crate::filters::{decode_stream, stream_decoded};
use crate::font::{font_of, Font, FontModel, GlyphShape};
use crate::form::{num, number_of, rect_of};
use crate::image::{decode_image, image_of};
use crate::number::{real_of_int, Real, RealModel};
use crate::object::{entry, models, DictModel, Dictionary, Object, ObjectModel};
use crate::page::{Page, PageModel};
use crate::text::{be_units, same_text};

verus! {

/// The operators that do something here.
#[derive(Debug, Clone, Copy, PartialEq, Eq, Structural)]
pub enum Operator {
    Save,
    Restore,
    Concat,
    LineWidth,
    MoveTo,
    LineTo,
    CurveTo,
    CurveFromPoint,
    CurveIntoPoint,
    Close,
    Rectangle,
    Clip,
    ClipEvenOdd,
    Stroke,
    CloseStroke,
    Fill,
    FillEvenOdd,
    FillStroke,
    FillStrokeEvenOdd,
    CloseFillStroke,
    CloseFillStrokeEvenOdd,
    EndPath,
    FillGray,
    StrokeGray,
    FillRgb,
    StrokeRgb,
    FillCmyk,
    StrokeCmyk,
    FillColor,
    StrokeColor,
    ExtState,
    BeginText,
    TextFont,
    CharSpacing,
    WordSpacing,
    TextScale,
    Leading,
    Rise,
    TextMove,
    TextMoveLeading,
    TextMatrix,
    NextLine,
    Show,
    ShowOnNextLine,
    ShowSpaced,
    ShowArray,
    XObject,
    Other,
}

/// The operator with a name.
pub open spec fn operator_of(s: Seq<char>) -> Operator {
    if s == "q"@ {
        Operator::Save
    } else if s == "Q"@ {
        Operator::Restore
    } else if s == "cm"@ {
        Operator::Concat
    } else if s == "w"@ {
        Operator::LineWidth
    } else if s == "m"@ {
        Operator::MoveTo
    } else if s == "l"@ {
        Operator::LineTo
    } else if s == "c"@ {
        Operator::CurveTo
    } else if s == "v"@ {
        Operator::CurveFromPoint
    } else if s == "y"@ {
        Operator::CurveIntoPoint
    } else if s == "h"@ {
        Operator::Close
    } else if s == "re"@ {
        Operator::Rectangle
    } else if s == "W"@ {
        Operator::Clip
    } else if s == "W*"@ {
        Operator::ClipEvenOdd
    } else if s == "S"@ {
        Operator::Stroke
    } else if s == "s"@ {
        Operator::CloseStroke
    } else if s == "f"@ || s == "F"@ {
        Operator::Fill
    } else if s == "f*"@ {
        Operator::FillEvenOdd
    } else if s == "B"@ {
        Operator::FillStroke
    } else if s == "B*"@ {
        Operator::FillStrokeEvenOdd
    } else if s == "b"@ {
        Operator::CloseFillStroke
    } else if s == "b*"@ {
        Operator::CloseFillStrokeEvenOdd
    } else if s == "n"@ {
        Operator::EndPath
    } else if s == "g"@ {
        Operator::FillGray
    } else if s == "G"@ {
        Operator::StrokeGray
    } else if s == "rg"@ {
        Operator::FillRgb
    } else if s == "RG"@ {
        Operator::StrokeRgb
    } else if s == "k"@ {
        Operator::FillCmyk
    } else if s == "K"@ {
        Operator::StrokeCmyk
    } else {
        text_operator_of(s)
    }
}

/// The operator with a name, among those of colors in any space, of texts and of objects.
pub open spec fn text_operator_of(s: Seq<char>) -> Operator {
    if s == "sc"@ || s == "scn"@ {
        Operator::FillColor
    } else if s == "SC"@ || s == "SCN"@ {
        Operator::StrokeColor
    } else if s == "gs"@ {
        Operator::ExtState
    } else if s == "BT"@ {
        Operator::BeginText
    } else if s == "Tf"@ {
        Operator::TextFont
    } else if s == "Tc"@ {
        Operator::CharSpacing
    } else if s == "Tw"@ {
        Operator::WordSpacing
    } else if s == "Tz"@ {
        Operator::TextScale
    } else if s == "TL"@ {
        Operator::Leading
    } else if s == "Ts"@ {
        Operator::Rise
    } else if s == "Td"@ {
        Operator::TextMove
    } else if s == "TD"@ {
        Operator::TextMoveLeading
    } else if s == "Tm"@ {
        Operator::TextMatrix
    } else if s == "T*"@ {
        Operator::NextLine
    } else if s == "Tj"@ {
        Operator::Show
    } else if s == "'"@ {
        Operator::ShowOnNextLine
    } else if s == "\""@ {
        Operator::ShowSpaced
    } else if s == "TJ"@ {
        Operator::ShowArray
    } else if s == "Do"@ {
        Operator::XObject
    } else {
        Operator::Other
    }
}

fn find_text_operator(s: &str) -> (r: Operator)
    ensures
        r == text_operator_of(s@),
{
    if same_text(s, "sc") || same_text(s, "scn") {
        Operator::FillColor
    } else if same_text(s, "SC") || same_text(s, "SCN") {
        Operator::StrokeColor
    } else if same_text(s, "gs") {
        Operator::ExtState
    } else if same_text(s, "BT") {
        Operator::BeginText
    } else if same_text(s, "Tf") {
        Operator::TextFont
    } else if same_text(s, "Tc") {
        Operator::CharSpacing
    } else if same_text(s, "Tw") {
        Operator::WordSpacing
    } else if same_text(s, "Tz") {
        Operator::TextScale
    } else if same_text(s, "TL") {
        Operator::Leading
    } else if same_text(s, "Ts") {
        Operator::Rise
    } else if same_text(s, "Td") {
        Operator::TextMove
    } else if same_text(s, "TD") {
        Operator::TextMoveLeading
    } else if same_text(s, "Tm") {
        Operator::TextMatrix
    } else if same_text(s, "T*") {
        Operator::NextLine
    } else if same_text(s, "Tj") {
        Operator::Show
    } else if same_text(s, "'") {
        Operator::ShowOnNextLine
    } else if same_text(s, "\"") {
        Operator::ShowSpaced
    } else if same_text(s, "TJ") {
        Operator::ShowArray
    } else if same_text(s, "Do") {
        Operator::XObject
    } else {
        Operator::Other
    }
}

/// The operator with a name.
pub fn find_operator(s: &str) -> (r: Operator)
    ensures
        r == operator_of(s@),
{
    if same_text(s, "q") {
        Operator::Save
    } else if same_text(s, "Q") {
        Operator::Restore
    } else if same_text(s, "cm") {
        Operator::Concat
    } else if same_text(s, "w") {
        Operator::LineWidth
    } else if same_text(s, "m") {
        Operator::MoveTo
    } else if same_text(s, "l") {
        Operator::LineTo
    } else if same_text(s, "c") {
        Operator::CurveTo
    } else if same_text(s, "v") {
        Operator::CurveFromPoint
    } else if same_text(s, "y") {
        Operator::CurveIntoPoint
    } else if same_text(s, "h") {
        Operator::Close
    } else if same_text(s, "re") {
        Operator::Rectangle
    } else if same_text(s, "W") {
        Operator::Clip
    } else if same_text(s, "W*") {
        Operator::ClipEvenOdd
    } else if same_text(s, "S") {
        Operator::Stroke
    } else if same_text(s, "s") {
        Operator::CloseStroke
    } else if same_text(s, "f") || same_text(s, "F") {
        Operator::Fill
    } else if same_text(s, "f*") {
        Operator::FillEvenOdd
    } else if same_text(s, "B") {
        Operator::FillStroke
    } else if same_text(s, "B*") {
        Operator::FillStrokeEvenOdd
    } else if same_text(s, "b") {
        Operator::CloseFillStroke
    } else if same_text(s, "b*") {
        Operator::CloseFillStrokeEvenOdd
    } else if same_text(s, "n") {
        Operator::EndPath
    } else if same_text(s, "g") {
        Operator::FillGray
    } else if same_text(s, "G") {
        Operator::StrokeGray
    } else if same_text(s, "rg") {
        Operator::FillRgb
    } else if same_text(s, "RG") {
        Operator::StrokeRgb
    } else if same_text(s, "k") {
        Operator::FillCmyk
    } else if same_text(s, "K") {
        Operator::StrokeCmyk
    } else {
        find_text_operator(s)
    }
}

/// The state of the graphics. `h_scale` is in hundredths.
pub ghost struct GsModel {
    pub ctm: Transform,
    pub fill_color: ColorModel,
    pub stroke_color: ColorModel,
    pub line_width: RealModel,
    pub fill_alpha: RealModel,
    pub stroke_alpha: RealModel,
    pub char_spacing: RealModel,
    pub word_spacing: RealModel,
    pub h_scale: RealModel,
    pub leading: RealModel,
    pub font: Option<Seq<char>>,
    pub font_size: RealModel,
    pub text_rise: RealModel,
    pub clip: Clip,
}

/// What was shown, the state of the graphics and those saved, the path that is being made, and
/// where text goes.
pub ghost struct Gfx {
    pub items: Seq<ItemModel>,
    pub gs: GsModel,
    pub stack: Seq<GsModel>,
    pub path: Seq<SegmentModel>,
    pub point: PointModel,
    pub start: PointModel,
    pub pending_clip: Option<FillRule>,
    pub text: Transform,
    pub line: Transform,
}

pub open spec fn nought() -> RealModel {
    real_of_int(0)
}

/// The state at the start of a page.
pub open spec fn first_gs() -> GsModel {
    GsModel {
        ctm: seq![],
        fill_color: ColorModel::Gray(nought()),
        stroke_color: ColorModel::Gray(nought()),
        line_width: real_of_int(1),
        fill_alpha: real_of_int(1),
        stroke_alpha: real_of_int(1),
        char_spacing: nought(),
        word_spacing: nought(),
        h_scale: real_of_int(100),
        leading: nought(),
        font: None,
        font_size: nought(),
        text_rise: nought(),
        clip: seq![],
    }
}

pub open spec fn origin() -> PointModel {
    PointModel { x: nought(), y: nought(), right: nought(), up: nought() }
}

pub open spec fn first_gfx() -> Gfx {
    Gfx {
        items: seq![],
        gs: first_gs(),
        stack: seq![],
        path: seq![],
        point: origin(),
        start: origin(),
        pending_clip: None,
        text: seq![],
        line: seq![],
    }
}

/// The number at an index; what is none or not there counts as zero.
pub open spec fn arg(ops: Seq<ObjectModel>, i: int) -> RealModel {
    if 0 <= i < ops.len() {
        number_of(ops[i])
    } else {
        nought()
    }
}

/// The point at an index.
pub open spec fn point_arg(ops: Seq<ObjectModel>, i: int) -> PointModel {
    PointModel { x: arg(ops, i), y: arg(ops, i + 1), right: nought(), up: nought() }
}

/// Six numbers as a matrix.
pub open spec fn matrix_arg(ops: Seq<ObjectModel>) -> Option<MatrixModel> {
    if ops.len() < 6 {
        None
    } else {
        Some(
            MatrixModel {
                a: arg(ops, 0),
                b: arg(ops, 1),
                c: arg(ops, 2),
                d: arg(ops, 3),
                e: arg(ops, 4),
                f: arg(ops, 5),
            },
        )
    }
}

/// The numbers among the first `n` operands.
pub open spec fn numbers_in(ops: Seq<ObjectModel>, n: nat) -> Seq<RealModel>
    decreases n,
{
    if n == 0 {
        seq![]
    } else {
        let before = numbers_in(ops, (n - 1) as nat);
        match ops[n - 1] {
            ObjectModel::Integer(_) => before.push(number_of(ops[n - 1])),
            ObjectModel::Real(_) => before.push(number_of(ops[n - 1])),
            _ => before,
        }
    }
}

/// A color by the number of its components: one is gray, three are red, green and blue, four are
/// cyan, magenta, yellow and black.
pub open spec fn color_arg(ops: Seq<ObjectModel>) -> Option<ColorModel> {
    let s = numbers_in(ops, ops.len());
    if s.len() == 1 {
        Some(ColorModel::Gray(s[0]))
    } else if s.len() == 3 {
        Some(ColorModel::Rgb(s[0], s[1], s[2]))
    } else if s.len() == 4 {
        Some(ColorModel::Cmyk(s[0], s[1], s[2], s[3]))
    } else {
        None
    }
}

/// A path with one segment more.
pub open spec fn with_segment(g: Gfx, s: SegmentModel) -> Gfx {
    Gfx { path: g.path.push(s), ..g }
}

/// The path painted. A clip that was asked for holds from the next item on.
pub open spec fn painted(g: Gfx, paint: PaintOp, fill_rule: FillRule) -> Gfx {
    let sets_clip = g.pending_clip is Some;
    if (paint != PaintOp::Nothing || sets_clip) && g.path.len() > 0 {
        Gfx {
            items: g.items.push(
                ItemModel::Path(
                    PathModel {
                        segments: g.path,
                        paint,
                        fill_rule,
                        fill_color: g.gs.fill_color,
                        stroke_color: g.gs.stroke_color,
                        line_width: g.gs.line_width,
                        fill_alpha: g.gs.fill_alpha,
                        stroke_alpha: g.gs.stroke_alpha,
                        sets_clip,
                        clip: g.gs.clip,
                    },
                ),
            ),
            gs: GsModel {
                clip: match g.pending_clip {
                    Some(rule) => g.gs.clip.push(ClipModel { segments: g.path, fill_rule: rule }),
                    None => g.gs.clip,
                },
                ..g.gs
            },
            path: seq![],
            pending_clip: None,
            ..g
        }
    } else {
        Gfx { path: seq![], pending_clip: None, ..g }
    }
}

/// The path closed and painted.
pub open spec fn closed_painted(g: Gfx, paint: PaintOp, fill_rule: FillRule) -> Gfx {
    painted(with_segment(g, SegmentModel::ClosePath), paint, fill_rule)
}

/// A path with a rectangle more.
pub open spec fn with_rectangle(g: Gfx, ops: Seq<ObjectModel>) -> Gfx {
    let p = point_arg(ops, 0);
    let w = arg(ops, 2);
    let h = arg(ops, 3);
    let t = g.gs.ctm;
    Gfx {
        path: g.path.push(SegmentModel::MoveTo(p, t)).push(
            SegmentModel::LineTo(PointModel { right: w, ..p }, t),
        ).push(SegmentModel::LineTo(PointModel { right: w, up: h, ..p }, t)).push(
            SegmentModel::LineTo(PointModel { up: h, ..p }, t),
        ).push(SegmentModel::ClosePath),
        point: p,
        start: p,
        ..g
    }
}

/// Text moved to a new line.
pub open spec fn text_moved(g: Gfx, right: RealModel, up: RealModel) -> Gfx {
    let m = g.line.push(StepModel::Shift(right, up));
    Gfx { line: m, text: m, ..g }
}

/// Text moved down by the leading.
pub open spec fn text_down(g: Gfx) -> Gfx {
    text_moved(g, nought(), g.gs.leading.negated())
}

/// What is known of a glyph before it is shown.
pub ghost struct GlyphData {
    pub code: u32,
    pub unicode: Option<char>,
    pub width: RealModel,
    pub estimated: bool,
    pub shape: Option<GlyphShape>,
    pub program: Option<FontModel>,
    pub spaced: bool,
}

/// A glyph shown, and the place of the next one behind it.
pub open spec fn with_glyph(g: Gfx, name: Seq<char>, x: GlyphData) -> Gfx {
    Gfx {
        items: g.items.push(
            ItemModel::Glyph(
                GlyphModel {
                    font: name,
                    code: x.code,
                    unicode: x.unicode,
                    size: g.gs.font_size,
                    scale: g.gs.h_scale,
                    rise: g.gs.text_rise,
                    text: g.text,
                    ctm: g.gs.ctm,
                    color: g.gs.fill_color,
                    alpha: g.gs.fill_alpha,
                    advance_is_estimated: x.estimated,
                    shape: x.shape,
                    program: x.program,
                    clip: g.gs.clip,
                },
            ),
        ),
        text: g.text.push(
            StepModel::Advance(
                x.width,
                g.gs.font_size,
                g.gs.char_spacing,
                if x.spaced {
                    g.gs.word_spacing
                } else {
                    nought()
                },
                g.gs.h_scale,
            ),
        ),
        ..g
    }
}

/// What is known of a byte in a simple font, or without a font. Only a space takes the spacing of
/// words.
pub open spec fn byte_data(f: Option<FontModel>, code: u8) -> GlyphData {
    match f {
        Some(font) => GlyphData {
            code: code as u32,
            unicode: font.simple(code).0,
            width: font.simple(code).1,
            estimated: false,
            shape: font.shape(code, font.simple(code).0),
            program: f,
            spaced: code == 32,
        },
        None => GlyphData {
            code: code as u32,
            unicode: None,
            width: real_of_int(500),
            estimated: true,
            shape: None,
            program: None,
            spaced: code == 32,
        },
    }
}

/// What is known of a character identifier.
pub open spec fn cid_data(font: FontModel, cid: u32) -> GlyphData {
    GlyphData {
        code: cid,
        unicode: font.metrics(cid).0,
        width: font.metrics(cid).1,
        estimated: false,
        shape: font.cid_shape(cid),
        program: Some(font),
        spaced: false,
    }
}

/// The first `n` bytes shown.
pub open spec fn bytes_shown(g: Gfx, name: Seq<char>, f: Option<FontModel>, bytes: Seq<u8>, n: nat) -> Gfx
    decreases n,
{
    if n == 0 {
        g
    } else {
        with_glyph(bytes_shown(g, name, f, bytes, (n - 1) as nat), name, byte_data(f, bytes[n - 1]))
    }
}

/// The first `n` character identifiers shown.
pub open spec fn cids_shown(g: Gfx, name: Seq<char>, font: FontModel, cids: Seq<u16>, n: nat) -> Gfx
    decreases n,
{
    if n == 0 {
        g
    } else {
        with_glyph(
            cids_shown(g, name, font, cids, (n - 1) as nat),
            name,
            cid_data(font, cids[n - 1] as u32),
        )
    }
}

/// A resource by its category and its name.
pub open spec fn resource(doc: DocModel, res: DictModel, category: Seq<char>, name: Seq<char>) -> Result<
    Option<ObjectModel>,
    ErrorModel,
> {
    match entry(res, category) {
        None => Ok(None),
        Some(o) => match doc.got(o) {
            Err(e) => Err(e),
            Ok(m) => match m.dict() {
                None => Ok(None),
                Some(d) => match entry(d, name) {
                    None => Ok(None),
                    Some(x) => match doc.got(x) {
                        Err(e) => Err(e),
                        Ok(y) => Ok(Some(y)),
                    },
                },
            },
        },
    }
}

/// The font with a name, where it can be read.
pub open spec fn font_for(doc: DocModel, res: DictModel, name: Seq<char>) -> Option<FontModel> {
    match resource(doc, res, "Font"@, name) {
        Ok(Some(o)) => match o.dict() {
            Some(d) => match font_of(doc, d) {
                Ok(f) => Some(f),
                Err(_) => None,
            },
            None => None,
        },
        _ => None,
    }
}

pub open spec fn font_name(g: Gfx) -> Seq<char> {
    match g.gs.font {
        Some(n) => n,
        None => ""@,
    }
}

/// A text shown.
pub open spec fn shown(doc: DocModel, res: DictModel, g: Gfx, bytes: Seq<u8>) -> Gfx {
    let name = font_name(g);
    match font_for(doc, res, name) {
        Some(font) => if font.composite() {
            cids_shown(g, name, font, be_units(bytes), be_units(bytes).len())
        } else {
            bytes_shown(g, name, Some(font), bytes, bytes.len())
        },
        None => bytes_shown(g, name, None, bytes, bytes.len()),
    }
}

/// The string at an index shown, where there is one.
pub open spec fn shown_arg(doc: DocModel, res: DictModel, g: Gfx, ops: Seq<ObjectModel>, i: int) -> Gfx {
    if 0 <= i < ops.len() {
        match ops[i] {
            ObjectModel::String(s) => shown(doc, res, g, s),
            _ => g,
        }
    } else {
        g
    }
}

/// The first `n` items of an array shown; a number moves what follows.
pub open spec fn items_shown(doc: DocModel, res: DictModel, g: Gfx, items: Seq<ObjectModel>, n: nat) -> Gfx
    decreases n,
{
    if n == 0 {
        g
    } else {
        let before = items_shown(doc, res, g, items, (n - 1) as nat);
        match items[n - 1] {
            ObjectModel::String(s) => shown(doc, res, before, s),
            other => match other.integer() {
                Some(by) => Gfx {
                    text: before.text.push(
                        StepModel::Adjust(
                            real_of_int(by as int),
                            before.gs.font_size,
                            before.gs.h_scale,
                        ),
                    ),
                    ..before
                },
                None => before,
            },
        }
    }
}

/// The number of an entry; where it has none, what held before.
pub open spec fn number_or(d: DictModel, key: Seq<char>, before: RealModel) -> RealModel {
    match entry(d, key) {
        Some(ObjectModel::Integer(n)) => real_of_int(n),
        Some(ObjectModel::Real(r)) => r,
        _ => before,
    }
}

/// The state of the graphics with the line width and the opacities of an extended state, where
/// they are numbers. The width is a whole one.
pub open spec fn extended(gs: GsModel, d: DictModel) -> GsModel {
    GsModel {
        line_width: match entry(d, "LW"@) {
            Some(w) => match w.integer() {
                Some(n) => real_of_int(n as int),
                None => gs.line_width,
            },
            None => gs.line_width,
        },
        fill_alpha: number_or(d, "ca"@, gs.fill_alpha),
        stroke_alpha: number_or(d, "CA"@, gs.stroke_alpha),
        ..gs
    }
}

/// An extended graphics state taken up.
pub open spec fn ext_state(doc: DocModel, res: DictModel, g: Gfx, ops: Seq<ObjectModel>) -> Result<Gfx, ErrorModel> {
    if ops.len() > 0 {
        match ops[0] {
            ObjectModel::Name(name) => match resource(doc, res, "ExtGState"@, name) {
                Err(e) => Err(e),
                Ok(None) => Ok(g),
                Ok(Some(o)) => match o.dict() {
                    None => Ok(g),
                    Some(d) => Ok(Gfx { gs: extended(g.gs, d), ..g }),
                },
            },
            _ => Ok(g),
        }
    } else {
        Ok(g)
    }
}

/// The resources of a form: its own, or those that hold where it is used.
pub open spec fn form_resources(doc: DocModel, d: DictModel, res: DictModel) -> Result<DictModel, ErrorModel> {
    match entry(d, "Resources"@) {
        None => Ok(res),
        Some(o) => match doc.got(o) {
            Err(e) => Err(e),
            Ok(m) => match m.dict() {
                Some(x) => Ok(x),
                None => Ok(Map::empty()),
            },
        },
    }
}

/// The state that a form starts with.
pub open spec fn form_start(g: Gfx, d: DictModel) -> Gfx {
    let matrix = match entry(d, "Matrix"@) {
        Some(ObjectModel::Array(items)) => matrix_arg(items),
        _ => None,
    };
    match matrix {
        Some(m) => Gfx { gs: GsModel { ctm: g.gs.ctm.push(StepModel::Matrix(m)), ..g.gs }, ..g },
        None => g,
    }
}

/// An image shown; one that cannot be decoded has no pixels.
pub open spec fn image_shown(doc: DocModel, g: Gfx, name: Seq<char>, d: DictModel, raw: Seq<u8>) -> Gfx {
    Gfx {
        items: g.items.push(
            ItemModel::Image(
                ImageModel {
                    resource: name,
                    ctm: g.gs.ctm,
                    pixels: match image_of(doc, d, raw) {
                        Ok(p) => Some(p),
                        Err(_) => None,
                    },
                    alpha: g.gs.fill_alpha,
                    clip: g.gs.clip,
                },
            ),
        ),
        ..g
    }
}

/// An object shown: an image, or a form. Forms inside forms are followed `left` deep.
pub open spec fn object_shown(
    doc: DocModel,
    left: nat,
    res: DictModel,
    g: Gfx,
    ops: Seq<ObjectModel>,
) -> Result<Gfx, ErrorModel>
    decreases left, 0nat, 0nat,
{
    if ops.len() == 0 {
        Ok(g)
    } else {
        match ops[0] {
            ObjectModel::Name(name) => match resource(doc, res, "XObject"@, name) {
                Err(e) => Err(e),
                Ok(Some(ObjectModel::Stream(d, raw))) => if entry(d, "Subtype"@) == Some(
                    ObjectModel::Name("Image"@),
                ) {
                    Ok(image_shown(doc, g, name, d, raw))
                } else if entry(d, "Subtype"@) == Some(ObjectModel::Name("Form"@)) && left > 0 {
                    match stream_decoded(d, raw) {
                        Err(e) => Err(e),
                        Ok(data) => match form_resources(doc, d, res) {
                            Err(e) => Err(e),
                            Ok(r) => match run_content(
                                doc,
                                (left - 1) as nat,
                                r,
                                form_start(g, d),
                                data,
                            ) {
                                Err(e) => Err(e),
                                Ok(g1) => Ok(Gfx { gs: g.gs, ..g1 }),
                            },
                        },
                    }
                } else {
                    Ok(g)
                },
                Ok(_) => Ok(g),
            },
            _ => Ok(g),
        }
    }
}

/// The state of the graphics changed by an operator that shows nothing.
pub open spec fn state_step(g: Gfx, op: Operator, ops: Seq<ObjectModel>) -> Gfx {
    match op {
        Operator::Save => Gfx { stack: g.stack.push(g.gs), ..g },
        Operator::Restore => if g.stack.len() > 0 {
            Gfx { gs: g.stack.last(), stack: g.stack.drop_last(), ..g }
        } else {
            g
        },
        Operator::Concat => match matrix_arg(ops) {
            Some(m) => Gfx {
                gs: GsModel { ctm: g.gs.ctm.push(StepModel::Matrix(m)), ..g.gs },
                ..g
            },
            None => g,
        },
        Operator::LineWidth => Gfx { gs: GsModel { line_width: arg(ops, 0), ..g.gs }, ..g },
        Operator::FillGray => Gfx {
            gs: GsModel { fill_color: ColorModel::Gray(arg(ops, 0)), ..g.gs },
            ..g
        },
        Operator::StrokeGray => Gfx {
            gs: GsModel { stroke_color: ColorModel::Gray(arg(ops, 0)), ..g.gs },
            ..g
        },
        Operator::FillRgb => Gfx {
            gs: GsModel {
                fill_color: ColorModel::Rgb(arg(ops, 0), arg(ops, 1), arg(ops, 2)),
                ..g.gs
            },
            ..g
        },
        Operator::StrokeRgb => Gfx {
            gs: GsModel {
                stroke_color: ColorModel::Rgb(arg(ops, 0), arg(ops, 1), arg(ops, 2)),
                ..g.gs
            },
            ..g
        },
        Operator::FillCmyk => Gfx {
            gs: GsModel {
                fill_color: ColorModel::Cmyk(arg(ops, 0), arg(ops, 1), arg(ops, 2), arg(ops, 3)),
                ..g.gs
            },
            ..g
        },
        Operator::StrokeCmyk => Gfx {
            gs: GsModel {
                stroke_color: ColorModel::Cmyk(arg(ops, 0), arg(ops, 1), arg(ops, 2), arg(ops, 3)),
                ..g.gs
            },
            ..g
        },
        Operator::FillColor => match color_arg(ops) {
            Some(c) => Gfx { gs: GsModel { fill_color: c, ..g.gs }, ..g },
            None => g,
        },
        Operator::StrokeColor => match color_arg(ops) {
            Some(c) => Gfx { gs: GsModel { stroke_color: c, ..g.gs }, ..g },
            None => g,
        },
        _ => g,
    }
}

/// The path changed or painted.
pub open spec fn path_step(g: Gfx, op: Operator, ops: Seq<ObjectModel>) -> Gfx {
    let t = g.gs.ctm;
    match op {
        Operator::MoveTo => Gfx {
            path: g.path.push(SegmentModel::MoveTo(point_arg(ops, 0), t)),
            point: point_arg(ops, 0),
            start: point_arg(ops, 0),
            ..g
        },
        Operator::LineTo => Gfx {
            path: g.path.push(SegmentModel::LineTo(point_arg(ops, 0), t)),
            point: point_arg(ops, 0),
            ..g
        },
        Operator::CurveTo => Gfx {
            path: g.path.push(
                SegmentModel::CurveTo(point_arg(ops, 0), point_arg(ops, 2), point_arg(ops, 4), t),
            ),
            point: point_arg(ops, 4),
            ..g
        },
        Operator::CurveFromPoint => Gfx {
            path: g.path.push(
                SegmentModel::CurveTo(g.point, point_arg(ops, 0), point_arg(ops, 2), t),
            ),
            point: point_arg(ops, 2),
            ..g
        },
        Operator::CurveIntoPoint => Gfx {
            path: g.path.push(
                SegmentModel::CurveTo(point_arg(ops, 0), point_arg(ops, 2), point_arg(ops, 2), t),
            ),
            point: point_arg(ops, 2),
            ..g
        },
        Operator::Close => Gfx {
            path: g.path.push(SegmentModel::ClosePath),
            point: g.start,
            ..g
        },
        Operator::Rectangle => with_rectangle(g, ops),
        Operator::Clip => Gfx { pending_clip: Some(FillRule::NonZero), ..g },
        Operator::ClipEvenOdd => Gfx { pending_clip: Some(FillRule::EvenOdd), ..g },
        Operator::Stroke => painted(g, PaintOp::Stroke, FillRule::NonZero),
        Operator::CloseStroke => closed_painted(g, PaintOp::Stroke, FillRule::NonZero),
        Operator::Fill => painted(g, PaintOp::Fill, FillRule::NonZero),
        Operator::FillEvenOdd => painted(g, PaintOp::Fill, FillRule::EvenOdd),
        Operator::FillStroke => painted(g, PaintOp::FillStroke, FillRule::NonZero),
        Operator::FillStrokeEvenOdd => painted(g, PaintOp::FillStroke, FillRule::EvenOdd),
        Operator::CloseFillStroke => closed_painted(g, PaintOp::FillStroke, FillRule::NonZero),
        Operator::CloseFillStrokeEvenOdd => closed_painted(g, PaintOp::FillStroke, FillRule::EvenOdd),
        Operator::EndPath => painted(g, PaintOp::Nothing, FillRule::NonZero),
        _ => g,
    }
}

/// The state of text changed.
pub open spec fn text_step(g: Gfx, op: Operator, ops: Seq<ObjectModel>) -> Gfx {
    match op {
        Operator::BeginText => Gfx { text: seq![], line: seq![], ..g },
        Operator::TextFont => Gfx {
            gs: GsModel {
                font: if ops.len() > 0 {
                    match ops[0] {
                        ObjectModel::Name(n) => Some(n),
                        _ => g.gs.font,
                    }
                } else {
                    g.gs.font
                },
                font_size: arg(ops, 1),
                ..g.gs
            },
            ..g
        },
        Operator::CharSpacing => Gfx { gs: GsModel { char_spacing: arg(ops, 0), ..g.gs }, ..g },
        Operator::WordSpacing => Gfx { gs: GsModel { word_spacing: arg(ops, 0), ..g.gs }, ..g },
        Operator::TextScale => Gfx { gs: GsModel { h_scale: arg(ops, 0), ..g.gs }, ..g },
        Operator::Leading => Gfx { gs: GsModel { leading: arg(ops, 0), ..g.gs }, ..g },
        Operator::Rise => Gfx { gs: GsModel { text_rise: arg(ops, 0), ..g.gs }, ..g },
        Operator::TextMove => text_moved(g, arg(ops, 0), arg(ops, 1)),
        Operator::TextMoveLeading => text_moved(
            Gfx { gs: GsModel { leading: arg(ops, 1).negated(), ..g.gs }, ..g },
            arg(ops, 0),
            arg(ops, 1),
        ),
        Operator::TextMatrix => {
            let m = match matrix_arg(ops) {
                Some(x) => seq![StepModel::Matrix(x)],
                None => seq![],
            };
            Gfx { text: m, line: m, ..g }
        },
        Operator::NextLine => text_down(g),
        _ => g,
    }
}

/// A text shown by an operator.
pub open spec fn show_step(doc: DocModel, res: DictModel, g: Gfx, op: Operator, ops: Seq<ObjectModel>) -> Gfx {
    match op {
        Operator::Show => shown_arg(doc, res, g, ops, 0),
        Operator::ShowOnNextLine => shown_arg(doc, res, text_down(g), ops, 0),
        Operator::ShowSpaced => shown_arg(
            doc,
            res,
            text_down(
                Gfx {
                    gs: GsModel { word_spacing: arg(ops, 0), char_spacing: arg(ops, 1), ..g.gs },
                    ..g
                },
            ),
            ops,
            2,
        ),
        Operator::ShowArray => if ops.len() > 0 {
            match ops[0] {
                ObjectModel::Array(items) => items_shown(doc, res, g, items, items.len()),
                _ => g,
            }
        } else {
            g
        },
        _ => g,
    }
}

/// Which operators change the state of the graphics, make or paint a path, set text or show it.
#[derive(Debug, Clone, Copy, PartialEq, Eq, Structural)]
pub enum OperatorKind {
    State,
    Path,
    Text,
    Show,
    ExtState,
    XObject,
}

pub open spec fn kind_of(op: Operator) -> OperatorKind {
    match op {
        Operator::Save | Operator::Restore | Operator::Concat | Operator::LineWidth => OperatorKind::State,
        Operator::FillGray | Operator::StrokeGray | Operator::FillRgb | Operator::StrokeRgb => OperatorKind::State,
        Operator::FillCmyk | Operator::StrokeCmyk | Operator::FillColor => OperatorKind::State,
        Operator::StrokeColor | Operator::Other => OperatorKind::State,
        Operator::BeginText | Operator::TextFont | Operator::CharSpacing => OperatorKind::Text,
        Operator::WordSpacing | Operator::TextScale | Operator::Leading => OperatorKind::Text,
        Operator::Rise | Operator::TextMove | Operator::TextMoveLeading => OperatorKind::Text,
        Operator::TextMatrix | Operator::NextLine => OperatorKind::Text,
        Operator::Show | Operator::ShowOnNextLine => OperatorKind::Show,
        Operator::ShowSpaced | Operator::ShowArray => OperatorKind::Show,
        Operator::ExtState => OperatorKind::ExtState,
        Operator::XObject => OperatorKind::XObject,
        _ => OperatorKind::Path,
    }
}

/// An instruction carried out.
pub open spec fn executed(
    doc: DocModel,
    left: nat,
    res: DictModel,
    g: Gfx,
    x: InstructionModel,
) -> Result<Gfx, ErrorModel>
    decreases left, 1nat, 0nat,
{
    let op = operator_of(x.operator);
    match kind_of(op) {
        OperatorKind::State => Ok(state_step(g, op, x.operands)),
        OperatorKind::Path => Ok(path_step(g, op, x.operands)),
        OperatorKind::Text => Ok(text_step(g, op, x.operands)),
        OperatorKind::Show => Ok(show_step(doc, res, g, op, x.operands)),
        OperatorKind::ExtState => ext_state(doc, res, g, x.operands),
        OperatorKind::XObject => object_shown(doc, left, res, g, x.operands),
    }
}

/// The instructions from the `i`-th on carried out.
pub open spec fn executed_from(
    doc: DocModel,
    left: nat,
    res: DictModel,
    g: Gfx,
    list: Seq<InstructionModel>,
    i: nat,
) -> Result<Gfx, ErrorModel>
    decreases left, 2nat, list.len() - i,
{
    if i >= list.len() {
        Ok(g)
    } else {
        match executed(doc, left, res, g, list[i as int]) {
            Err(e) => Err(e),
            Ok(g1) => executed_from(doc, left, res, g1, list, i + 1),
        }
    }
}

/// A content stream carried out.
pub open spec fn run_content(doc: DocModel, left: nat, res: DictModel, g: Gfx, content: Seq<u8>) -> Result<
    Gfx,
    ErrorModel,
>
    decreases left, 3nat, 0nat,
{
    match instructions(content) {
        Err(e) => Err(e),
        Ok(list) => executed_from(doc, left, res, g, list, 0),
    }
}

/// How deep forms inside forms are followed.
pub const MAX_XOBJECT_DEPTH: usize = 12;

/// What a page shows.
pub open spec fn page_items(doc: DocModel, res: DictModel, content: Seq<u8>) -> Result<
    Seq<ItemModel>,
    ErrorModel,
> {
    match run_content(doc, MAX_XOBJECT_DEPTH as nat, res, first_gfx(), content) {
        Err(e) => Err(e),
        Ok(g) => Ok(g.items),
    }
}

/// A new start, with what was shown.
#[verifier::opaque]
pub open spec fn fresh_gfx(items: Seq<ItemModel>) -> Gfx {
    Gfx { items, ..first_gfx() }
}

/// A transform done before those that there are.
pub open spec fn with_step(g: Gfx, step: StepModel) -> Gfx {
    Gfx { gs: GsModel { ctm: g.gs.ctm.push(step), ..g.gs }, ..g }
}

/// The matrix of a form.
#[verifier::opaque]
pub open spec fn form_matrix(d: DictModel) -> MatrixModel {
    match entry(d, "Matrix"@) {
        Some(ObjectModel::Array(list)) => match matrix_arg(list) {
            Some(m) => m,
            None => identity_matrix(),
        },
        _ => identity_matrix(),
    }
}

/// The state that the appearance of an annotation starts with: its box is brought into the
/// annotation's rectangle.
pub open spec fn annot_start(items: Seq<ItemModel>, bbox: BoundsModel, d: DictModel, rect: BoundsModel) -> Gfx {
    with_step(fresh_gfx(items), StepModel::Fit(bbox, form_matrix(d), rect))
}

/// How an annotation is shown: its rectangle, and the box, the dictionary, the resources and the
/// content of its appearance.
pub ghost struct AnnotForm {
    pub rect: BoundsModel,
    pub bbox: BoundsModel,
    pub dict: DictModel,
    pub resources: DictModel,
    pub content: Seq<u8>,
}

/// How an annotation is shown. One that cannot be read or is hidden is not.
pub open spec fn annot_form(doc: DocModel, res: DictModel, o: ObjectModel) -> Option<AnnotForm> {
    match shown_annot(doc, o) {
        None => None,
        Some(d) => match (rect_of(d), appearance_of(doc, d)) {
            (Some(rect), Some((dict, raw))) => match (
                bbox_of(dict),
                stream_decoded(dict, raw),
                form_resources(doc, dict, res),
            ) {
                (Some(bbox), Ok(content), Ok(resources)) => Some(
                    AnnotForm { rect: bounds_of(rect), bbox, dict, resources, content },
                ),
                _ => None,
            },
            _ => None,
        },
    }
}

/// What is shown with an annotation behind it. An appearance that cannot be carried out to its
/// end shows nothing.
pub open spec fn with_annot(doc: DocModel, res: DictModel, items: Seq<ItemModel>, o: ObjectModel) -> Seq<
    ItemModel,
> {
    match annot_form(doc, res, o) {
        None => items,
        Some(x) => match run_content(
            doc,
            MAX_XOBJECT_DEPTH as nat,
            x.resources,
            form_start(annot_start(items, x.bbox, x.dict, x.rect), x.dict),
            x.content,
        ) {
            Ok(g) => g.items,
            Err(_) => items,
        },
    }
}

/// What is shown with the first `n` annotations.
pub open spec fn with_annots(
    doc: DocModel,
    res: DictModel,
    items: Seq<ItemModel>,
    annots: Seq<ObjectModel>,
    n: nat,
) -> Seq<ItemModel>
    decreases n,
{
    if n == 0 {
        items
    } else {
        with_annot(doc, res, with_annots(doc, res, items, annots, (n - 1) as nat), annots[n - 1])
    }
}

/// What a page shows with its annotations.
pub open spec fn page_and_annots(doc: DocModel, page: PageModel, content: Seq<u8>) -> Result<
    Seq<ItemModel>,
    ErrorModel,
> {
    match page_items(doc, page.resources, content) {
        Err(e) => Err(e),
        Ok(items) => match annots_in(doc, page.dict) {
            Err(e) => Err(e),
            Ok(annots) => Ok(with_annots(doc, page.resources, items, annots, annots.len())),
        },
    }
}

/// The state of the graphics; transforms and clips are nodes of the display list.
struct GraphicsState {
    ctm: usize,
    fill_color: Color,
    stroke_color: Color,
    line_width: Real,
    fill_alpha: Real,
    stroke_alpha: Real,
    char_spacing: Real,
    word_spacing: Real,
    h_scale: Real,
    leading: Real,
    font: Option<String>,
    font_size: Real,
    text_rise: Real,
    clip: usize,
}

spec fn name_model(n: Option<String>) -> Option<Seq<char>> {
    match n {
        Some(t) => Some(t@),
        None => None,
    }
}

spec fn gs_model(d: DisplayList, gs: GraphicsState) -> GsModel {
    GsModel {
        ctm: chain(d.steps@, gs.ctm as int),
        fill_color: gs.fill_color@,
        stroke_color: gs.stroke_color@,
        line_width: gs.line_width@,
        fill_alpha: gs.fill_alpha@,
        stroke_alpha: gs.stroke_alpha@,
        char_spacing: gs.char_spacing@,
        word_spacing: gs.word_spacing@,
        h_scale: gs.h_scale@,
        leading: gs.leading@,
        font: name_model(gs.font),
        font_size: gs.font_size@,
        text_rise: gs.text_rise@,
        clip: clip_chain(d.steps@, d.clips@, gs.clip as int),
    }
}

spec fn gs_models(d: DisplayList, s: Seq<GraphicsState>) -> Seq<GsModel> {
    s.map_values(|gs: GraphicsState| gs_model(d, gs))
}

spec fn gs_in(d: DisplayList, gs: GraphicsState) -> bool {
    gs.ctm <= d.steps@.len() && gs.clip <= d.clips@.len()
}

fn clone_gs(gs: &GraphicsState) -> (r: GraphicsState)
    ensures
        forall|d: DisplayList| #[trigger] gs_model(d, r) == gs_model(d, *gs),
        r.ctm == gs.ctm,
        r.clip == gs.clip,
{
    let font = match &gs.font {
        Some(t) => Some(t.as_str().to_owned()),
        None => None,
    };
    GraphicsState {
        ctm: gs.ctm,
        fill_color: gs.fill_color.clone(),
        stroke_color: gs.stroke_color.clone(),
        line_width: gs.line_width.clone(),
        fill_alpha: gs.fill_alpha.clone(),
        stroke_alpha: gs.stroke_alpha.clone(),
        char_spacing: gs.char_spacing.clone(),
        word_spacing: gs.word_spacing.clone(),
        h_scale: gs.h_scale.clone(),
        leading: gs.leading.clone(),
        font,
        font_size: gs.font_size.clone(),
        text_rise: gs.text_rise.clone(),
        clip: gs.clip,
    }
}

/// The state at the start of a page.
fn first_state() -> (gs: GraphicsState)
    ensures
        forall|d: DisplayList| #[trigger] gs_model(d, gs) == first_gs(),
        gs.ctm == 0,
        gs.clip == 0,
{
    GraphicsState {
        ctm: 0,
        fill_color: Color::Gray(nil()),
        stroke_color: Color::Gray(nil()),
        line_width: Real::from_int(1),
        fill_alpha: Real::from_int(1),
        stroke_alpha: Real::from_int(1),
        char_spacing: nil(),
        word_spacing: nil(),
        h_scale: Real::from_int(100),
        leading: nil(),
        font: None,
        font_size: nil(),
        text_rise: nil(),
        clip: 0,
    }
}

/// How an annotation is shown.
struct AnnotParts {
    rect: Bounds,
    bbox: Bounds,
    dict: Dictionary,
    resources: Dictionary,
    content: Vec<u8>,
}

impl View for AnnotParts {
    type V = AnnotForm;

    closed spec fn view(&self) -> AnnotForm {
        AnnotForm {
            rect: self.rect@,
            bbox: self.bbox@,
            dict: self.dict@,
            resources: self.resources@,
            content: self.content@,
        }
    }
}

/// Carries out content streams.
pub struct Interpreter<'a> {
    doc: &'a Document,
    display: DisplayList,
    gs: GraphicsState,
    gs_stack: Vec<GraphicsState>,
    current_path: Vec<PathSegment>,
    current_point: Point,
    subpath_start: Point,
    pending_clip: Option<FillRule>,
    text_matrix: usize,
    text_line_matrix: usize,
    /// The font that was used last, by its name and its number.
    last_font: Option<(String, usize)>,
}

impl<'a> View for Interpreter<'a> {
    type V = Gfx;

    closed spec fn view(&self) -> Gfx {
        Gfx {
            items: self.display@,
            gs: gs_model(self.display, self.gs),
            stack: gs_models(self.display, self.gs_stack@),
            path: segment_models(self.display.steps@, self.current_path@),
            point: self.current_point@,
            start: self.subpath_start@,
            pending_clip: self.pending_clip,
            text: chain(self.display.steps@, self.text_matrix as int),
            line: chain(self.display.steps@, self.text_line_matrix as int),
        }
    }
}

fn nil() -> (r: Real)
    ensures
        r@ == nought(),
{
    Real::from_int(0)
}

/// The number of an entry; where it has none, what held before.
fn get_number_or(d: &Dictionary, key: &str, before: &Real) -> (r: Real)
    ensures
        r@ == number_or(d@, key@, before@),
{
    match d.get(key) {
        Some(Object::Integer(n)) => Real::from_int(*n),
        Some(Object::Real(x)) => x.clone(),
        _ => before.clone(),
    }
}

/// The number at an index.
fn number_arg(ops: &[Object], i: usize) -> (r: Real)
    ensures
        r@ == arg(models(ops@), i as int),
{
    if i < ops.len() {
        assert(models(ops@)[i as int] == ops@[i as int]@);
        num(&ops[i])
    } else {
        nil()
    }
}

fn point_from(ops: &[Object], i: usize) -> (r: Point)
    requires
        i < 100,
    ensures
        r@ == point_arg(models(ops@), i as int),
{
    Point { x: number_arg(ops, i), y: number_arg(ops, i + 1), right: nil(), up: nil() }
}

/// Six numbers as a matrix.
fn matrix_from(ops: &[Object]) -> (r: Option<Matrix>)
    ensures
        match r {
            Some(m) => matrix_arg(models(ops@)) == Some(m@),
            None => matrix_arg(models(ops@)) is None,
        },
{
    if ops.len() < 6 {
        return None;
    }
    Some(
        Matrix {
            a: number_arg(ops, 0),
            b: number_arg(ops, 1),
            c: number_arg(ops, 2),
            d: number_arg(ops, 3),
            e: number_arg(ops, 4),
            f: number_arg(ops, 5),
        },
    )
}

/// The matrix of a form.
fn read_form_matrix(dict: &Dictionary) -> (r: Matrix)
    ensures
        r@ == form_matrix(dict@),
{
    proof {
        reveal(form_matrix);
    }
    match dict.get("Matrix") {
        Some(x) => match x.as_array() {
            Some(list) => match matrix_from(list) {
                Some(m) => m,
                None => Matrix::identity(),
            },
            None => Matrix::identity(),
        },
        None => Matrix::identity(),
    }
}

spec fn reals(s: Seq<Real>) -> Seq<RealModel> {
    s.map_values(|r: Real| r@)
}

/// A color by the number of its components.
fn color_from_components(ops: &[Object]) -> (r: Option<Color>)
    ensures
        match r {
            Some(c) => color_arg(models(ops@)) == Some(c@),
            None => color_arg(models(ops@)) is None,
        },
{
    let ghost ms = models(ops@);
    let mut s: Vec<Real> = Vec::new();
    assert(reals(s@) =~= seq![]);
    let mut i: usize = 0;
    while i < ops.len()
        invariant
            0 <= i <= ops@.len(),
            ms == models(ops@),
            reals(s@) == numbers_in(ms, i as nat),
        decreases ops@.len() - i,
    {
        let ghost before = reals(s@);
        assert(ms[i as int] == ops@[i as int]@);
        match &ops[i] {
            Object::Integer(_) | Object::Real(_) => {
                let x = num(&ops[i]);
                s.push(x);
                assert(reals(s@) =~= before.push(x@));
            },
            _ => {},
        }
        i += 1;
    }
    proof {
        assert(reals(s@).len() == s@.len());
        assert(numbers_in(ms, ms.len()) == reals(s@));
    }
    if s.len() == 1 {
        Some(Color::Gray(s[0].clone()))
    } else if s.len() == 3 {
        Some(Color::Rgb(s[0].clone(), s[1].clone(), s[2].clone()))
    } else if s.len() == 4 {
        Some(Color::Cmyk(s[0].clone(), s[1].clone(), s[2].clone(), s[3].clone()))
    } else {
        None
    }
}

/// What a glyph is before it is shown.
struct GlyphFacts {
    code: u32,
    unicode: Option<char>,
    width: Real,
    estimated: bool,
    shape: Option<GlyphShape>,
    spaced: bool,
}

spec fn glyph_data(x: GlyphFacts, program: Option<FontModel>) -> GlyphData {
    GlyphData {
        code: x.code,
        unicode: x.unicode,
        width: x.width@,
        estimated: x.estimated,
        shape: x.shape,
        program,
        spaced: x.spaced,
    }
}

impl<'a> Interpreter<'a> {
    /// All that is named is there.
    pub closed spec fn wf(&self) -> bool {
        &&& self.display.wf()
        &&& gs_in(self.display, self.gs)
        &&& forall|i: int| 0 <= i < self.gs_stack@.len() ==> gs_in(self.display, #[trigger] self.gs_stack@[i])
        &&& segments_in(self.current_path@, self.display.steps@.len())
        &&& self.text_matrix <= self.display.steps@.len()
        &&& self.text_line_matrix <= self.display.steps@.len()
    }

    /// The document that is shown.
    pub closed spec fn source(&self) -> DocModel {
        self.doc@
    }

    /// The font that was used last is the one that its name has.
    pub closed spec fn remembers(&self, res: DictModel) -> bool {
        match self.last_font {
            Some((name, k)) => {
                &&& k <= self.display.fonts@.len()
                &&& font_for(self.doc@, res, name@) == font_at(self.display.fonts@, k as int)
                &&& k > 0 ==> self.display.fonts@[k - 1].wf()
            },
            None => true,
        }
    }

    /// Shows nothing yet.
    pub fn new(doc: &'a Document) -> (r: Self)
        ensures
            r.wf(),
            r@ == first_gfx(),
            r.source() == doc@,
            forall|res: DictModel| #[trigger] r.remembers(res),
    {
        let gs = first_state();
        let r = Interpreter {
            doc,
            display: DisplayList::new(),
            gs,
            gs_stack: Vec::new(),
            current_path: Vec::new(),
            current_point: Point { x: nil(), y: nil(), right: nil(), up: nil() },
            subpath_start: Point { x: nil(), y: nil(), right: nil(), up: nil() },
            pending_clip: None,
            text_matrix: 0,
            text_line_matrix: 0,
            last_font: None,
        };
        proof {
            assert(r@.items =~= seq![]);
            assert(r@.stack =~= seq![]);
            assert(r@.path =~= seq![]);
        }
        r
    }

    /// A display list with more at its ends says the same of all that was there.
    proof fn display_grows(self, old_display: DisplayList)
        requires
            old_display.wf(),
            begins_with(self.display.steps@, old_display.steps@),
            begins_with(self.display.clips@, old_display.clips@),
            gs_in(old_display, self.gs),
            forall|i: int| 0 <= i < self.gs_stack@.len() ==> gs_in(old_display, #[trigger] self.gs_stack@[i]),
            segments_in(self.current_path@, old_display.steps@.len()),
            self.text_matrix <= old_display.steps@.len(),
            self.text_line_matrix <= old_display.steps@.len(),
        ensures
            gs_model(self.display, self.gs) == gs_model(old_display, self.gs),
            gs_models(self.display, self.gs_stack@) == gs_models(old_display, self.gs_stack@),
            segment_models(self.display.steps@, self.current_path@) == segment_models(
                old_display.steps@,
                self.current_path@,
            ),
            segments_in(self.current_path@, self.display.steps@.len()),
            chain(self.display.steps@, self.text_matrix as int) == chain(
                old_display.steps@,
                self.text_matrix as int,
            ),
            chain(self.display.steps@, self.text_line_matrix as int) == chain(
                old_display.steps@,
                self.text_line_matrix as int,
            ),
            gs_in(self.display, self.gs),
            forall|i: int| 0 <= i < self.gs_stack@.len() ==> gs_in(self.display, #[trigger] self.gs_stack@[i]),
    {
        let a = old_display.steps@;
        let b = self.display.steps@;
        let p = old_display.clips@;
        let q = self.display.clips@;
        chain_stays(a, b, self.gs.ctm as int);
        clip_stays(a, b, p, q, self.gs.clip as int);
        chain_stays(a, b, self.text_matrix as int);
        chain_stays(a, b, self.text_line_matrix as int);
        segments_stay(a, b, self.current_path@);
        assert forall|i: int| 0 <= i < self.gs_stack@.len() implies gs_model(
            self.display,
            #[trigger] self.gs_stack@[i],
        ) == gs_model(old_display, self.gs_stack@[i]) && gs_in(self.display, self.gs_stack@[i]) by {
            assert(gs_in(old_display, self.gs_stack@[i]));
            chain_stays(a, b, self.gs_stack@[i].ctm as int);
            clip_stays(a, b, p, q, self.gs_stack@[i].clip as int);
        }
        assert(gs_models(self.display, self.gs_stack@) =~= gs_models(old_display, self.gs_stack@));
    }

    /// Adds a step on a transform; nothing uses it yet.
    fn add_step(&mut self, step: Step, below: usize) -> (k: usize)
        requires
            old(self).wf(),
            below <= old(self).display.steps@.len(),
        ensures
            final(self).wf(),
            final(self)@ == old(self)@,
            final(self).doc == old(self).doc,
            final(self).grew(old(self)),
            final(self).gs == old(self).gs,
            final(self).gs_stack == old(self).gs_stack,
            final(self).current_path == old(self).current_path,
            final(self).current_point == old(self).current_point,
            final(self).subpath_start == old(self).subpath_start,
            final(self).pending_clip == old(self).pending_clip,
            final(self).text_matrix == old(self).text_matrix,
            final(self).text_line_matrix == old(self).text_line_matrix,
            final(self).last_font == old(self).last_font,
            final(self).display.fonts == old(self).display.fonts,
            final(self).display.clips == old(self).display.clips,
            k == final(self).display.steps@.len(),
            chain(final(self).display.steps@, k as int) == chain(
                old(self).display.steps@,
                below as int,
            ).push(step@),
    {
        let k: usize = self.display.push_step(step, below);
        proof {
            self.display_grows(old(self).display);
        }
        k
    }

    /// Adds a segment to the path.
    fn add_segment(&mut self, segment: PathSegment)
        requires
            old(self).wf(),
            segment_in(segment, old(self).display.steps@.len()),
        ensures
            final(self).wf(),
            final(self)@ == with_segment(
                old(self)@,
                segment_model(old(self).display.steps@, segment),
            ),
            final(self).doc == old(self).doc,
            final(self).grew(old(self)),
            final(self).display == old(self).display,
            final(self).gs == old(self).gs,
            final(self).last_font == old(self).last_font,
    {
        self.current_path.push(segment);
        proof {
            let before = old(self).current_path@;
            assert forall|i: int| 0 <= i < self.current_path@.len() implies segment_in(
                #[trigger] self.current_path@[i],
                self.display.steps@.len(),
            ) by {
                if i < before.len() {
                    assert(segment_in(before[i], self.display.steps@.len()));
                }
            }
            assert(segment_models(self.display.steps@, self.current_path@) =~= segment_models(
                self.display.steps@,
                before,
            ).push(segment_model(self.display.steps@, segment)));
        }
    }

    /// Paints the path.
    fn paint_path(&mut self, paint: PaintOp, fill_rule: FillRule)
        requires
            old(self).wf(),
        ensures
            final(self).wf(),
            final(self)@ == painted(old(self)@, paint, fill_rule),
            final(self).doc == old(self).doc,
            final(self).grew(old(self)),
            final(self).last_font == old(self).last_font,
            final(self).display.fonts == old(self).display.fonts,
    {
        let ghost start = self@;
        let sets_clip = self.pending_clip.is_some();
        if (paint != PaintOp::Nothing || sets_clip) && self.current_path.len() > 0 {
            let segments = clone_segments(&self.current_path);
            let clip_before: usize = self.gs.clip;
            proof {
                assert(segment_models(self.display.steps@, segments@) == start.path);
            }
            match self.pending_clip {
                Some(rule) => {
                    let own = clone_segments(&self.current_path);
                    let ghost display = self.display;
                    let k: usize = self.display.push_clip(own, rule, clip_before);
                    proof {
                        self.display_grows(display);
                        clip_stays(
                            display.steps@,
                            self.display.steps@,
                            display.clips@,
                            self.display.clips@,
                            clip_before as int,
                        );
                    }
                    self.gs.clip = k;
                },
                None => {},
            }
            let ghost mid = self@;
            let item = DisplayItem::Path {
                segments,
                paint,
                fill_rule,
                fill_color: self.gs.fill_color.clone(),
                stroke_color: self.gs.stroke_color.clone(),
                line_width: self.gs.line_width.clone(),
                fill_alpha: self.gs.fill_alpha.clone(),
                stroke_alpha: self.gs.stroke_alpha.clone(),
                sets_clip,
                clip: clip_before,
            };
            self.display.push_item(item);
            assert(gs_models(self.display, self.gs_stack@) =~= mid.stack);
        } else {
            assert(start.path.len() == self.current_path@.len());
        }
        self.current_path = Vec::new();
        self.pending_clip = None;
        assert(self@.path =~= seq![]);
        assert(self@ == painted(start, paint, fill_rule));
    }

    /// Shows a glyph in the font with a number.
    fn emit_glyph(&mut self, font_name: &str, x: GlyphFacts, font_number: usize)
        requires
            old(self).wf(),
            font_number <= old(self).display.fonts@.len(),
        ensures
            final(self).wf(),
            final(self)@ == with_glyph(
                old(self)@,
                font_name@,
                glyph_data(x, font_at(old(self).display.fonts@, font_number as int)),
            ),
            final(self).doc == old(self).doc,
            final(self).grew(old(self)),
            final(self).last_font == old(self).last_font,
            final(self).display.fonts == old(self).display.fonts,
    {
        let item = DisplayItem::Glyph {
            font: font_name.to_owned(),
            code: x.code,
            unicode: x.unicode,
            size: self.gs.font_size.clone(),
            scale: self.gs.h_scale.clone(),
            rise: self.gs.text_rise.clone(),
            text: self.text_matrix,
            ctm: self.gs.ctm,
            color: self.gs.fill_color.clone(),
            alpha: self.gs.fill_alpha.clone(),
            advance_is_estimated: x.estimated,
            shape: x.shape,
            font_number,
            clip: self.gs.clip,
        };
        self.display.push_item(item);
        proof {
            assert(gs_models(self.display, self.gs_stack@) =~= old(self)@.stack);
        }
        let word = if x.spaced {
            self.gs.word_spacing.clone()
        } else {
            nil()
        };
        let step = Step::Advance {
            width: x.width,
            size: self.gs.font_size.clone(),
            spacing: self.gs.char_spacing.clone(),
            word,
            scale: self.gs.h_scale.clone(),
        };
        let k: usize = self.add_step(step, self.text_matrix);
        self.text_matrix = k;
    }
}

fn clone_segments(s: &Vec<PathSegment>) -> (r: Vec<PathSegment>)
    ensures
        forall|steps: Seq<StepNode>| #[trigger]
            segment_models(steps, r@) == segment_models(steps, s@),
        forall|n: nat| segments_in(s@, n) ==> #[trigger] segments_in(r@, n),
{
    let mut r: Vec<PathSegment> = Vec::new();
    let mut i: usize = 0;
    while i < s.len()
        invariant
            0 <= i <= s@.len(),
            r@.len() == i,
            forall|j: int, steps: Seq<StepNode>|
                0 <= j < i ==> #[trigger] segment_model(steps, r@[j]) == segment_model(steps, s@[j]),
            forall|j: int, n: nat|
                0 <= j < i ==> #[trigger] segment_in(r@[j], n) == segment_in(s@[j], n),
        decreases s@.len() - i,
    {
        r.push(s[i].clone());
        i += 1;
    }
    proof {
        assert forall|steps: Seq<StepNode>| #[trigger]
            segment_models(steps, r@) == segment_models(steps, s@) by {
            assert forall|j: int| 0 <= j < s@.len() implies segment_model(steps, #[trigger] r@[j])
                == segment_model(steps, s@[j]) by {}
            assert(segment_models(steps, r@) =~= segment_models(steps, s@));
        }
        assert forall|n: nat| segments_in(s@, n) implies #[trigger] segments_in(r@, n) by {
            assert forall|j: int| 0 <= j < r@.len() implies segment_in(#[trigger] r@[j], n) by {
                assert(segment_in(s@[j], n));
            }
        }
    }
    r
}

impl<'a> Interpreter<'a> {
    /// A resource by its category and its name.
    fn lookup_resource(&self, res: &Dictionary, category: &str, name: &str) -> (r: Result<
        Option<Object>,
        PdfError,
    >)
        ensures
            match resource(self.source(), res@, category@, name@) {
                Ok(Some(o)) => r is Ok && r->Ok_0 is Some && r->Ok_0->0@ == o,
                Ok(None) => r is Ok && r->Ok_0 is None,
                Err(e) => r is Err && r->Err_0@ == e,
            },
    {
        let list = match res.get(category) {
            None => {
                return Ok(None);
            },
            Some(o) => match self.doc.get(o) {
                Ok(m) => m,
                Err(e) => {
                    return Err(e);
                },
            },
        };
        match list.as_dict() {
            None => Ok(None),
            Some(d) => match d.get(name) {
                None => Ok(None),
                Some(x) => match self.doc.get(x) {
                    Ok(y) => Ok(Some(y)),
                    Err(e) => Err(e),
                },
            },
        }
    }

    /// The font with a name, where it can be read.
    fn load_font(&self, res: &Dictionary, name: &str) -> (r: Option<Font>)
        ensures
            match r {
                Some(f) => font_for(self.source(), res@, name@) == Some(f@) && f.wf(),
                None => font_for(self.source(), res@, name@) is None,
            },
    {
        match self.lookup_resource(res, "Font", name) {
            Ok(Some(o)) => match o.as_dict() {
                Some(d) => match Font::load(self.doc, d) {
                    Ok(f) => Some(f),
                    Err(_) => None,
                },
                None => None,
            },
            _ => None,
        }
    }

    /// The number of the font with a name; 0 where it cannot be read.
    fn number_of_font(&mut self, res: &Dictionary, name: &str) -> (k: usize)
        requires
            old(self).wf(),
            old(self).remembers(res@),
        ensures
            final(self).wf(),
            final(self)@ == old(self)@,
            final(self).doc == old(self).doc,
            final(self).grew(old(self)),
            final(self).remembers(res@),
            k <= final(self).display.fonts@.len(),
            font_at(final(self).display.fonts@, k as int) == font_for(old(self).source(), res@, name@),
            k > 0 ==> final(self).display.fonts@[k - 1].wf(),
    {
        match &self.last_font {
            Some((last, k)) => {
                if same_text(last.as_str(), name) {
                    return *k;
                }
            },
            None => {},
        }
        match self.load_font(res, name) {
            Some(f) => {
                let ghost display = self.display;
                let k: usize = self.display.push_font(f);
                proof {
                    self.display_grows(display);
                }
                self.last_font = Some((name.to_owned(), k));
                k
            },
            None => {
                self.last_font = Some((name.to_owned(), 0));
                0
            },
        }
    }

    /// Shows a text.
    fn show_text(&mut self, res: &Dictionary, bytes: &[u8])
        requires
            old(self).wf(),
            old(self).remembers(res@),
        ensures
            final(self).wf(),
            final(self)@ == shown(old(self).source(), res@, old(self)@, bytes@),
            final(self).doc == old(self).doc,
            final(self).grew(old(self)),
            final(self).remembers(res@),
    {
        let name: String = match &self.gs.font {
            Some(n) => n.as_str().to_owned(),
            None => "".to_owned(),
        };
        let ghost start = self@;
        assert(name@ == font_name(start));
        let k: usize = self.number_of_font(res, name.as_str());
        let ghost font = font_for(self.doc@, res@, name@);
        if k > 0 && self.display.fonts[k - 1].is_composite() {
            let cids = self.display.fonts[k - 1].decode_composite(bytes);
            let ghost list = be_units(bytes@);
            let mut i: usize = 0;
            while i < cids.len()
                invariant
                    0 <= i <= cids@.len(),
                    cids@ == list.map_values(|u: u16| u as u32),
                    self.wf(),
                    self.doc == old(self).doc,
                    self.grew(old(self)),
                    self.remembers(res@),
                    0 < k <= self.display.fonts@.len(),
                    font == Some(self.display.fonts@[k - 1]@),
                    self@ == cids_shown(start, name@, font->0, list, i as nat),
                decreases cids@.len() - i,
            {
                let cid: u32 = cids[i];
                assert(cid == list[i as int] as u32);
                let f = &self.display.fonts[k - 1];
                let (unicode, width) = f.cid_metrics(cid);
                let shape = f.cid_glyph_shape(cid);
                let x = GlyphFacts {
                    code: cid,
                    unicode,
                    width,
                    estimated: false,
                    shape,
                    spaced: false,
                };
                assert(glyph_data(x, font) == cid_data(font->0, cid));
                self.emit_glyph(name.as_str(), x, k);
                i += 1;
            }
        } else {
            let mut i: usize = 0;
            while i < bytes.len()
                invariant
                    0 <= i <= bytes@.len(),
                    self.wf(),
                    self.doc == old(self).doc,
                    self.grew(old(self)),
                    self.remembers(res@),
                    k <= self.display.fonts@.len(),
                    font == font_at(self.display.fonts@, k as int),
                    k > 0 ==> self.display.fonts@[k - 1].wf(),
                    self@ == bytes_shown(start, name@, font, bytes@, i as nat),
                decreases bytes@.len() - i,
            {
                let code: u8 = bytes[i];
                let x = if k > 0 {
                    let f = &self.display.fonts[k - 1];
                    let (unicode, width) = f.decode_simple(code);
                    let shape = f.glyph_shape(code, unicode);
                    GlyphFacts {
                        code: code as u32,
                        unicode,
                        width,
                        estimated: false,
                        shape,
                        spaced: code == 32,
                    }
                } else {
                    GlyphFacts {
                        code: code as u32,
                        unicode: None,
                        width: Real::from_int(500),
                        estimated: true,
                        shape: None,
                        spaced: code == 32,
                    }
                };
                assert(glyph_data(x, font) == byte_data(font, code));
                self.emit_glyph(name.as_str(), x, k);
                i += 1;
            }
        }
    }

    /// Shows the string at an index, where there is one.
    fn show_arg(&mut self, res: &Dictionary, ops: &[Object], i: usize)
        requires
            old(self).wf(),
            old(self).remembers(res@),
        ensures
            final(self).wf(),
            final(self)@ == shown_arg(old(self).source(), res@, old(self)@, models(ops@), i as int),
            final(self).doc == old(self).doc,
            final(self).grew(old(self)),
            final(self).remembers(res@),
    {
        if i < ops.len() {
            assert(models(ops@)[i as int] == ops@[i as int]@);
            match &ops[i] {
                Object::String(s) => {
                    self.show_text(res, s.as_slice());
                },
                _ => {},
            }
        }
    }

    /// Shows the items of an array.
    fn show_array(&mut self, res: &Dictionary, items: &[Object])
        requires
            old(self).wf(),
            old(self).remembers(res@),
        ensures
            final(self).wf(),
            final(self)@ == items_shown(
                old(self).source(),
                res@,
                old(self)@,
                models(items@),
                items@.len(),
            ),
            final(self).doc == old(self).doc,
            final(self).grew(old(self)),
            final(self).remembers(res@),
    {
        let ghost start = self@;
        let ghost ms = models(items@);
        let mut i: usize = 0;
        while i < items.len()
            invariant
                0 <= i <= items@.len(),
                ms == models(items@),
                self.wf(),
                self.doc == old(self).doc,
                self.grew(old(self)),
                self.remembers(res@),
                self@ == items_shown(old(self).source(), res@, start, ms, i as nat),
            decreases items@.len() - i,
        {
            assert(ms[i as int] == items@[i as int]@);
            match &items[i] {
                Object::String(s) => {
                    self.show_text(res, s.as_slice());
                },
                other => match other.as_int() {
                    Some(by) => {
                        let step = Step::Adjust {
                            by: Real::from_int(by),
                            size: self.gs.font_size.clone(),
                            scale: self.gs.h_scale.clone(),
                        };
                        let k: usize = self.add_step(step, self.text_matrix);
                        self.text_matrix = k;
                    },
                    None => {},
                },
            }
            i += 1;
        }
    }

    /// Moves text to a new line.
    fn move_text(&mut self, right: Real, up: Real)
        requires
            old(self).wf(),
        ensures
            final(self).wf(),
            final(self)@ == text_moved(old(self)@, right@, up@),
            final(self).doc == old(self).doc,
            final(self).grew(old(self)),
            final(self).last_font == old(self).last_font,
            final(self).display.fonts == old(self).display.fonts,
    {
        let k: usize = self.add_step(Step::Shift { right, up }, self.text_line_matrix);
        self.text_line_matrix = k;
        self.text_matrix = k;
    }

    /// Moves text down by the leading.
    fn next_line(&mut self)
        requires
            old(self).wf(),
        ensures
            final(self).wf(),
            final(self)@ == text_down(old(self)@),
            final(self).doc == old(self).doc,
            final(self).grew(old(self)),
            final(self).last_font == old(self).last_font,
            final(self).display.fonts == old(self).display.fonts,
    {
        let down = self.gs.leading.negated();
        self.move_text(nil(), down);
    }

    /// Changes the state of the graphics.
    fn exec_state(&mut self, op: Operator, ops: &[Object])
        requires
            old(self).wf(),
        ensures
            final(self).wf(),
            final(self)@ == state_step(old(self)@, op, models(ops@)),
            final(self).doc == old(self).doc,
            final(self).grew(old(self)),
            final(self).last_font == old(self).last_font,
            final(self).display.fonts == old(self).display.fonts,
    {
        match op {
            Operator::Save => {
                let gs = clone_gs(&self.gs);
                self.gs_stack.push(gs);
                assert(self@.stack =~= old(self)@.stack.push(old(self)@.gs));
            },
            Operator::Restore => {
                assert(old(self)@.stack.len() == self.gs_stack@.len());
                match self.gs_stack.pop() {
                    Some(gs) => {
                        assert(gs_in(self.display, old(self).gs_stack@.last()));
                        self.gs = gs;
                        assert(self@.stack =~= old(self)@.stack.drop_last());
                    },
                    None => {},
                }
            },
            Operator::Concat => match matrix_from(ops) {
                Some(m) => {
                    let k: usize = self.add_step(Step::Matrix(m), self.gs.ctm);
                    self.gs.ctm = k;
                },
                None => {},
            },
            Operator::LineWidth => {
                self.gs.line_width = number_arg(ops, 0);
            },
            Operator::FillGray => {
                self.gs.fill_color = Color::Gray(number_arg(ops, 0));
            },
            Operator::StrokeGray => {
                self.gs.stroke_color = Color::Gray(number_arg(ops, 0));
            },
            Operator::FillRgb => {
                self.gs.fill_color =
                Color::Rgb(number_arg(ops, 0), number_arg(ops, 1), number_arg(ops, 2));
            },
            Operator::StrokeRgb => {
                self.gs.stroke_color =
                Color::Rgb(number_arg(ops, 0), number_arg(ops, 1), number_arg(ops, 2));
            },
            Operator::FillCmyk => {
                self.gs.fill_color =
                Color::Cmyk(
                    number_arg(ops, 0),
                    number_arg(ops, 1),
                    number_arg(ops, 2),
                    number_arg(ops, 3),
                );
            },
            Operator::StrokeCmyk => {
                self.gs.stroke_color =
                Color::Cmyk(
                    number_arg(ops, 0),
                    number_arg(ops, 1),
                    number_arg(ops, 2),
                    number_arg(ops, 3),
                );
            },
            Operator::FillColor => match color_from_components(ops) {
                Some(c) => {
                    self.gs.fill_color = c;
                },
                None => {},
            },
            Operator::StrokeColor => match color_from_components(ops) {
                Some(c) => {
                    self.gs.stroke_color = c;
                },
                None => {},
            },
            _ => {},
        }
    }

    /// Closes the path and paints it.
    fn close_and_paint(&mut self, paint: PaintOp, fill_rule: FillRule)
        requires
            old(self).wf(),
        ensures
            final(self).wf(),
            final(self)@ == closed_painted(old(self)@, paint, fill_rule),
            final(self).doc == old(self).doc,
            final(self).grew(old(self)),
            final(self).last_font == old(self).last_font,
            final(self).display.fonts == old(self).display.fonts,
    {
        self.add_segment(PathSegment::ClosePath);
        self.paint_path(paint, fill_rule);
    }

    /// Adds a rectangle to the path.
    fn add_rectangle(&mut self, ops: &[Object])
        requires
            old(self).wf(),
        ensures
            final(self).wf(),
            final(self)@ == with_rectangle(old(self)@, models(ops@)),
            final(self).doc == old(self).doc,
            final(self).grew(old(self)),
            final(self).last_font == old(self).last_font,
            final(self).display.fonts == old(self).display.fonts,
    {
        let ctm: usize = self.gs.ctm;
        let p = point_from(ops, 0);
        let w = number_arg(ops, 2);
        let h = number_arg(ops, 3);
        let right = Point { x: p.x.clone(), y: p.y.clone(), right: w.clone(), up: nil() };
        let top_right = Point { x: p.x.clone(), y: p.y.clone(), right: w, up: h.clone() };
        let top = Point { x: p.x.clone(), y: p.y.clone(), right: nil(), up: h };
        self.add_segment(PathSegment::MoveTo { to: p.clone(), ctm });
        self.add_segment(PathSegment::LineTo { to: right, ctm });
        self.add_segment(PathSegment::LineTo { to: top_right, ctm });
        self.add_segment(PathSegment::LineTo { to: top, ctm });
        self.add_segment(PathSegment::ClosePath);
        self.current_point = p.clone();
        self.subpath_start = p;
    }

    /// Makes or paints the path.
    fn exec_path(&mut self, op: Operator, ops: &[Object])
        requires
            old(self).wf(),
        ensures
            final(self).wf(),
            final(self)@ == path_step(old(self)@, op, models(ops@)),
            final(self).doc == old(self).doc,
            final(self).grew(old(self)),
            final(self).last_font == old(self).last_font,
            final(self).display.fonts == old(self).display.fonts,
    {
        let ctm: usize = self.gs.ctm;
        match op {
            Operator::MoveTo => {
                let p = point_from(ops, 0);
                self.add_segment(PathSegment::MoveTo { to: p.clone(), ctm });
                self.current_point = p.clone();
                self.subpath_start = p;
            },
            Operator::LineTo => {
                let p = point_from(ops, 0);
                self.add_segment(PathSegment::LineTo { to: p.clone(), ctm });
                self.current_point = p;
            },
            Operator::CurveTo => {
                let to = point_from(ops, 4);
                self.add_segment(
                    PathSegment::CurveTo {
                        c1: point_from(ops, 0),
                        c2: point_from(ops, 2),
                        to: to.clone(),
                        ctm,
                    },
                );
                self.current_point = to;
            },
            Operator::CurveFromPoint => {
                let to = point_from(ops, 2);
                let c1 = self.current_point.clone();
                self.add_segment(
                    PathSegment::CurveTo { c1, c2: point_from(ops, 0), to: to.clone(), ctm },
                );
                self.current_point = to;
            },
            Operator::CurveIntoPoint => {
                let to = point_from(ops, 2);
                self.add_segment(
                    PathSegment::CurveTo {
                        c1: point_from(ops, 0),
                        c2: to.clone(),
                        to: to.clone(),
                        ctm,
                    },
                );
                self.current_point = to;
            },
            Operator::Close => {
                self.add_segment(PathSegment::ClosePath);
                self.current_point = self.subpath_start.clone();
            },
            Operator::Rectangle => {
                self.add_rectangle(ops);
            },
            Operator::Clip => {
                self.pending_clip = Some(FillRule::NonZero);
            },
            Operator::ClipEvenOdd => {
                self.pending_clip = Some(FillRule::EvenOdd);
            },
            Operator::Stroke => {
                self.paint_path(PaintOp::Stroke, FillRule::NonZero);
            },
            Operator::CloseStroke => {
                self.close_and_paint(PaintOp::Stroke, FillRule::NonZero);
            },
            Operator::Fill => {
                self.paint_path(PaintOp::Fill, FillRule::NonZero);
            },
            Operator::FillEvenOdd => {
                self.paint_path(PaintOp::Fill, FillRule::EvenOdd);
            },
            Operator::FillStroke => {
                self.paint_path(PaintOp::FillStroke, FillRule::NonZero);
            },
            Operator::FillStrokeEvenOdd => {
                self.paint_path(PaintOp::FillStroke, FillRule::EvenOdd);
            },
            Operator::CloseFillStroke => {
                self.close_and_paint(PaintOp::FillStroke, FillRule::NonZero);
            },
            Operator::CloseFillStrokeEvenOdd => {
                self.close_and_paint(PaintOp::FillStroke, FillRule::EvenOdd);
            },
            Operator::EndPath => {
                self.paint_path(PaintOp::Nothing, FillRule::NonZero);
            },
            _ => {},
        }
    }

    /// Sets the state of text.
    fn exec_text(&mut self, op: Operator, ops: &[Object])
        requires
            old(self).wf(),
        ensures
            final(self).wf(),
            final(self)@ == text_step(old(self)@, op, models(ops@)),
            final(self).doc == old(self).doc,
            final(self).grew(old(self)),
            final(self).last_font == old(self).last_font,
            final(self).display.fonts == old(self).display.fonts,
    {
        match op {
            Operator::BeginText => {
                self.text_matrix = 0;
                self.text_line_matrix = 0;
            },
            Operator::TextFont => {
                if ops.len() > 0 {
                    assert(models(ops@)[0] == ops@[0]@);
                    match &ops[0] {
                        Object::Name(n) => {
                            self.gs.font = Some(n.as_str().to_owned());
                        },
                        _ => {},
                    }
                }
                self.gs.font_size = number_arg(ops, 1);
            },
            Operator::CharSpacing => {
                self.gs.char_spacing = number_arg(ops, 0);
            },
            Operator::WordSpacing => {
                self.gs.word_spacing = number_arg(ops, 0);
            },
            Operator::TextScale => {
                self.gs.h_scale = number_arg(ops, 0);
            },
            Operator::Leading => {
                self.gs.leading = number_arg(ops, 0);
            },
            Operator::Rise => {
                self.gs.text_rise = number_arg(ops, 0);
            },
            Operator::TextMove => {
                self.move_text(number_arg(ops, 0), number_arg(ops, 1));
            },
            Operator::TextMoveLeading => {
                self.gs.leading = number_arg(ops, 1).negated();
                self.move_text(number_arg(ops, 0), number_arg(ops, 1));
            },
            Operator::TextMatrix => {
                let k: usize = match matrix_from(ops) {
                    Some(m) => self.add_step(Step::Matrix(m), 0),
                    None => 0,
                };
                self.text_matrix = k;
                self.text_line_matrix = k;
                proof {
                    let m = match matrix_arg(models(ops@)) {
                        Some(x) => seq![StepModel::Matrix(x)],
                        None => seq![],
                    };
                    assert(self@.text =~= m);
                    assert(self@.line =~= m);
                }
            },
            Operator::NextLine => {
                self.next_line();
            },
            _ => {},
        }
    }

    /// Shows text.
    fn exec_show(&mut self, res: &Dictionary, op: Operator, ops: &[Object])
        requires
            old(self).wf(),
            old(self).remembers(res@),
        ensures
            final(self).wf(),
            final(self)@ == show_step(old(self).source(), res@, old(self)@, op, models(ops@)),
            final(self).doc == old(self).doc,
            final(self).grew(old(self)),
            final(self).remembers(res@),
    {
        match op {
            Operator::Show => {
                self.show_arg(res, ops, 0);
            },
            Operator::ShowOnNextLine => {
                self.next_line();
                self.show_arg(res, ops, 0);
            },
            Operator::ShowSpaced => {
                self.gs.word_spacing = number_arg(ops, 0);
                self.gs.char_spacing = number_arg(ops, 1);
                self.next_line();
                self.show_arg(res, ops, 2);
            },
            Operator::ShowArray => {
                if ops.len() > 0 {
                    assert(models(ops@)[0] == ops@[0]@);
                    match ops[0].as_array() {
                        Some(items) => {
                            self.show_array(res, items);
                        },
                        None => {},
                    }
                }
            },
            _ => {},
        }
    }

    /// Takes up an extended graphics state.
    fn apply_ext_gstate(&mut self, res: &Dictionary, ops: &[Object]) -> (r: Result<(), PdfError>)
        requires
            old(self).wf(),
            old(self).remembers(res@),
        ensures
            final(self).wf(),
            final(self).doc == old(self).doc,
            final(self).grew(old(self)),
            final(self).remembers(res@),
            match ext_state(old(self).source(), res@, old(self)@, models(ops@)) {
                Ok(g) => r is Ok && final(self)@ == g,
                Err(e) => r is Err && r->Err_0@ == e,
            },
    {
        if ops.len() == 0 {
            return Ok(());
        }
        assert(models(ops@)[0] == ops@[0]@);
        let name: &str = match &ops[0] {
            Object::Name(n) => n.as_str(),
            _ => {
                return Ok(());
            },
        };
        match self.lookup_resource(res, "ExtGState", name) {
            Err(e) => Err(e),
            Ok(None) => Ok(()),
            Ok(Some(o)) => {
                match o.as_dict() {
                    Some(d) => {
                        match d.get("LW") {
                            Some(w) => match w.as_int() {
                                Some(n) => {
                                    self.gs.line_width = Real::from_int(n);
                                },
                                None => {},
                            },
                            None => {},
                        }
                        self.gs.fill_alpha = get_number_or(d, "ca", &self.gs.fill_alpha);
                        self.gs.stroke_alpha = get_number_or(d, "CA", &self.gs.stroke_alpha);
                    },
                    None => {},
                }
                Ok(())
            },
        }
    }

    /// Shows an image.
    fn show_image(&mut self, name: &str, stream: &crate::object::Stream)
        requires
            old(self).wf(),
        ensures
            final(self).wf(),
            final(self)@ == image_shown(
                old(self).source(),
                old(self)@,
                name@,
                stream.dict@,
                stream.raw_data@,
            ),
            final(self).doc == old(self).doc,
            final(self).grew(old(self)),
            final(self).last_font == old(self).last_font,
            final(self).display.fonts == old(self).display.fonts,
    {
        let pixels = match decode_image(self.doc, stream) {
            Ok(p) => Some(p),
            Err(_) => None,
        };
        let item = DisplayItem::Image {
            resource: name.to_owned(),
            ctm: self.gs.ctm,
            pixels,
            alpha: self.gs.fill_alpha.clone(),
            clip: self.gs.clip,
        };
        self.display.push_item(item);
        proof {
            assert(gs_models(self.display, self.gs_stack@) =~= old(self)@.stack);
        }
    }

    /// The resources of a form.
    fn resources_of(&self, dict: &Dictionary, res: &Dictionary) -> (r: Result<Dictionary, PdfError>)
        ensures
            match form_resources(self.source(), dict@, res@) {
                Ok(d) => r is Ok && r->Ok_0@ == d,
                Err(e) => r is Err && r->Err_0@ == e,
            },
    {
        match dict.get("Resources") {
            None => Ok(res.clone()),
            Some(o) => match self.doc.get(o) {
                Err(e) => Err(e),
                Ok(m) => match m.as_dict() {
                    Some(d) => Ok(d.clone()),
                    None => Ok(Dictionary::new()),
                },
            },
        }
    }

    /// Takes up the matrix of a form.
    fn start_form(&mut self, dict: &Dictionary)
        requires
            old(self).wf(),
        ensures
            final(self).wf(),
            final(self)@ == form_start(old(self)@, dict@),
            final(self).doc == old(self).doc,
            final(self).grew(old(self)),
            final(self).last_font == old(self).last_font,
            final(self).display.fonts == old(self).display.fonts,
    {
        match dict.get("Matrix") {
            Some(o) => match o.as_array() {
                Some(items) => match matrix_from(items) {
                    Some(m) => {
                        let k: usize = self.add_step(Step::Matrix(m), self.gs.ctm);
                        self.gs.ctm = k;
                    },
                    None => {},
                },
                None => {},
            },
            None => {},
        }
    }

    /// Shows an object.
    fn do_xobject(&mut self, left: usize, res: &Dictionary, ops: &[Object]) -> (r: Result<
        (),
        PdfError,
    >)
        requires
            old(self).wf(),
            old(self).remembers(res@),
        ensures
            final(self).wf(),
            final(self).doc == old(self).doc,
            final(self).grew(old(self)),
            final(self).remembers(res@),
            match object_shown(old(self).source(), left as nat, res@, old(self)@, models(ops@)) {
                Ok(g) => r is Ok && final(self)@ == g,
                Err(e) => r is Err && r->Err_0@ == e,
            },
        decreases left, 0nat,
    {
        if ops.len() == 0 {
            return Ok(());
        }
        assert(models(ops@)[0] == ops@[0]@);
        let name: &str = match &ops[0] {
            Object::Name(n) => n.as_str(),
            _ => {
                return Ok(());
            },
        };
        let stream = match self.lookup_resource(res, "XObject", name) {
            Err(e) => {
                return Err(e);
            },
            Ok(Some(Object::Stream(s))) => s,
            Ok(_) => {
                return Ok(());
            },
        };
        let (is_image, is_form) = match stream.dict.get("Subtype") {
            Some(o) => (o.is_name("Image"), o.is_name("Form")),
            None => (false, false),
        };
        if is_image {
            self.show_image(name, &stream);
            return Ok(());
        }
        if !is_form || left == 0 {
            return Ok(());
        }
        let data = match decode_stream(&stream) {
            Ok(d) => d,
            Err(e) => {
                return Err(e);
            },
        };
        let own = match self.resources_of(&stream.dict, res) {
            Ok(d) => d,
            Err(e) => {
                return Err(e);
            },
        };
        let saved = clone_gs(&self.gs);
        let ghost start = *self;
        self.start_form(&stream.dict);
        self.last_font = None;
        match self.run(left - 1, &own, data.as_slice()) {
            Ok(_) => {},
            Err(e) => {
                self.last_font = None;
                return Err(e);
            },
        }
        self.last_font = None;
        proof {
            chain_stays(start.display.steps@, self.display.steps@, saved.ctm as int);
            clip_stays(
                start.display.steps@,
                self.display.steps@,
                start.display.clips@,
                self.display.clips@,
                saved.clip as int,
            );
        }
        self.gs = saved;
        assert(self@.gs == start@.gs);
        Ok(())
    }

    /// Carries out an instruction.
    fn exec(&mut self, left: usize, res: &Dictionary, x: &ContentInstruction) -> (r: Result<
        (),
        PdfError,
    >)
        requires
            old(self).wf(),
            old(self).remembers(res@),
        ensures
            final(self).wf(),
            final(self).doc == old(self).doc,
            final(self).grew(old(self)),
            final(self).remembers(res@),
            match executed(old(self).source(), left as nat, res@, old(self)@, x@) {
                Ok(g) => r is Ok && final(self)@ == g,
                Err(e) => r is Err && r->Err_0@ == e,
            },
        decreases left, 1nat,
    {
        let op = find_operator(x.operator.as_str());
        let ops: &[Object] = x.operands.as_slice();
        match kind(op) {
            OperatorKind::State => {
                self.exec_state(op, ops);
                Ok(())
            },
            OperatorKind::Path => {
                self.exec_path(op, ops);
                Ok(())
            },
            OperatorKind::Text => {
                self.exec_text(op, ops);
                Ok(())
            },
            OperatorKind::Show => {
                self.exec_show(res, op, ops);
                Ok(())
            },
            OperatorKind::ExtState => self.apply_ext_gstate(res, ops),
            OperatorKind::XObject => self.do_xobject(left, res, ops),
        }
    }

    /// Carries out a content stream; forms inside forms are followed `left` deep.
    fn run(&mut self, left: usize, res: &Dictionary, content: &[u8]) -> (r: Result<(), PdfError>)
        requires
            old(self).wf(),
            old(self).remembers(res@),
        ensures
            final(self).wf(),
            final(self).doc == old(self).doc,
            final(self).grew(old(self)),
            match run_content(old(self).source(), left as nat, res@, old(self)@, content@) {
                Ok(g) => r is Ok && final(self)@ == g,
                Err(e) => r is Err && r->Err_0@ == e,
            },
        decreases left, 2nat,
    {
        let list = match parse_content_stream(content) {
            Ok(list) => list,
            Err(e) => {
                return Err(e);
            },
        };
        let ghost ms = instruction_models(list@);
        let ghost doc = self.source();
        let ghost goal = executed_from(doc, left as nat, res@, self@, ms, 0);
        let mut i: usize = 0;
        while i < list.len()
            invariant
                0 <= i <= list@.len(),
                ms == instruction_models(list@),
                self.wf(),
                self.doc == old(self).doc,
                self.grew(old(self)),
                self.remembers(res@),
                doc == old(self).source(),
                goal == run_content(doc, left as nat, res@, old(self)@, content@),
                goal == executed_from(doc, left as nat, res@, self@, ms, i as nat),
            decreases list@.len() - i,
        {
            assert(ms[i as int] == list@[i as int]@);
            match self.exec(left, res, &list[i]) {
                Ok(_) => {},
                Err(e) => {
                    return Err(e);
                },
            }
            i += 1;
        }
        Ok(())
    }

    /// What a page shows.
    pub fn run_page(doc: &'a Document, resources: &Dictionary, content: &[u8]) -> (r: Result<
        DisplayList,
        PdfError,
    >)
        ensures
            match page_items(doc@, resources@, content@) {
                Ok(items) => r is Ok && r->Ok_0.wf() && r->Ok_0@ == items,
                Err(e) => r is Err && r->Err_0@ == e,
            },
    {
        let mut interpreter = Interpreter::new(doc);
        match interpreter.run(MAX_XOBJECT_DEPTH, resources, content) {
            Ok(_) => Ok(interpreter.display),
            Err(e) => Err(e),
        }
    }

    /// Starts anew, with what was shown.
    fn restart(&mut self)
        requires
            old(self).wf(),
        ensures
            final(self).wf(),
            final(self)@ == fresh_gfx(old(self)@.items),
            final(self).doc == old(self).doc,
            final(self).display == old(self).display,
            forall|res: DictModel| #[trigger] final(self).remembers(res),
    {
        self.gs = first_state();
        self.gs_stack = Vec::new();
        self.current_path = Vec::new();
        self.current_point = Point { x: nil(), y: nil(), right: nil(), up: nil() };
        self.subpath_start = Point { x: nil(), y: nil(), right: nil(), up: nil() };
        self.pending_clip = None;
        self.text_matrix = 0;
        self.text_line_matrix = 0;
        self.last_font = None;
        proof {
            reveal(fresh_gfx);
            assert(self@.stack =~= seq![]);
            assert(self@.path =~= seq![]);
        }
    }

    /// How an annotation is shown.
    fn read_annot(&self, res: &Dictionary, o: &Object) -> (r: Option<AnnotParts>)
        ensures
            match r {
                Some(x) => annot_form(self.source(), res@, o@) == Some(x@),
                None => annot_form(self.source(), res@, o@) is None,
            },
    {
        let d = match read_shown(self.doc, o) {
            Some(d) => d,
            None => {
                return None;
            },
        };
        let rect = match read_rect(&d) {
            Some(b) => b,
            None => {
                return None;
            },
        };
        let stream = match read_appearance(self.doc, &d) {
            Some(s) => s,
            None => {
                return None;
            },
        };
        let bbox = match read_bbox(&stream.dict) {
            Some(b) => b,
            None => {
                return None;
            },
        };
        let content = match decode_stream(&stream) {
            Ok(x) => x,
            Err(_) => {
                return None;
            },
        };
        let resources = match self.resources_of(&stream.dict, res) {
            Ok(x) => x,
            Err(_) => {
                return None;
            },
        };
        Some(AnnotParts { rect, bbox, dict: stream.dict, resources, content })
    }

    /// Adds a step to the transform of what follows.
    fn transform_by(&mut self, step: Step)
        requires
            old(self).wf(),
        ensures
            final(self).wf(),
            final(self)@ == with_step(old(self)@, step@),
            final(self).doc == old(self).doc,
            final(self).grew(old(self)),
            final(self).last_font == old(self).last_font,
    {
        let k: usize = self.add_step(step, self.gs.ctm);
        self.gs.ctm = k;
    }

    /// Remembers no font.
    fn forget_font(&mut self)
        requires
            old(self).wf(),
        ensures
            final(self).wf(),
            final(self)@ == old(self)@,
            final(self).doc == old(self).doc,
            final(self).display == old(self).display,
            forall|res: DictModel| #[trigger] final(self).remembers(res),
    {
        self.last_font = None;
    }

    /// Takes off all but the items that `before` had.
    fn take_back(&mut self, count: usize, before: Ghost<DisplayList>)
        requires
            old(self).wf(),
            before@.wf(),
            count == before@.items@.len(),
            begins_with(old(self).display.steps@, before@.steps@),
            begins_with(old(self).display.clips@, before@.clips@),
            begins_with(old(self).display.fonts@, before@.fonts@),
            begins_with(old(self).display.items@, before@.items@),
        ensures
            final(self).wf(),
            final(self)@.items == before@@,
            final(self).doc == old(self).doc,
    {
        proof {
            let a = before@;
            let b = self.display;
            assert forall|i: int| 0 <= i < count implies #[trigger] b@[i] == a@[i] by {
                assert(b.items@[i] == a.items@[i]);
                item_stays(a.steps@, b.steps@, a.clips@, b.clips@, a.fonts@, b.fonts@, a.items@[i]);
            }
            assert(b@.take(count as int) =~= a@);
        }
        self.display.take_back(count);
    }

    /// Shows an annotation.
    fn show_annot(&mut self, res: &Dictionary, o: &Object)
        requires
            old(self).wf(),
        ensures
            final(self).wf(),
            final(self)@.items == with_annot(old(self).source(), res@, old(self)@.items, o@),
            final(self).doc == old(self).doc,
    {
        let parts = match self.read_annot(res, o) {
            Some(x) => x,
            None => {
                return;
            },
        };
        let ghost before = self.display;
        let count: usize = self.display.items.len();
        let AnnotParts { rect, bbox, dict, resources, content } = parts;
        self.restart();
        self.transform_by(Step::Fit { bbox, matrix: read_form_matrix(&dict), rect });
        self.start_form(&dict);
        self.forget_font();
        match self.run(MAX_XOBJECT_DEPTH, &resources, content.as_slice()) {
            Ok(_) => {},
            Err(_) => {
                self.take_back(count, Ghost(before));
            },
        }
    }

    /// What a page shows, with its annotations on top.
    pub fn run_page_with_annotations(doc: &'a Document, page: &Page, content: &[u8]) -> (r: Result<
        DisplayList,
        PdfError,
    >)
        ensures
            match page_and_annots(doc@, page@, content@) {
                Ok(items) => r is Ok && r->Ok_0.wf() && r->Ok_0@ == items,
                Err(e) => r is Err && r->Err_0@ == e,
            },
    {
        let mut interpreter = Interpreter::new(doc);
        match interpreter.run(MAX_XOBJECT_DEPTH, &page.resources, content) {
            Ok(_) => {},
            Err(e) => {
                return Err(e);
            },
        }
        let annots = match read_annots(doc, &page.dict) {
            Ok(x) => x,
            Err(e) => {
                return Err(e);
            },
        };
        let ghost start = interpreter@.items;
        let ghost ms = models(annots@);
        let mut i: usize = 0;
        while i < annots.len()
            invariant
                0 <= i <= annots@.len(),
                ms == models(annots@),
                interpreter.wf(),
                interpreter.source() == doc@,
                interpreter@.items == with_annots(doc@, page@.resources, start, ms, i as nat),
            decreases annots@.len() - i,
        {
            assert(ms[i as int] == annots@[i as int]@);
            interpreter.show_annot(&page.resources, &annots[i]);
            i += 1;
        }
        Ok(interpreter.display)
    }

    /// The display list has only more at its ends.
    spec fn grew(&self, before: &Self) -> bool {
        &&& begins_with(self.display.steps@, before.display.steps@)
        &&& begins_with(self.display.clips@, before.display.clips@)
        &&& begins_with(self.display.fonts@, before.display.fonts@)
        &&& begins_with(self.display.items@, before.display.items@)
    }
}

/// Which operators change the state of the graphics, make or paint a path, set text or show it.
fn kind(op: Operator) -> (r: OperatorKind)
    ensures
        r == kind_of(op),
{
    match op {
        Operator::Save | Operator::Restore | Operator::Concat | Operator::LineWidth => OperatorKind::State,
        Operator::FillGray | Operator::StrokeGray | Operator::FillRgb | Operator::StrokeRgb => OperatorKind::State,
        Operator::FillCmyk | Operator::StrokeCmyk | Operator::FillColor => OperatorKind::State,
        Operator::StrokeColor | Operator::Other => OperatorKind::State,
        Operator::BeginText | Operator::TextFont | Operator::CharSpacing => OperatorKind::Text,
        Operator::WordSpacing | Operator::TextScale | Operator::Leading => OperatorKind::Text,
        Operator::Rise | Operator::TextMove | Operator::TextMoveLeading => OperatorKind::Text,
        Operator::TextMatrix | Operator::NextLine => OperatorKind::Text,
        Operator::Show | Operator::ShowOnNextLine => OperatorKind::Show,
        Operator::ShowSpaced | Operator::ShowArray => OperatorKind::Show,
        Operator::ExtState => OperatorKind::ExtState,
        Operator::XObject => OperatorKind::XObject,
        _ => OperatorKind::Path,
    }
}

} // verus!
