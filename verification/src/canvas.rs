//! What a page shows: paths, glyphs and images.
//!
//! Numbers are kept as they were written. A transform is a list of steps, each of which is done
//! before those that were there; what comes out in points is left to whoever draws.
use vstd::prelude::*;
use crate::display::{DecodedImage, FillRule, PaintOp};
use crate::font::{Font, FontModel, GlyphShape};
use crate::number::{Real, RealModel};

verus! {

/// A transform: `x' = a x + c y + e`, `y' = b x + d y + f`.
#[derive(Debug, PartialEq)]
pub struct Matrix {
    pub a: Real,
    pub b: Real,
    pub c: Real,
    pub d: Real,
    pub e: Real,
    pub f: Real,
}

#[verifier::ext_equal]
pub ghost struct MatrixModel {
    pub a: RealModel,
    pub b: RealModel,
    pub c: RealModel,
    pub d: RealModel,
    pub e: RealModel,
    pub f: RealModel,
}

impl View for Matrix {
    type V = MatrixModel;

    open spec fn view(&self) -> MatrixModel {
        MatrixModel {
            a: self.a@,
            b: self.b@,
            c: self.c@,
            d: self.d@,
            e: self.e@,
            f: self.f@,
        }
    }
}

/// A color in one of three spaces.
#[derive(Debug, PartialEq)]
pub enum Color {
    Gray(Real),
    Rgb(Real, Real, Real),
    Cmyk(Real, Real, Real, Real),
}

pub ghost enum ColorModel {
    Gray(RealModel),
    Rgb(RealModel, RealModel, RealModel),
    Cmyk(RealModel, RealModel, RealModel, RealModel),
}

impl View for Color {
    type V = ColorModel;

    open spec fn view(&self) -> ColorModel {
        match *self {
            Color::Gray(g) => ColorModel::Gray(g@),
            Color::Rgb(r, g, b) => ColorModel::Rgb(r@, g@, b@),
            Color::Cmyk(c, m, y, k) => ColorModel::Cmyk(c@, m@, y@, k@),
        }
    }
}

impl Clone for Color {
    fn clone(&self) -> (r: Self)
        ensures
            r@ == self@,
    {
        match self {
            Color::Gray(g) => Color::Gray(g.clone()),
            Color::Rgb(r, g, b) => Color::Rgb(r.clone(), g.clone(), b.clone()),
            Color::Cmyk(c, m, y, k) => Color::Cmyk(c.clone(), m.clone(), y.clone(), k.clone()),
        }
    }
}

/// A point: `x + right` and `y + up`, before any transform.
#[derive(Debug, PartialEq)]
pub struct Point {
    pub x: Real,
    pub y: Real,
    pub right: Real,
    pub up: Real,
}

#[verifier::ext_equal]
pub ghost struct PointModel {
    pub x: RealModel,
    pub y: RealModel,
    pub right: RealModel,
    pub up: RealModel,
}

impl View for Point {
    type V = PointModel;

    open spec fn view(&self) -> PointModel {
        PointModel { x: self.x@, y: self.y@, right: self.right@, up: self.up@ }
    }
}

impl Clone for Point {
    fn clone(&self) -> (r: Self)
        ensures
            r@ == self@,
    {
        Point {
            x: self.x.clone(),
            y: self.y.clone(),
            right: self.right.clone(),
            up: self.up.clone(),
        }
    }
}

/// A rectangle.
#[derive(Debug, PartialEq)]
pub struct Bounds {
    pub x0: Real,
    pub y0: Real,
    pub x1: Real,
    pub y1: Real,
}

#[verifier::ext_equal]
pub ghost struct BoundsModel {
    pub x0: RealModel,
    pub y0: RealModel,
    pub x1: RealModel,
    pub y1: RealModel,
}

impl View for Bounds {
    type V = BoundsModel;

    open spec fn view(&self) -> BoundsModel {
        BoundsModel { x0: self.x0@, y0: self.y0@, x1: self.x1@, y1: self.y1@ }
    }
}

impl Clone for Bounds {
    fn clone(&self) -> (r: Self)
        ensures
            r@ == self@,
    {
        Bounds {
            x0: self.x0.clone(),
            y0: self.y0.clone(),
            x1: self.x1.clone(),
            y1: self.y1.clone(),
        }
    }
}

impl Clone for Matrix {
    fn clone(&self) -> (r: Self)
        ensures
            r@ == self@,
    {
        Matrix {
            a: self.a.clone(),
            b: self.b.clone(),
            c: self.c.clone(),
            d: self.d.clone(),
            e: self.e.clone(),
            f: self.f.clone(),
        }
    }
}

/// A step of a transform. `Fit` brings a box, as `matrix` leaves it, into a rectangle. `Adjust`
/// moves by `-by / 1000 * size * scale / 100` to the right, and `Advance` by
/// `(width / 1000 * size + spacing + word) * scale / 100`.
#[derive(Debug, PartialEq)]
pub enum Step {
    Matrix(Matrix),
    Fit { bbox: Bounds, matrix: Matrix, rect: Bounds },
    Shift { right: Real, up: Real },
    Adjust { by: Real, size: Real, scale: Real },
    Advance { width: Real, size: Real, spacing: Real, word: Real, scale: Real },
}

pub ghost enum StepModel {
    Matrix(MatrixModel),
    Fit(BoundsModel, MatrixModel, BoundsModel),
    Shift(RealModel, RealModel),
    Adjust(RealModel, RealModel, RealModel),
    Advance(RealModel, RealModel, RealModel, RealModel, RealModel),
}

impl View for Step {
    type V = StepModel;

    open spec fn view(&self) -> StepModel {
        match *self {
            Step::Matrix(m) => StepModel::Matrix(m@),
            Step::Fit { bbox, matrix, rect } => StepModel::Fit(bbox@, matrix@, rect@),
            Step::Shift { right, up } => StepModel::Shift(right@, up@),
            Step::Adjust { by, size, scale } => StepModel::Adjust(by@, size@, scale@),
            Step::Advance { width, size, spacing, word, scale } => StepModel::Advance(
                width@,
                size@,
                spacing@,
                word@,
                scale@,
            ),
        }
    }
}

/// A transform: its steps, the one that is done first at the end.
pub type Transform = Seq<StepModel>;

/// A step and the transform below it: 0 is none, and `k` the one whose last step is the `k`-th.
pub struct StepNode {
    pub step: Step,
    pub below: usize,
}

/// The steps up to the `k`-th node.
pub open spec fn chain(steps: Seq<StepNode>, k: int) -> Transform
    decreases k,
{
    if k <= 0 || k > steps.len() || steps[k - 1].below >= k {
        seq![]
    } else {
        chain(steps, steps[k - 1].below as int).push(steps[k - 1].step@)
    }
}

/// Each node stands on an earlier one.
pub open spec fn steps_wf(steps: Seq<StepNode>) -> bool {
    forall|i: int| 0 <= i < steps.len() ==> (#[trigger] steps[i]).below <= i
}

/// A part of a path, with the transform of its points.
pub enum PathSegment {
    MoveTo { to: Point, ctm: usize },
    LineTo { to: Point, ctm: usize },
    CurveTo { c1: Point, c2: Point, to: Point, ctm: usize },
    ClosePath,
}

pub ghost enum SegmentModel {
    MoveTo(PointModel, Transform),
    LineTo(PointModel, Transform),
    CurveTo(PointModel, PointModel, PointModel, Transform),
    ClosePath,
}

pub open spec fn segment_model(steps: Seq<StepNode>, s: PathSegment) -> SegmentModel {
    match s {
        PathSegment::MoveTo { to, ctm } => SegmentModel::MoveTo(to@, chain(steps, ctm as int)),
        PathSegment::LineTo { to, ctm } => SegmentModel::LineTo(to@, chain(steps, ctm as int)),
        PathSegment::CurveTo { c1, c2, to, ctm } => SegmentModel::CurveTo(
            c1@,
            c2@,
            to@,
            chain(steps, ctm as int),
        ),
        PathSegment::ClosePath => SegmentModel::ClosePath,
    }
}

pub open spec fn segment_models(steps: Seq<StepNode>, s: Seq<PathSegment>) -> Seq<SegmentModel> {
    s.map_values(|x: PathSegment| segment_model(steps, x))
}

/// A segment has a transform that is there.
pub open spec fn segment_in(s: PathSegment, n: nat) -> bool {
    match s {
        PathSegment::MoveTo { ctm, .. } => ctm <= n,
        PathSegment::LineTo { ctm, .. } => ctm <= n,
        PathSegment::CurveTo { ctm, .. } => ctm <= n,
        PathSegment::ClosePath => true,
    }
}

pub open spec fn segments_in(s: Seq<PathSegment>, n: nat) -> bool {
    forall|i: int| 0 <= i < s.len() ==> segment_in(#[trigger] s[i], n)
}

impl Clone for PathSegment {
    fn clone(&self) -> (r: Self)
        ensures
            forall|steps: Seq<StepNode>| #[trigger]
                segment_model(steps, r) == segment_model(steps, *self),
            forall|n: nat| #[trigger] segment_in(r, n) == segment_in(*self, n),
    {
        match self {
            PathSegment::MoveTo { to, ctm } => PathSegment::MoveTo { to: to.clone(), ctm: *ctm },
            PathSegment::LineTo { to, ctm } => PathSegment::LineTo { to: to.clone(), ctm: *ctm },
            PathSegment::CurveTo { c1, c2, to, ctm } => PathSegment::CurveTo {
                c1: c1.clone(),
                c2: c2.clone(),
                to: to.clone(),
                ctm: *ctm,
            },
            PathSegment::ClosePath => PathSegment::ClosePath,
        }
    }
}

/// A path that nothing outside of is shown, and the clip below it, as in `StepNode`.
pub struct ClipPath {
    pub segments: Vec<PathSegment>,
    pub fill_rule: FillRule,
    pub below: usize,
}

pub ghost struct ClipModel {
    pub segments: Seq<SegmentModel>,
    pub fill_rule: FillRule,
}

/// Clips: what is shown is inside all of them.
pub type Clip = Seq<ClipModel>;

/// The clips up to the `k`-th node.
pub open spec fn clip_chain(steps: Seq<StepNode>, clips: Seq<ClipPath>, k: int) -> Clip
    decreases k,
{
    if k <= 0 || k > clips.len() || clips[k - 1].below >= k {
        seq![]
    } else {
        clip_chain(steps, clips, clips[k - 1].below as int).push(
            ClipModel {
                segments: segment_models(steps, clips[k - 1].segments@),
                fill_rule: clips[k - 1].fill_rule,
            },
        )
    }
}

pub open spec fn clips_wf(clips: Seq<ClipPath>, n: nat) -> bool {
    forall|i: int|
        0 <= i < clips.len() ==> (#[trigger] clips[i]).below <= i && segments_in(
            clips[i].segments@,
            n,
        )
}

/// Something that a page shows. `clip` is a node of the clips, 0 being none. A glyph is as large
/// as `size`, as wide as `scale` hundredths of that, and lifted by `rise`; its font is a number in
/// the list of fonts, 0 being none. Opacities are 1 where nothing shines through.
pub enum DisplayItem {
    Path {
        segments: Vec<PathSegment>,
        paint: PaintOp,
        fill_rule: FillRule,
        fill_color: Color,
        stroke_color: Color,
        line_width: Real,
        fill_alpha: Real,
        stroke_alpha: Real,
        sets_clip: bool,
        clip: usize,
    },
    Glyph {
        font: String,
        code: u32,
        unicode: Option<char>,
        size: Real,
        scale: Real,
        rise: Real,
        text: usize,
        ctm: usize,
        color: Color,
        alpha: Real,
        advance_is_estimated: bool,
        shape: Option<GlyphShape>,
        font_number: usize,
        clip: usize,
    },
    Image { resource: String, ctm: usize, pixels: Option<DecodedImage>, alpha: Real, clip: usize },
}

pub ghost struct PathModel {
    pub segments: Seq<SegmentModel>,
    pub paint: PaintOp,
    pub fill_rule: FillRule,
    pub fill_color: ColorModel,
    pub stroke_color: ColorModel,
    pub line_width: RealModel,
    pub fill_alpha: RealModel,
    pub stroke_alpha: RealModel,
    pub sets_clip: bool,
    pub clip: Clip,
}

pub ghost struct GlyphModel {
    pub font: Seq<char>,
    pub code: u32,
    pub unicode: Option<char>,
    pub size: RealModel,
    pub scale: RealModel,
    pub rise: RealModel,
    pub text: Transform,
    pub ctm: Transform,
    pub color: ColorModel,
    pub alpha: RealModel,
    pub advance_is_estimated: bool,
    pub shape: Option<GlyphShape>,
    pub program: Option<FontModel>,
    pub clip: Clip,
}

pub ghost struct ImageModel {
    pub resource: Seq<char>,
    pub ctm: Transform,
    pub pixels: Option<(u32, u32, Seq<u8>)>,
    pub alpha: RealModel,
    pub clip: Clip,
}

pub ghost enum ItemModel {
    Path(PathModel),
    Glyph(GlyphModel),
    Image(ImageModel),
}

/// All that a page shows, in order, and the transforms, the clips and the fonts that its items
/// name.
pub struct DisplayList {
    pub items: Vec<DisplayItem>,
    pub steps: Vec<StepNode>,
    pub clips: Vec<ClipPath>,
    pub fonts: Vec<Font>,
}

/// The font with a number.
pub open spec fn font_at(fonts: Seq<Font>, k: int) -> Option<FontModel> {
    if 0 < k <= fonts.len() {
        Some(fonts[k - 1]@)
    } else {
        None
    }
}

pub open spec fn pixels_model(p: Option<DecodedImage>) -> Option<(u32, u32, Seq<u8>)> {
    match p {
        Some(i) => Some((i.width, i.height, i.rgba@)),
        None => None,
    }
}

pub open spec fn item_model(
    steps: Seq<StepNode>,
    clips: Seq<ClipPath>,
    fonts: Seq<Font>,
    item: DisplayItem,
) -> ItemModel {
    match item {
        DisplayItem::Path {
            segments,
            paint,
            fill_rule,
            fill_color,
            stroke_color,
            line_width,
            fill_alpha,
            stroke_alpha,
            sets_clip,
            clip,
        } => ItemModel::Path(
            PathModel {
                segments: segment_models(steps, segments@),
                paint,
                fill_rule,
                fill_color: fill_color@,
                stroke_color: stroke_color@,
                line_width: line_width@,
                fill_alpha: fill_alpha@,
                stroke_alpha: stroke_alpha@,
                sets_clip,
                clip: clip_chain(steps, clips, clip as int),
            },
        ),
        DisplayItem::Glyph {
            font,
            code,
            unicode,
            size,
            scale,
            rise,
            text,
            ctm,
            color,
            alpha,
            advance_is_estimated,
            shape,
            font_number,
            clip,
        } => ItemModel::Glyph(
            GlyphModel {
                font: font@,
                code,
                unicode,
                size: size@,
                scale: scale@,
                rise: rise@,
                text: chain(steps, text as int),
                ctm: chain(steps, ctm as int),
                color: color@,
                alpha: alpha@,
                advance_is_estimated,
                shape,
                program: font_at(fonts, font_number as int),
                clip: clip_chain(steps, clips, clip as int),
            },
        ),
        DisplayItem::Image { resource, ctm, pixels, alpha, clip } => ItemModel::Image(
            ImageModel {
                resource: resource@,
                ctm: chain(steps, ctm as int),
                pixels: pixels_model(pixels),
                alpha: alpha@,
                clip: clip_chain(steps, clips, clip as int),
            },
        ),
    }
}

/// An item names transforms, clips and fonts that are there.
pub open spec fn item_in(item: DisplayItem, steps: nat, clips: nat, fonts: nat) -> bool {
    match item {
        DisplayItem::Path { segments, clip, .. } => segments_in(segments@, steps) && clip <= clips,
        DisplayItem::Glyph { text, ctm, font_number, clip, .. } => text <= steps && ctm <= steps
            && font_number <= fonts && clip <= clips,
        DisplayItem::Image { ctm, clip, .. } => ctm <= steps && clip <= clips,
    }
}

impl DisplayList {
    /// All that is named is there.
    pub open spec fn wf(&self) -> bool {
        &&& steps_wf(self.steps@)
        &&& clips_wf(self.clips@, self.steps@.len())
        &&& forall|i: int|
            0 <= i < self.items@.len() ==> item_in(
                #[trigger] self.items@[i],
                self.steps@.len(),
                self.clips@.len(),
                self.fonts@.len(),
            )
    }
}

impl View for DisplayList {
    type V = Seq<ItemModel>;

    open spec fn view(&self) -> Seq<ItemModel> {
        self.items@.map_values(
            |x: DisplayItem| item_model(self.steps@, self.clips@, self.fonts@, x),
        )
    }
}

/// A list with more at its end.
pub open spec fn begins_with<T>(longer: Seq<T>, s: Seq<T>) -> bool {
    s.len() <= longer.len() && forall|i: int| 0 <= i < s.len() ==> #[trigger] longer[i] == s[i]
}

/// More steps change no transform that was there.
pub proof fn chain_stays(a: Seq<StepNode>, b: Seq<StepNode>, k: int)
    requires
        begins_with(b, a),
        k <= a.len(),
    ensures
        chain(b, k) == chain(a, k),
    decreases k,
{
    if 0 < k && a[k - 1].below < k {
        assert(b[k - 1] == a[k - 1]);
        chain_stays(a, b, a[k - 1].below as int);
    } else if 0 < k {
        assert(b[k - 1] == a[k - 1]);
    }
}

pub proof fn segments_stay(a: Seq<StepNode>, b: Seq<StepNode>, s: Seq<PathSegment>)
    requires
        begins_with(b, a),
        segments_in(s, a.len()),
    ensures
        segment_models(b, s) == segment_models(a, s),
        segments_in(s, b.len()),
{
    assert forall|i: int| 0 <= i < s.len() implies segment_model(b, #[trigger] s[i]) == segment_model(
        a,
        s[i],
    ) by {
        assert(segment_in(s[i], a.len()));
        match s[i] {
            PathSegment::MoveTo { ctm, .. } => chain_stays(a, b, ctm as int),
            PathSegment::LineTo { ctm, .. } => chain_stays(a, b, ctm as int),
            PathSegment::CurveTo { ctm, .. } => chain_stays(a, b, ctm as int),
            PathSegment::ClosePath => {},
        }
    }
    assert(segment_models(b, s) =~= segment_models(a, s));
    assert forall|i: int| 0 <= i < s.len() implies segment_in(#[trigger] s[i], b.len()) by {
        assert(segment_in(s[i], a.len()));
    }
}

/// More steps and more clips change no clip that was there.
pub proof fn clip_stays(
    a: Seq<StepNode>,
    b: Seq<StepNode>,
    p: Seq<ClipPath>,
    q: Seq<ClipPath>,
    k: int,
)
    requires
        begins_with(b, a),
        begins_with(q, p),
        clips_wf(p, a.len()),
        k <= p.len(),
    ensures
        clip_chain(b, q, k) == clip_chain(a, p, k),
    decreases k,
{
    if 0 < k {
        assert(q[k - 1] == p[k - 1]);
        assert(p[k - 1].below <= k - 1);
        clip_stays(a, b, p, q, p[k - 1].below as int);
        segments_stay(a, b, p[k - 1].segments@);
    }
}

/// More of everything changes no item.
pub proof fn item_stays(
    a: Seq<StepNode>,
    b: Seq<StepNode>,
    p: Seq<ClipPath>,
    q: Seq<ClipPath>,
    f: Seq<Font>,
    g: Seq<Font>,
    item: DisplayItem,
)
    requires
        begins_with(b, a),
        begins_with(q, p),
        begins_with(g, f),
        clips_wf(p, a.len()),
        item_in(item, a.len(), p.len(), f.len()),
    ensures
        item_model(b, q, g, item) == item_model(a, p, f, item),
        item_in(item, b.len(), q.len(), g.len()),
{
    match item {
        DisplayItem::Path { segments, clip, .. } => {
            segments_stay(a, b, segments@);
            clip_stays(a, b, p, q, clip as int);
        },
        DisplayItem::Glyph { text, ctm, font_number, clip, .. } => {
            chain_stays(a, b, text as int);
            chain_stays(a, b, ctm as int);
            clip_stays(a, b, p, q, clip as int);
            if font_number > 0 {
                assert(g[font_number - 1] == f[font_number - 1]);
            }
        },
        DisplayItem::Image { ctm, clip, .. } => {
            chain_stays(a, b, ctm as int);
            clip_stays(a, b, p, q, clip as int);
        },
    }
}

pub proof fn clips_stay_wf(a: Seq<StepNode>, b: Seq<StepNode>, p: Seq<ClipPath>)
    requires
        begins_with(b, a),
        clips_wf(p, a.len()),
    ensures
        clips_wf(p, b.len()),
{
    assert forall|i: int| 0 <= i < p.len() implies (#[trigger] p[i]).below <= i && segments_in(
        p[i].segments@,
        b.len(),
    ) by {
        segments_stay(a, b, p[i].segments@);
    }
}

impl DisplayList {
    /// Shows nothing.
    pub fn new() -> (r: Self)
        ensures
            r.wf(),
            r@ == Seq::<ItemModel>::empty(),
            r.steps@.len() == 0,
            r.clips@.len() == 0,
            r.fonts@.len() == 0,
            r.items@.len() == 0,
    {
        let r = DisplayList {
            items: Vec::new(),
            steps: Vec::new(),
            clips: Vec::new(),
            fonts: Vec::new(),
        };
        assert(r@ =~= Seq::empty());
        r
    }

    /// Adds a step on a transform; gives the transform.
    pub fn push_step(&mut self, step: Step, below: usize) -> (k: usize)
        requires
            old(self).wf(),
            below <= old(self).steps@.len(),
        ensures
            final(self).wf(),
            final(self)@ == old(self)@,
            begins_with(final(self).steps@, old(self).steps@),
            k == final(self).steps@.len(),
            final(self).items == old(self).items,
            final(self).clips == old(self).clips,
            final(self).fonts == old(self).fonts,
            chain(final(self).steps@, k as int) == chain(old(self).steps@, below as int).push(step@),
    {
        let ghost before = self.steps@;
        self.steps.push(StepNode { step, below });
        let k: usize = self.steps.len();
        proof {
            let now = self.steps@;
            assert(begins_with(now, before));
            assert(steps_wf(now)) by {
                assert forall|i: int| 0 <= i < now.len() implies (#[trigger] now[i]).below <= i by {
                    if i < before.len() {
                        assert(before[i].below <= i);
                    }
                }
            }
            chain_stays(before, now, below as int);
            clips_stay_wf(before, now, self.clips@);
            assert forall|i: int| 0 <= i < self.items@.len() implies item_in(
                #[trigger] self.items@[i],
                now.len(),
                self.clips@.len(),
                self.fonts@.len(),
            ) && item_model(now, self.clips@, self.fonts@, self.items@[i]) == item_model(
                before,
                self.clips@,
                self.fonts@,
                self.items@[i],
            ) by {
                item_stays(
                    before,
                    now,
                    self.clips@,
                    self.clips@,
                    self.fonts@,
                    self.fonts@,
                    self.items@[i],
                );
            }
            assert(self@ =~= old(self)@);
        }
        k
    }

    /// Adds a clip on another; gives the clip.
    pub fn push_clip(&mut self, segments: Vec<PathSegment>, fill_rule: FillRule, below: usize) -> (k:
        usize)
        requires
            old(self).wf(),
            below <= old(self).clips@.len(),
            segments_in(segments@, old(self).steps@.len()),
        ensures
            final(self).wf(),
            final(self)@ == old(self)@,
            begins_with(final(self).clips@, old(self).clips@),
            k == final(self).clips@.len(),
            final(self).items == old(self).items,
            final(self).steps == old(self).steps,
            final(self).fonts == old(self).fonts,
            clip_chain(final(self).steps@, final(self).clips@, k as int) == clip_chain(
                old(self).steps@,
                old(self).clips@,
                below as int,
            ).push(ClipModel { segments: segment_models(old(self).steps@, segments@), fill_rule }),
    {
        let ghost before = self.clips@;
        self.clips.push(ClipPath { segments, fill_rule, below });
        let k: usize = self.clips.len();
        proof {
            let now = self.clips@;
            let steps = self.steps@;
            assert(begins_with(now, before));
            assert(clips_wf(now, steps.len())) by {
                assert forall|i: int| 0 <= i < now.len() implies (#[trigger] now[i]).below <= i
                    && segments_in(now[i].segments@, steps.len()) by {
                    if i < before.len() {
                        assert(before[i].below <= i);
                    }
                }
            }
            clip_stays(steps, steps, before, now, below as int);
            assert forall|i: int| 0 <= i < self.items@.len() implies item_in(
                #[trigger] self.items@[i],
                steps.len(),
                now.len(),
                self.fonts@.len(),
            ) && item_model(steps, now, self.fonts@, self.items@[i]) == item_model(
                steps,
                before,
                self.fonts@,
                self.items@[i],
            ) by {
                item_stays(steps, steps, before, now, self.fonts@, self.fonts@, self.items@[i]);
            }
            assert(self@ =~= old(self)@);
        }
        k
    }

    /// Adds a font; gives its number.
    pub fn push_font(&mut self, font: Font) -> (k: usize)
        requires
            old(self).wf(),
        ensures
            final(self).wf(),
            final(self)@ == old(self)@,
            begins_with(final(self).fonts@, old(self).fonts@),
            k == final(self).fonts@.len(),
            k > 0,
            final(self).fonts@[k - 1] == font,
            final(self).items == old(self).items,
            final(self).steps == old(self).steps,
            final(self).clips == old(self).clips,
    {
        let ghost before = self.fonts@;
        self.fonts.push(font);
        let k: usize = self.fonts.len();
        proof {
            let now = self.fonts@;
            let steps = self.steps@;
            assert(begins_with(now, before));
            assert forall|i: int| 0 <= i < self.items@.len() implies item_in(
                #[trigger] self.items@[i],
                steps.len(),
                self.clips@.len(),
                now.len(),
            ) && item_model(steps, self.clips@, now, self.items@[i]) == item_model(
                steps,
                self.clips@,
                before,
                self.items@[i],
            ) by {
                item_stays(steps, steps, self.clips@, self.clips@, before, now, self.items@[i]);
            }
            assert(self@ =~= old(self)@);
        }
        k
    }

    /// Shows one thing more.
    pub fn push_item(&mut self, item: DisplayItem)
        requires
            old(self).wf(),
            item_in(item, old(self).steps@.len(), old(self).clips@.len(), old(self).fonts@.len()),
        ensures
            final(self).wf(),
            final(self)@ == old(self)@.push(
                item_model(old(self).steps@, old(self).clips@, old(self).fonts@, item),
            ),
            final(self).items@ == old(self).items@.push(item),
            final(self).steps == old(self).steps,
            final(self).clips == old(self).clips,
            final(self).fonts == old(self).fonts,
    {
        self.items.push(item);
        proof {
            assert forall|i: int| 0 <= i < self.items@.len() implies item_in(
                #[trigger] self.items@[i],
                self.steps@.len(),
                self.clips@.len(),
                self.fonts@.len(),
            ) by {
                if i < old(self).items@.len() {
                    assert(self.items@[i] == old(self).items@[i]);
                }
            }
            assert(self@ =~= old(self)@.push(
                item_model(old(self).steps@, old(self).clips@, old(self).fonts@, item),
            ));
        }
    }
}

impl DisplayList {
    /// Takes off all but the first `count` items.
    pub fn take_back(&mut self, count: usize)
        requires
            old(self).wf(),
            count <= old(self).items@.len(),
        ensures
            final(self).wf(),
            final(self).items@ == old(self).items@.take(count as int),
            final(self)@ == old(self)@.take(count as int),
            final(self).steps == old(self).steps,
            final(self).clips == old(self).clips,
            final(self).fonts == old(self).fonts,
    {
        self.items.truncate(count);
        proof {
            assert forall|i: int| 0 <= i < self.items@.len() implies item_in(
                #[trigger] self.items@[i],
                self.steps@.len(),
                self.clips@.len(),
                self.fonts@.len(),
            ) by {
                assert(self.items@[i] == old(self).items@[i]);
            }
            assert(self@ =~= old(self)@.take(count as int));
        }
    }
}

} // verus!
