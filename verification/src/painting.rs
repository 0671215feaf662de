//! What is painted of a page, in order: paths, glyphs and images with their places on the page,
//! their inks and their clips.
use vstd::prelude::*;
use crate::affine::{glyph_matrix, greater, greater_of, matrices, place_glyph, transform_matrix};
use crate::canvas::{chain, clip_chain, item_in, item_model, pixels_model, segment_models, Clip, ClipModel, Color, ColorModel, DisplayItem, DisplayList, ItemModel, Matrix, MatrixModel};
use crate::display::{FillRule, PaintOp};
use crate::font::{FontModel, GlyphShape};
use crate::geometry::{all_placed, held_to_one, hold_to_one, matrices_of, place_segments, placed_models, rgb_of, to_rgb, PlacedModel, PlacedSegment};
use crate::number::{scaled, Real, RealModel};

verus! {

/// A color with an opacity, all held from zero to one.
#[derive(Debug, PartialEq)]
pub struct Ink {
    pub red: Real,
    pub green: Real,
    pub blue: Real,
    pub alpha: Real,
}

pub ghost struct InkModel {
    pub red: RealModel,
    pub green: RealModel,
    pub blue: RealModel,
    pub alpha: RealModel,
}

impl View for Ink {
    type V = InkModel;

    open spec fn view(&self) -> InkModel {
        InkModel {
            red: self.red@,
            green: self.green@,
            blue: self.blue@,
            alpha: self.alpha@,
        }
    }
}

/// Something to paint. Clips, fonts and images are named as in the display list: an image by the
/// number of its item.
#[derive(Debug, PartialEq)]
pub enum Job {
    Path {
        segments: Vec<PlacedSegment>,
        fill: Option<(Ink, FillRule)>,
        stroke: Option<(Ink, Real)>,
        clip: usize,
    },
    Glyph { shape: GlyphShape, font_number: usize, place: Matrix, ink: Ink, clip: usize },
    Image { item: usize, place: Matrix, alpha: Real, clip: usize },
}

pub ghost enum JobModel {
    Path {
        segments: Seq<PlacedModel>,
        fill: Option<(InkModel, FillRule)>,
        stroke: Option<(InkModel, RealModel)>,
        clip: Clip,
    },
    Glyph { shape: GlyphShape, program: FontModel, place: MatrixModel, ink: InkModel, clip: Clip },
    Image { pixels: (u32, u32, Seq<u8>), place: MatrixModel, alpha: RealModel, clip: Clip },
}

pub open spec fn ink_of(c: ColorModel, alpha: RealModel) -> InkModel {
    let (red, green, blue) = rgb_of(c);
    InkModel { red, green, blue, alpha: held_to_one(alpha) }
}

pub open spec fn fills(paint: PaintOp) -> bool {
    paint == PaintOp::Fill || paint == PaintOp::FillStroke
}

pub open spec fn strokes(paint: PaintOp) -> bool {
    paint == PaintOp::Stroke || paint == PaintOp::FillStroke
}

/// A line is at least a tenth of a point wide.
pub open spec fn stroke_width(width: RealModel) -> RealModel {
    greater(width, scaled(1, 1))
}

/// What is painted of an item: a path that is filled or stroked, a glyph whose shape and font are
/// known, an image whose pixels are.
pub open spec fn job_of(item: ItemModel) -> Option<JobModel> {
    match item {
        ItemModel::Path(p) => if fills(p.paint) || strokes(p.paint) {
            Some(
                JobModel::Path {
                    segments: all_placed(p.segments),
                    fill: if fills(p.paint) {
                        Some((ink_of(p.fill_color, p.fill_alpha), p.fill_rule))
                    } else {
                        None
                    },
                    stroke: if strokes(p.paint) {
                        Some((ink_of(p.stroke_color, p.stroke_alpha), stroke_width(p.line_width)))
                    } else {
                        None
                    },
                    clip: p.clip,
                },
            )
        } else {
            None
        },
        ItemModel::Glyph(g) => match (g.shape, g.program) {
            (Some(shape), Some(program)) => Some(
                JobModel::Glyph {
                    shape,
                    program,
                    place: glyph_matrix(g),
                    ink: ink_of(g.color, g.alpha),
                    clip: g.clip,
                },
            ),
            _ => None,
        },
        ItemModel::Image(i) => match i.pixels {
            Some(pixels) => Some(
                JobModel::Image {
                    pixels,
                    place: transform_matrix(i.ctm),
                    alpha: held_to_one(i.alpha),
                    clip: i.clip,
                },
            ),
            None => None,
        },
    }
}

/// What is painted of the first `n` items.
pub open spec fn jobs_of(items: Seq<ItemModel>, n: nat) -> Seq<JobModel>
    decreases n,
{
    if n == 0 {
        seq![]
    } else {
        let before = jobs_of(items, (n - 1) as nat);
        match job_of(items[n - 1]) {
            Some(job) => before.push(job),
            None => before,
        }
    }
}

pub open spec fn fill_model(f: Option<(Ink, FillRule)>) -> Option<(InkModel, FillRule)> {
    match f {
        Some((ink, rule)) => Some((ink@, rule)),
        None => None,
    }
}

pub open spec fn stroke_model(f: Option<(Ink, Real)>) -> Option<(InkModel, RealModel)> {
    match f {
        Some((ink, width)) => Some((ink@, width@)),
        None => None,
    }
}

/// A job is one of a display list, and is the one that is meant.
pub open spec fn is_job(display: DisplayList, job: Job, m: JobModel) -> bool {
    match (job, m) {
        (
            Job::Path { segments, fill, stroke, clip },
            JobModel::Path { segments: s, fill: f, stroke: k, clip: c },
        ) => {
            &&& placed_models(segments@) == s
            &&& fill_model(fill) == f
            &&& stroke_model(stroke) == k
            &&& clip <= display.clips@.len()
            &&& clip_chain(display.steps@, display.clips@, clip as int) == c
        },
        (
            Job::Glyph { shape, font_number, place, ink, clip },
            JobModel::Glyph { shape: s, program, place: p, ink: i, clip: c },
        ) => {
            &&& shape == s
            &&& 0 < font_number <= display.fonts@.len()
            &&& display.fonts@[font_number - 1]@ == program
            &&& place@ == p
            &&& ink@ == i
            &&& clip <= display.clips@.len()
            &&& clip_chain(display.steps@, display.clips@, clip as int) == c
        },
        (
            Job::Image { item, place, alpha, clip },
            JobModel::Image { pixels, place: p, alpha: a, clip: c },
        ) => {
            &&& item < display.items@.len()
            &&& display.items@[item as int] is Image
            &&& pixels_model(display.items@[item as int]->Image_pixels) == Some(pixels)
            &&& place@ == p
            &&& alpha@ == a
            &&& clip <= display.clips@.len()
            &&& clip_chain(display.steps@, display.clips@, clip as int) == c
        },
        _ => false,
    }
}

fn mix(color: &Color, alpha: &Real) -> (r: Ink)
    ensures
        r@ == ink_of(color@, alpha@),
{
    let (red, green, blue) = to_rgb(color);
    Ink { red, green, blue, alpha: hold_to_one(alpha) }
}

/// What is painted of one item.
fn make_job(display: &DisplayList, all: &Vec<Matrix>, i: usize) -> (r: Option<Job>)
    requires
        display.wf(),
        matrices_of(display.steps@, all@),
        i < display.items@.len(),
    ensures
        match r {
            Some(job) => job_of(display@[i as int]) is Some && is_job(
                *display,
                job,
                job_of(display@[i as int])->0,
            ),
            None => job_of(display@[i as int]) is None,
        },
{
    assert(display@[i as int] == item_model(
        display.steps@,
        display.clips@,
        display.fonts@,
        display.items@[i as int],
    ));
    assert(item_in(
        display.items@[i as int],
        display.steps@.len(),
        display.clips@.len(),
        display.fonts@.len(),
    ));
    match &display.items[i] {
        DisplayItem::Path {
            segments,
            paint,
            fill_rule,
            fill_color,
            stroke_color,
            line_width,
            fill_alpha,
            stroke_alpha,
            sets_clip,
            clip,
        } => {
            let filled: bool = *paint == PaintOp::Fill || *paint == PaintOp::FillStroke;
            let stroked: bool = *paint == PaintOp::Stroke || *paint == PaintOp::FillStroke;
            if !filled && !stroked {
                return None;
            }
            let fill = if filled {
                Some((mix(fill_color, fill_alpha), *fill_rule))
            } else {
                None
            };
            let stroke = if stroked {
                Some(
                    (
                        mix(stroke_color, stroke_alpha),
                        greater_of(line_width, &Real::from_scaled(1, 1)),
                    ),
                )
            } else {
                None
            };
            Some(
                Job::Path {
                    segments: place_segments(display, all, segments),
                    fill,
                    stroke,
                    clip: *clip,
                },
            )
        },
        DisplayItem::Glyph {
            font,
            code,
            unicode,
            size,
            scale,
            rise,
            text,
            ctm,
            color,
            alpha,
            advance_is_estimated,
            shape,
            font_number,
            clip,
        } => {
            if *font_number == 0 {
                return None;
            }
            match shape {
                None => None,
                Some(s) => {
                    assert(all@[*text as int]@ == transform_matrix(chain(display.steps@, *text as int)));
                    assert(all@[*ctm as int]@ == transform_matrix(chain(display.steps@, *ctm as int)));
                    Some(
                        Job::Glyph {
                            shape: *s,
                            font_number: *font_number,
                            place: place_glyph(size, scale, rise, &all[*text], &all[*ctm]),
                            ink: mix(color, alpha),
                            clip: *clip,
                        },
                    )
                },
            }
        },
        DisplayItem::Image { resource, ctm, pixels, alpha, clip } => {
            if pixels.is_none() {
                return None;
            }
            assert(all@[*ctm as int]@ == transform_matrix(chain(display.steps@, *ctm as int)));
            Some(
                Job::Image {
                    item: i,
                    place: all[*ctm].clone(),
                    alpha: hold_to_one(alpha),
                    clip: *clip,
                },
            )
        },
    }
}

/// What is painted of a page, in order.
pub fn paint_jobs(display: &DisplayList) -> (r: Vec<Job>)
    requires
        display.wf(),
    ensures
        r@.len() == jobs_of(display@, display@.len()).len(),
        forall|k: int|
            0 <= k < r@.len() ==> is_job(
                *display,
                #[trigger] r@[k],
                jobs_of(display@, display@.len())[k],
            ),
{
    let all = matrices(display);
    let mut r: Vec<Job> = Vec::new();
    let n: usize = display.items.len();
    let mut i: usize = 0;
    while i < n
        invariant
            0 <= i <= n,
            n == display.items@.len(),
            display.wf(),
            matrices_of(display.steps@, all@),
            r@.len() == jobs_of(display@, i as nat).len(),
            forall|k: int|
                0 <= k < r@.len() ==> is_job(
                    *display,
                    #[trigger] r@[k],
                    jobs_of(display@, i as nat)[k],
                ),
        decreases n - i,
    {
        match make_job(display, &all, i) {
            Some(job) => {
                r.push(job);
            },
            None => {},
        }
        i += 1;
    }
    r
}

/// The outline of each clip, the outermost first.
pub open spec fn clips_placed(c: Clip) -> Seq<(Seq<PlacedModel>, FillRule)> {
    c.map_values(|x: ClipModel| (all_placed(x.segments), x.fill_rule))
}

pub open spec fn outline_models(s: Seq<(Vec<PlacedSegment>, FillRule)>) -> Seq<
    (Seq<PlacedModel>, FillRule),
> {
    s.map_values(|x: (Vec<PlacedSegment>, FillRule)| (placed_models(x.0@), x.1))
}

/// The outlines of nested clips, the outermost first.
pub fn clip_outlines(display: &DisplayList, clip: usize) -> (r: Vec<(Vec<PlacedSegment>, FillRule)>)
    requires
        display.wf(),
        clip <= display.clips@.len(),
    ensures
        outline_models(r@) == clips_placed(clip_chain(display.steps@, display.clips@, clip as int)),
{
    let all = matrices(display);
    nest(display, &all, clip)
}

fn nest(display: &DisplayList, all: &Vec<Matrix>, clip: usize) -> (r: Vec<
    (Vec<PlacedSegment>, FillRule),
>)
    requires
        display.wf(),
        matrices_of(display.steps@, all@),
        clip <= display.clips@.len(),
    ensures
        outline_models(r@) == clips_placed(clip_chain(display.steps@, display.clips@, clip as int)),
    decreases clip,
{
    let ghost c = clip_chain(display.steps@, display.clips@, clip as int);
    if clip == 0 {
        let r: Vec<(Vec<PlacedSegment>, FillRule)> = Vec::new();
        assert(outline_models(r@) =~= clips_placed(c));
        return r;
    }
    let node = &display.clips[clip - 1];
    assert(display.clips@[clip - 1].below <= clip - 1);
    let mut r = nest(display, all, node.below);
    let ghost before = r@;
    r.push((place_segments(display, all, &node.segments), node.fill_rule));
    proof {
        let rest = clip_chain(display.steps@, display.clips@, node.below as int);
        let last = ClipModel {
            segments: segment_models(display.steps@, node.segments@),
            fill_rule: node.fill_rule,
        };
        assert(c == rest.push(last));
        assert(clips_placed(c) =~= clips_placed(rest).push(
            (all_placed(last.segments), last.fill_rule),
        ));
        assert(outline_models(r@) =~= outline_models(before).push(
            (placed_models(r@.last().0@), r@.last().1),
        ));
    }
    r
}

/// Whatever is painted was shown: there are no more jobs than items.
pub proof fn jobs_are_items(items: Seq<ItemModel>, n: nat, k: int)
    requires
        n <= items.len(),
        0 <= k < jobs_of(items, n).len(),
    ensures
        jobs_of(items, n).len() <= n,
        exists|i: int| 0 <= i < n && job_of(#[trigger] items[i]) == Some(jobs_of(items, n)[k]),
    decreases n,
{
    let before = jobs_of(items, (n - 1) as nat);
    if k < before.len() {
        jobs_are_items(items, (n - 1) as nat, k);
        let i = choose|i: int|
            0 <= i < n - 1 && job_of(#[trigger] items[i]) == Some(before[k]);
        assert(job_of(items[i]) == Some(jobs_of(items, n)[k]));
    } else {
        if before.len() > 0 {
            jobs_are_items(items, (n - 1) as nat, 0);
        }
        assert(job_of(items[n - 1]) == Some(jobs_of(items, n)[k]));
    }
}

} // verus!
