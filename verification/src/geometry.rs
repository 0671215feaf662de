//! Where what a page shows comes to lie: points on the page, the page in pixels, colors.
use vstd::prelude::*;
use crate::affine::{composed, greater, greater_of, identity_matrix, lesser, lesser_of, moved_point, nil, transform_matrix, unit};
use crate::arith::{product, sum};
use crate::canvas::{chain, segment_in, segment_model, segment_models, segments_in, Color, ColorModel, DisplayList, Matrix, MatrixModel, PathSegment, Point, PointModel, SegmentModel, StepNode};
use crate::display::{normalize_rotate, quarter_turn};
use crate::number::{real_of_int, saturate_i64, scaled, Real, RealModel};

verus! {

/// A part of a path on the page.
#[derive(Debug, PartialEq)]
pub enum PlacedSegment {
    MoveTo((Real, Real)),
    LineTo((Real, Real)),
    CurveTo { c1: (Real, Real), c2: (Real, Real), to: (Real, Real) },
    ClosePath,
}

pub ghost enum PlacedModel {
    MoveTo((RealModel, RealModel)),
    LineTo((RealModel, RealModel)),
    CurveTo((RealModel, RealModel), (RealModel, RealModel), (RealModel, RealModel)),
    ClosePath,
}

impl View for PlacedSegment {
    type V = PlacedModel;

    open spec fn view(&self) -> PlacedModel {
        match *self {
            PlacedSegment::MoveTo(p) => PlacedModel::MoveTo((p.0@, p.1@)),
            PlacedSegment::LineTo(p) => PlacedModel::LineTo((p.0@, p.1@)),
            PlacedSegment::CurveTo { c1, c2, to } => PlacedModel::CurveTo(
                (c1.0@, c1.1@),
                (c2.0@, c2.1@),
                (to.0@, to.1@),
            ),
            PlacedSegment::ClosePath => PlacedModel::ClosePath,
        }
    }
}

pub open spec fn placed_models(s: Seq<PlacedSegment>) -> Seq<PlacedModel> {
    s.map_values(|x: PlacedSegment| x@)
}

/// A point as a transform leaves it.
pub open spec fn placed_point(p: PointModel, m: MatrixModel) -> (RealModel, RealModel) {
    moved_point(m, sum(p.x, p.right), sum(p.y, p.up))
}

/// A segment with its points on the page.
pub open spec fn placed(s: SegmentModel) -> PlacedModel {
    match s {
        SegmentModel::MoveTo(p, t) => PlacedModel::MoveTo(placed_point(p, transform_matrix(t))),
        SegmentModel::LineTo(p, t) => PlacedModel::LineTo(placed_point(p, transform_matrix(t))),
        SegmentModel::CurveTo(a, b, c, t) => PlacedModel::CurveTo(
            placed_point(a, transform_matrix(t)),
            placed_point(b, transform_matrix(t)),
            placed_point(c, transform_matrix(t)),
        ),
        SegmentModel::ClosePath => PlacedModel::ClosePath,
    }
}

pub open spec fn all_placed(s: Seq<SegmentModel>) -> Seq<PlacedModel> {
    s.map_values(|x: SegmentModel| placed(x))
}

fn place_point(p: &Point, m: &Matrix) -> (r: (Real, Real))
    ensures
        (r.0@, r.1@) == placed_point(p@, m@),
{
    m.apply(&p.x.plus(&p.right), &p.y.plus(&p.up))
}

/// The matrices are those of a list of steps.
pub open spec fn matrices_of(steps: Seq<StepNode>, all: Seq<Matrix>) -> bool {
    &&& all.len() == steps.len() + 1
    &&& forall|k: int|
        0 <= k < all.len() ==> (#[trigger] all[k])@ == transform_matrix(chain(steps, k))
}

/// Segments with their points on the page, `all` being the matrices of the list's transforms.
pub fn place_segments(display: &DisplayList, all: &Vec<Matrix>, segments: &Vec<PathSegment>) -> (r: Vec<
    PlacedSegment,
>)
    requires
        matrices_of(display.steps@, all@),
        segments_in(segments@, display.steps@.len()),
    ensures
        placed_models(r@) == all_placed(segment_models(display.steps@, segments@)),
{
    let ghost steps = display.steps@;
    let ghost goal = all_placed(segment_models(steps, segments@));
    let mut r: Vec<PlacedSegment> = Vec::new();
    let mut i: usize = 0;
    while i < segments.len()
        invariant
            0 <= i <= segments@.len(),
            matrices_of(steps, all@),
            segments_in(segments@, steps.len()),
            r@.len() == i,
            forall|j: int|
                0 <= j < i ==> (#[trigger] r@[j])@ == placed(segment_model(steps, segments@[j])),
        decreases segments@.len() - i,
    {
        assert(segment_in(segments@[i as int], steps.len()));
        let s = match &segments[i] {
            PathSegment::MoveTo { to, ctm } => {
                assert(all@[*ctm as int]@ == transform_matrix(chain(steps, *ctm as int)));
                PlacedSegment::MoveTo(place_point(to, &all[*ctm]))
            },
            PathSegment::LineTo { to, ctm } => {
                assert(all@[*ctm as int]@ == transform_matrix(chain(steps, *ctm as int)));
                PlacedSegment::LineTo(place_point(to, &all[*ctm]))
            },
            PathSegment::CurveTo { c1, c2, to, ctm } => {
                assert(all@[*ctm as int]@ == transform_matrix(chain(steps, *ctm as int)));
                PlacedSegment::CurveTo {
                    c1: place_point(c1, &all[*ctm]),
                    c2: place_point(c2, &all[*ctm]),
                    to: place_point(to, &all[*ctm]),
                }
            },
            PathSegment::ClosePath => PlacedSegment::ClosePath,
        };
        r.push(s);
        i += 1;
    }
    assert(placed_models(r@) =~= goal);
    r
}

/// A path in the events of a path builder that starts and ends each part itself.
#[derive(Debug, PartialEq)]
pub enum PathEvent {
    Begin((Real, Real)),
    Line((Real, Real)),
    Curve { c1: (Real, Real), c2: (Real, Real), to: (Real, Real) },
    End { close: bool },
}

pub ghost enum EventModel {
    Begin((RealModel, RealModel)),
    Line((RealModel, RealModel)),
    Curve((RealModel, RealModel), (RealModel, RealModel), (RealModel, RealModel)),
    End(bool),
}

impl View for PathEvent {
    type V = EventModel;

    open spec fn view(&self) -> EventModel {
        match *self {
            PathEvent::Begin(p) => EventModel::Begin((p.0@, p.1@)),
            PathEvent::Line(p) => EventModel::Line((p.0@, p.1@)),
            PathEvent::Curve { c1, c2, to } => EventModel::Curve(
                (c1.0@, c1.1@),
                (c2.0@, c2.1@),
                (to.0@, to.1@),
            ),
            PathEvent::End { close } => EventModel::End(close),
        }
    }
}

pub open spec fn event_models(s: Seq<PathEvent>) -> Seq<EventModel> {
    s.map_values(|x: PathEvent| x@)
}

/// Whether a part of a path is open behind the first `n` segments.
pub open spec fn is_open(s: Seq<PlacedModel>, n: nat) -> bool
    decreases n,
{
    n > 0 && (match s[n - 1] {
        PlacedModel::ClosePath => false,
        _ => true,
    })
}

/// The events of one segment. A part that no move starts is started where it first goes.
pub open spec fn events_of(s: PlacedModel, open: bool) -> Seq<EventModel> {
    match s {
        PlacedModel::MoveTo(p) => if open {
            seq![EventModel::End(false), EventModel::Begin(p)]
        } else {
            seq![EventModel::Begin(p)]
        },
        PlacedModel::LineTo(p) => if open {
            seq![EventModel::Line(p)]
        } else {
            seq![EventModel::Begin(p), EventModel::Line(p)]
        },
        PlacedModel::CurveTo(a, b, c) => if open {
            seq![EventModel::Curve(a, b, c)]
        } else {
            seq![EventModel::Begin(a), EventModel::Curve(a, b, c)]
        },
        PlacedModel::ClosePath => if open {
            seq![EventModel::End(true)]
        } else {
            seq![]
        },
    }
}

/// The events of the first `n` segments.
pub open spec fn events_before(s: Seq<PlacedModel>, n: nat) -> Seq<EventModel>
    decreases n,
{
    if n == 0 {
        seq![]
    } else {
        events_before(s, (n - 1) as nat) + events_of(s[n - 1], is_open(s, (n - 1) as nat))
    }
}

/// Something is drawn: a path of nothing but closings is none.
pub open spec fn draws(s: Seq<PlacedModel>) -> bool {
    exists|i: int| 0 <= i < s.len() && !(#[trigger] s[i] is ClosePath)
}

/// The events of a path; a part that is open at its end is ended.
pub open spec fn path_events(s: Seq<PlacedModel>) -> Option<Seq<EventModel>> {
    if !draws(s) {
        None
    } else if is_open(s, s.len()) {
        Some(events_before(s, s.len()).push(EventModel::End(false)))
    } else {
        Some(events_before(s, s.len()))
    }
}

fn copy_pair(p: &(Real, Real)) -> (r: (Real, Real))
    ensures
        r.0@ == p.0@,
        r.1@ == p.1@,
{
    (p.0.clone(), p.1.clone())
}

/// The events of a path.
pub fn build_events(segments: &Vec<PlacedSegment>) -> (r: Option<Vec<PathEvent>>)
    ensures
        match r {
            Some(e) => path_events(placed_models(segments@)) == Some(event_models(e@)),
            None => path_events(placed_models(segments@)) is None,
        },
{
    let ghost ms = placed_models(segments@);
    let mut out: Vec<PathEvent> = Vec::new();
    let mut open = false;
    let mut any = false;
    assert(event_models(out@) =~= seq![]);
    let mut i: usize = 0;
    while i < segments.len()
        invariant
            0 <= i <= segments@.len(),
            ms == placed_models(segments@),
            open == is_open(ms, i as nat),
            any == exists|j: int| 0 <= j < i && !(#[trigger] ms[j] is ClosePath),
            event_models(out@) == events_before(ms, i as nat),
        decreases segments@.len() - i,
    {
        let ghost before = event_models(out@);
        assert(ms[i as int] == segments@[i as int]@);
        let ghost events = events_of(ms[i as int], open);
        match &segments[i] {
            PlacedSegment::MoveTo(p) => {
                if open {
                    out.push(PathEvent::End { close: false });
                }
                out.push(PathEvent::Begin(copy_pair(p)));
                open = true;
                any = true;
            },
            PlacedSegment::LineTo(p) => {
                if !open {
                    out.push(PathEvent::Begin(copy_pair(p)));
                }
                out.push(PathEvent::Line(copy_pair(p)));
                open = true;
                any = true;
            },
            PlacedSegment::CurveTo { c1, c2, to } => {
                if !open {
                    out.push(PathEvent::Begin(copy_pair(c1)));
                }
                out.push(
                    PathEvent::Curve { c1: copy_pair(c1), c2: copy_pair(c2), to: copy_pair(to) },
                );
                open = true;
                any = true;
            },
            PlacedSegment::ClosePath => {
                if open {
                    out.push(PathEvent::End { close: true });
                }
                open = false;
            },
        }
        proof {
            assert(event_models(out@) =~= before + events);
            if !(ms[i as int] is ClosePath) {
                assert(!(ms[i as int] is ClosePath));
            }
            let k = i + 1;
            assert(any == exists|j: int| 0 <= j < k && !(#[trigger] ms[j] is ClosePath)) by {
                if exists|j: int| 0 <= j < k && !(#[trigger] ms[j] is ClosePath) {
                    let j = choose|j: int| 0 <= j < k && !(#[trigger] ms[j] is ClosePath);
                    if j < i {
                        assert(!(ms[j] is ClosePath));
                    }
                }
            }
        }
        i += 1;
    }
    if !any {
        return None;
    }
    if open {
        let ghost before = event_models(out@);
        out.push(PathEvent::End { close: false });
        assert(event_models(out@) =~= before.push(EventModel::End(false)));
    }
    Some(out)
}

/// A number held from zero to one.
pub open spec fn held_to_one(r: RealModel) -> RealModel {
    lesser(greater(r, nil()), unit())
}

/// What is left of white with an ink and with black.
pub open spec fn without_ink(ink: RealModel, black: RealModel) -> RealModel {
    product(sum(unit(), ink.negated()), sum(unit(), black.negated()))
}

/// A color in red, green and blue, each held from zero to one.
pub open spec fn rgb_of(c: ColorModel) -> (RealModel, RealModel, RealModel) {
    match c {
        ColorModel::Gray(g) => (held_to_one(g), held_to_one(g), held_to_one(g)),
        ColorModel::Rgb(r, g, b) => (held_to_one(r), held_to_one(g), held_to_one(b)),
        ColorModel::Cmyk(c, m, y, k) => (
            held_to_one(without_ink(c, k)),
            held_to_one(without_ink(m, k)),
            held_to_one(without_ink(y, k)),
        ),
    }
}

pub(crate) fn hold_to_one(r: &Real) -> (h: Real)
    ensures
        h@ == held_to_one(r@),
{
    lesser_of(&greater_of(r, &Real::from_int(0)), &Real::from_int(1))
}

fn remove_ink(ink: &Real, black: &Real) -> (r: Real)
    ensures
        r@ == without_ink(ink@, black@),
{
    let one = Real::from_int(1);
    one.plus(&ink.negated()).times(&one.plus(&black.negated()))
}

/// A color in red, green and blue.
pub fn to_rgb(color: &Color) -> (r: (Real, Real, Real))
    ensures
        (r.0@, r.1@, r.2@) == rgb_of(color@),
{
    match color {
        Color::Gray(g) => (hold_to_one(g), hold_to_one(g), hold_to_one(g)),
        Color::Rgb(r, g, b) => (hold_to_one(r), hold_to_one(g), hold_to_one(b)),
        Color::Cmyk(c, m, y, k) => (
            hold_to_one(&remove_ink(c, k)),
            hold_to_one(&remove_ink(m, k)),
            hold_to_one(&remove_ink(y, k)),
        ),
    }
}

/// The scale of a page: at least a hundredth.
pub open spec fn least_scale(scale: RealModel) -> RealModel {
    greater(scale, scaled(1, 2))
}

/// The width and the height of a page at a scale, before it is turned.
pub open spec fn upright_size(bounds: Seq<i64>, scale: RealModel) -> (RealModel, RealModel) {
    (
        product(real_of_int(bounds[2] - bounds[0]), least_scale(scale)),
        product(real_of_int(bounds[3] - bounds[1]), least_scale(scale)),
    )
}

/// A length in pixels: the nearest whole number, at least one.
pub open spec fn pixels(length: RealModel) -> u32 {
    let n = saturate_i64(sum(length, scaled(5, 1)).truncated());
    if n < 1 {
        1
    } else if n > u32::MAX {
        u32::MAX
    } else {
        n as u32
    }
}

/// The page is turned on its side.
pub open spec fn on_its_side(rotate: int) -> bool {
    quarter_turn(rotate) == 90 || quarter_turn(rotate) == 270
}

/// The size of a page in pixels: width and height change places where it is turned on its side.
pub open spec fn pixel_size(bounds: Seq<i64>, rotate: int, scale: RealModel) -> (u32, u32) {
    let (w, h) = upright_size(bounds, scale);
    if on_its_side(rotate) {
        (pixels(h), pixels(w))
    } else {
        (pixels(w), pixels(h))
    }
}

/// From the page, whose origin is at the bottom, to pixels, whose origin is at the top.
pub open spec fn flip(x: RealModel, top: RealModel, scale: RealModel) -> MatrixModel {
    MatrixModel {
        a: scale,
        b: nil(),
        c: nil(),
        d: scale.negated(),
        e: product(x.negated(), scale),
        f: product(top, scale),
    }
}

/// A quarter turn of a page of some size.
pub open spec fn turn_matrix(turn: int, w: RealModel, h: RealModel) -> MatrixModel {
    if turn == 90 {
        MatrixModel { a: nil(), b: unit(), c: real_of_int(-1), d: nil(), e: h, f: nil() }
    } else if turn == 180 {
        MatrixModel { a: real_of_int(-1), b: nil(), c: nil(), d: real_of_int(-1), e: w, f: h }
    } else if turn == 270 {
        MatrixModel { a: nil(), b: real_of_int(-1), c: unit(), d: nil(), e: nil(), f: w }
    } else {
        identity_matrix()
    }
}

/// From the page to the pixels of its image.
pub open spec fn device_of(bounds: Seq<i64>, rotate: int, scale: RealModel) -> MatrixModel {
    let (w, h) = upright_size(bounds, scale);
    composed(
        flip(
            real_of_int(bounds[0] as int),
            real_of_int(bounds[3] as int),
            least_scale(scale),
        ),
        turn_matrix(quarter_turn(rotate), w, h),
    )
}

fn hold_scale(scale: &Real) -> (r: Real)
    ensures
        r@ == least_scale(scale@),
{
    greater_of(scale, &Real::from_scaled(1, 2))
}

fn size_of(bounds: &[i64; 4], scale: &Real) -> (r: (Real, Real))
    ensures
        (r.0@, r.1@) == upright_size(bounds@, scale@),
{
    let s = hold_scale(scale);
    let w: i128 = bounds[2] as i128 - bounds[0] as i128;
    let h: i128 = bounds[3] as i128 - bounds[1] as i128;
    proof {
        whole_scaled(w as int);
        whole_scaled(h as int);
    }
    (Real::from_scaled(w, 0).times(&s), Real::from_scaled(h, 0).times(&s))
}

proof fn whole_scaled(n: int)
    ensures
        scaled(n, 0) == real_of_int(n),
{
    let m = if n < 0 {
        (-n) as nat
    } else {
        n as nat
    };
    let d = crate::decimal::padded(m, 0);
    assert(d == crate::decimal::decimal(m));
    assert(d.take(d.len() as int) =~= d);
    assert(d.skip(d.len() as int) =~= seq![]);
}

fn to_pixels(length: &Real) -> (r: u32)
    ensures
        r == pixels(length@),
{
    let n: i64 = length.plus(&Real::from_scaled(5, 1)).to_int();
    if n < 1 {
        1
    } else if n > u32::MAX as i64 {
        u32::MAX
    } else {
        n as u32
    }
}

/// The size of a page in pixels.
pub fn page_pixels(bounds: &[i64; 4], rotate: i32, scale: &Real) -> (r: (u32, u32))
    ensures
        r == pixel_size(bounds@, rotate as int, scale@),
{
    let (w, h) = size_of(bounds, scale);
    let turn: i32 = normalize_rotate(rotate);
    if turn == 90 || turn == 270 {
        (to_pixels(&h), to_pixels(&w))
    } else {
        (to_pixels(&w), to_pixels(&h))
    }
}

/// From the page to the pixels of its image.
pub fn page_device(bounds: &[i64; 4], rotate: i32, scale: &Real) -> (r: Matrix)
    ensures
        r@ == device_of(bounds@, rotate as int, scale@),
{
    let (w, h) = size_of(bounds, scale);
    let s = hold_scale(scale);
    let x = Real::from_int(bounds[0]);
    let top = Real::from_int(bounds[3]);
    let flipped = Matrix {
        a: s.clone(),
        b: Real::from_int(0),
        c: Real::from_int(0),
        d: s.negated(),
        e: x.negated().times(&s),
        f: top.times(&s),
    };
    flipped.followed_by(&rotation_matrix(normalize_rotate(rotate), w, h))
}

/// A quarter turn of a page of some size.
fn rotation_matrix(rotate: i32, w: Real, h: Real) -> (r: Matrix)
    ensures
        r@ == turn_matrix(rotate as int, w@, h@),
{
    if rotate == 90 {
        Matrix {
            a: Real::from_int(0),
            b: Real::from_int(1),
            c: Real::from_int(-1),
            d: Real::from_int(0),
            e: h,
            f: Real::from_int(0),
        }
    } else if rotate == 180 {
        Matrix {
            a: Real::from_int(-1),
            b: Real::from_int(0),
            c: Real::from_int(0),
            d: Real::from_int(-1),
            e: w,
            f: h,
        }
    } else if rotate == 270 {
        Matrix {
            a: Real::from_int(0),
            b: Real::from_int(-1),
            c: Real::from_int(1),
            d: Real::from_int(0),
            e: Real::from_int(0),
            f: w,
        }
    } else {
        Matrix::identity()
    }
}

/// Every part of a path that is begun is ended before the next begins.
pub proof fn parts_are_ended(s: Seq<PlacedModel>, n: nat, i: int)
    requires
        n <= s.len(),
        0 <= i < events_before(s, n).len(),
        events_before(s, n)[i] is Begin,
        i > 0,
    ensures
        events_before(s, n)[i - 1] is End,
    decreases n,
{
    if n > 0 {
        let before = events_before(s, (n - 1) as nat);
        let k = before.len();
        events_end_as_open(s, (n - 1) as nat);
        if i < k {
            parts_are_ended(s, (n - 1) as nat, i);
        } else if i == k {
            assert(events_before(s, n)[i - 1] == before[k - 1]);
        }
    }
}

proof fn events_end_as_open(s: Seq<PlacedModel>, n: nat)
    requires
        n <= s.len(),
    ensures
        events_before(s, n).len() > 0 && !is_open(s, n) ==> events_before(s, n).last() is End,
        events_before(s, n).len() > 0 && is_open(s, n) ==> !(events_before(s, n).last() is End),
        is_open(s, n) ==> events_before(s, n).len() > 0,
    decreases n,
{
    if n > 0 {
        events_end_as_open(s, (n - 1) as nat);
        let before = events_before(s, (n - 1) as nat);
        let more = events_of(s[n - 1], is_open(s, (n - 1) as nat));
        if more.len() > 0 {
            assert((before + more).last() == more.last());
        } else {
            assert(before + more =~= before);
        }
    }
}

} // verus!
