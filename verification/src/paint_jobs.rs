//! What is painted of what is shown, and how paths are walked.
use vstd::prelude::*;
use crate::affine::{moved_point, transform_matrix};
use crate::arith::{pow10, sum};
use crate::canvas::{ItemModel, PathModel, PointModel, SegmentModel, Transform};
use crate::display::PaintOp;
use crate::exact::{below_is_less, scaled_value};
use crate::geometry::{all_placed, events_before, events_of, held_to_one, is_open, path_events, rgb_of, EventModel, PlacedModel};
use crate::number::{scaled, RealModel};
use crate::painting::{job_of, jobs_of, stroke_width, InkModel};

verus! {

/// How many of the first `n` items are painted.
pub open spec fn painted_among(items: Seq<ItemModel>, n: int) -> int
    decreases n,
{
    if n <= 0 {
        0
    } else {
        painted_among(items, n - 1) + if is_painted(items[n - 1]) {
            1int
        } else {
            0
        }
    }
}

/// A path that is filled or stroked, a glyph whose shape and font are known, an image that could
/// be decoded.
pub open spec fn is_painted(item: ItemModel) -> bool {
    match item {
        ItemModel::Path(p) => p.paint != PaintOp::Nothing,
        ItemModel::Glyph(g) => g.shape is Some && g.program is Some,
        ItemModel::Image(i) => i.pixels is Some,
    }
}

proof fn jobs_are_counted(items: Seq<ItemModel>, n: nat)
    requires
        n <= items.len(),
    ensures
        jobs_of(items, n).len() == painted_among(items, n as int),
        forall|i: int|
            0 <= i < n && is_painted(#[trigger] items[i]) ==> 0 <= painted_among(items, i)
                < painted_among(items, n as int) && Some(jobs_of(items, n)[painted_among(items, i)])
                == job_of(items[i]),
    decreases n,
{
    if n > 0 {
        jobs_are_counted(items, (n - 1) as nat);
    }
}

/// Everything that can be painted is painted, in the order in which it is shown.
pub proof fn everything_is_painted_in_order(items: Seq<ItemModel>)
    ensures
        jobs_of(items, items.len()).len() == painted_among(items, items.len() as int),
        forall|i: int|
            0 <= i < items.len() && is_painted(#[trigger] items[i]) ==> 0 <= painted_among(items, i)
                < jobs_of(items, items.len()).len() && Some(
                jobs_of(items, items.len())[painted_among(items, i)],
            ) == job_of(items[i]),
{
    jobs_are_counted(items, items.len());
}

/// The ink has a color and an opacity, held from zero to one.
pub open spec fn is_ink(ink: InkModel, light: (RealModel, RealModel, RealModel), alpha: RealModel) -> bool {
    &&& ink.red == light.0
    &&& ink.green == light.1
    &&& ink.blue == light.2
    &&& ink.alpha == held_to_one(alpha)
}

/// A path is filled with the color and the opacity for filling and by its rule, and stroked with
/// those for strokes; each only where its operator says so.
pub proof fn path_is_filled_and_stroked(p: PathModel)
    ensures
        p.paint == PaintOp::Nothing <==> job_of(ItemModel::Path(p)) is None,
        p.paint != PaintOp::Nothing ==> {
            let job = job_of(ItemModel::Path(p))->0;
            &&& job is Path
            &&& job->Path_segments == all_placed(p.segments)
            &&& job->Path_clip == p.clip
            &&& job->Path_fill is Some <==> p.paint == PaintOp::Fill || p.paint == PaintOp::FillStroke
            &&& job->Path_stroke is Some <==> p.paint == PaintOp::Stroke || p.paint
                == PaintOp::FillStroke
            &&& job->Path_fill is Some ==> is_ink(
                (job->Path_fill->0).0,
                rgb_of(p.fill_color),
                p.fill_alpha,
            ) && (job->Path_fill->0).1 == p.fill_rule
            &&& job->Path_stroke is Some ==> is_ink(
                (job->Path_stroke->0).0,
                rgb_of(p.stroke_color),
                p.stroke_alpha,
            ) && (job->Path_stroke->0).1 == stroke_width(p.line_width)
        },
{
}

/// A line is as wide as it says, and at least a tenth of a point.
pub proof fn lines_have_a_width(width: RealModel, p: nat)
    requires
        1 <= p,
        width.places() <= p,
    ensures
        width.at_places(p) >= pow10((p - 1) as nat) ==> stroke_width(width) == width,
        width.at_places(p) < pow10((p - 1) as nat) ==> stroke_width(width) == scaled(1, 1),
{
    scaled_value(1, 1, p);
    below_is_less(width, scaled(1, 1), p);
}

/// The segments of a path keep their kind and their order, with each point where the transform of
/// the segment puts it.
pub proof fn segments_are_placed(s: Seq<SegmentModel>, i: int, a: PointModel, b: PointModel, c: PointModel, t: Transform)
    requires
        0 <= i < s.len(),
    ensures
        all_placed(s).len() == s.len(),
        ({
            let m = transform_matrix(t);
            let pa = moved_point(m, sum(a.x, a.right), sum(a.y, a.up));
            let pb = moved_point(m, sum(b.x, b.right), sum(b.y, b.up));
            let pc = moved_point(m, sum(c.x, c.right), sum(c.y, c.up));
            &&& s[i] == SegmentModel::MoveTo(a, t) ==> all_placed(s)[i] == PlacedModel::MoveTo(pa)
            &&& s[i] == SegmentModel::LineTo(a, t) ==> all_placed(s)[i] == PlacedModel::LineTo(pa)
            &&& s[i] == SegmentModel::CurveTo(a, b, c, t) ==> all_placed(s)[i] == PlacedModel::CurveTo(
                pa,
                pb,
                pc,
            )
            &&& s[i] is ClosePath ==> all_placed(s)[i] is ClosePath
        }),
{
}

/// The events of a part: it begins where it is moved to, and each line or curve follows.
pub open spec fn part_events(s: Seq<PlacedModel>, n: nat) -> Seq<EventModel> {
    Seq::new(
        n,
        |i: int|
            match s[i] {
                PlacedModel::MoveTo(p) => EventModel::Begin(p),
                PlacedModel::LineTo(p) => EventModel::Line(p),
                PlacedModel::CurveTo(a, b, c) => EventModel::Curve(a, b, c),
                PlacedModel::ClosePath => EventModel::End(true),
            },
    )
}

/// The path is one part: a move and then lines and curves.
pub open spec fn is_one_part(s: Seq<PlacedModel>) -> bool {
    &&& s.len() > 0
    &&& s[0] is MoveTo
    &&& forall|i: int| 0 < i < s.len() ==> (#[trigger] s[i]) is LineTo || s[i] is CurveTo
}

proof fn part_before(s: Seq<PlacedModel>, n: nat)
    requires
        is_one_part(s),
        n <= s.len(),
    ensures
        events_before(s, n) == part_events(s, n),
    decreases n,
{
    if n > 0 {
        part_before(s, (n - 1) as nat);
        assert(n == 1 || is_open(s, (n - 1) as nat)) by {
            if n > 1 {
                assert(!(s[n - 2] is ClosePath)) by {
                    assert(n - 2 == 0 || (s[n - 2] is LineTo || s[n - 2] is CurveTo));
                }
            }
        }
        assert(n > 1 ==> (s[n - 1] is LineTo || s[n - 1] is CurveTo));
        assert(events_before(s, n) =~= part_events(s, n));
    } else {
        assert(events_before(s, 0) =~= part_events(s, 0));
    }
}

/// A path of one part has an event for each of its segments in their order, and one for its end:
/// an open one, or a closed one where it is closed.
pub proof fn part_is_walked(s: Seq<PlacedModel>)
    requires
        is_one_part(s),
    ensures
        path_events(s) == Some(part_events(s, s.len()).push(EventModel::End(false))),
        path_events(s.push(PlacedModel::ClosePath)) == Some(
            part_events(s, s.len()).push(EventModel::End(true)),
        ),
{
    part_before(s, s.len());
    let last = s.len() - 1;
    assert(!(s[last] is ClosePath)) by {
        assert(last == 0 || (s[last] is LineTo || s[last] is CurveTo));
    }
    assert(is_open(s, s.len()));
    assert(!(s[0] is ClosePath));
    assert(crate::geometry::draws(s));
    let closed = s.push(PlacedModel::ClosePath);
    assert(!(closed[0] is ClosePath));
    assert(crate::geometry::draws(closed));
    events_prefix(s, PlacedModel::ClosePath, s.len());
    assert(closed[s.len() as int] is ClosePath);
    assert(is_open(closed, s.len())) by {
        assert(closed[last] == s[last]);
    }
    assert(events_before(closed, closed.len()) =~= events_before(s, s.len()).push(
        EventModel::End(true),
    ));
}

proof fn events_prefix(s: Seq<PlacedModel>, x: PlacedModel, n: nat)
    requires
        n <= s.len(),
    ensures
        events_before(s.push(x), n) == events_before(s, n),
    decreases n,
{
    if n > 0 {
        events_prefix(s, x, (n - 1) as nat);
        assert(s.push(x)[n - 1] == s[n - 1]);
        assert(n >= 2 ==> s.push(x)[n - 2] == s[n - 2]);
    }
}

/// A part that starts behind another ends it first, without closing it.
pub proof fn next_part_ends_the_last(p: (RealModel, RealModel))
    ensures
        events_of(PlacedModel::MoveTo(p), true) == seq![EventModel::End(false), EventModel::Begin(p)],
        events_of(PlacedModel::LineTo(p), false) == seq![EventModel::Begin(p), EventModel::Line(p)],
{
}

} // verus!
