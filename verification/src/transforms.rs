//! What transforms do to points, as numbers.
use vstd::prelude::*;
use crate::affine::{composed, fitting, glyph_matrix, greater, identity_matrix, lesser, moved_bounds, moved_point, nil, step_matrix, stretch, transform_matrix, translation_matrix, unit};
use crate::arith::{below, pow10, pow10_adds, product, quotient, sum};
use crate::canvas::{BoundsModel, GlyphModel, MatrixModel, StepModel, Transform};
use crate::exact::{at_forty, more_places_value, negated_value, products_are_cut, products_are_exact, scaled_value, shifts_are_exact, sums_are_exact, whole_value};
use crate::number::{scaled, RealModel};

verus! {

/// The numbers of a transform have no more than `p` digits behind their points.
pub open spec fn short(m: MatrixModel, p: nat) -> bool {
    &&& m.a.places() <= p
    &&& m.b.places() <= p
    &&& m.c.places() <= p
    &&& m.d.places() <= p
    &&& m.e.places() <= p
    &&& m.f.places() <= p
}

/// A sum of two products and a number.
proof fn linear_value(a: RealModel, x: RealModel, c: RealModel, y: RealModel, e: RealModel, p: nat, q: nat)
    requires
        a.places() <= p,
        c.places() <= p,
        e.places() <= p,
        x.places() <= q,
        y.places() <= q,
        p + q <= 40,
    ensures
        sum(sum(product(a, x), product(c, y)), e).places() <= p + q,
        sum(product(a, x), product(c, y)).places() <= p + q,
        sum(product(a, x), product(c, y)).at_places(p + q) == a.at_places(p) * x.at_places(q)
            + c.at_places(p) * y.at_places(q),
        sum(sum(product(a, x), product(c, y)), e).at_places(p + q) == a.at_places(p) * x.at_places(q)
            + c.at_places(p) * y.at_places(q) + e.at_places(p) * pow10(q),
{
    products_are_exact(a, x, p, q);
    products_are_exact(c, y, p, q);
    sums_are_exact(product(a, x), product(c, y), p + q);
    more_places_value(e, p, p + q);
    assert((p + q - p) as nat == q);
    sums_are_exact(sum(product(a, x), product(c, y)), e, p + q);
}

/// A point goes where its transform says.
pub proof fn point_is_moved(m: MatrixModel, x: RealModel, y: RealModel, p: nat, q: nat)
    requires
        short(m, p),
        x.places() <= q,
        y.places() <= q,
        p + q <= 40,
    ensures
        moved_point(m, x, y).0.places() <= p + q,
        moved_point(m, x, y).1.places() <= p + q,
        moved_point(m, x, y).0.at_places(p + q) == m.a.at_places(p) * x.at_places(q) + m.c.at_places(
            p,
        ) * y.at_places(q) + m.e.at_places(p) * pow10(q),
        moved_point(m, x, y).1.at_places(p + q) == m.b.at_places(p) * x.at_places(q) + m.d.at_places(
            p,
        ) * y.at_places(q) + m.f.at_places(p) * pow10(q),
{
    linear_value(m.a, x, m.c, y, m.e, p, q);
    linear_value(m.b, x, m.d, y, m.f, p, q);
}

proof fn composed_value(m: MatrixModel, n: MatrixModel, p: nat)
    requires
        short(m, p),
        short(n, p),
        2 * p <= 40,
    ensures
        short(composed(m, n), 2 * p),
        ({
            let c = composed(m, n);
            let t = pow10(p);
            &&& c.a.at_places(2 * p) == m.a.at_places(p) * n.a.at_places(p) + m.b.at_places(p)
                * n.c.at_places(p)
            &&& c.b.at_places(2 * p) == m.a.at_places(p) * n.b.at_places(p) + m.b.at_places(p)
                * n.d.at_places(p)
            &&& c.c.at_places(2 * p) == m.c.at_places(p) * n.a.at_places(p) + m.d.at_places(p)
                * n.c.at_places(p)
            &&& c.d.at_places(2 * p) == m.c.at_places(p) * n.b.at_places(p) + m.d.at_places(p)
                * n.d.at_places(p)
            &&& c.e.at_places(2 * p) == m.e.at_places(p) * n.a.at_places(p) + m.f.at_places(p)
                * n.c.at_places(p) + n.e.at_places(p) * t
            &&& c.f.at_places(2 * p) == m.e.at_places(p) * n.b.at_places(p) + m.f.at_places(p)
                * n.d.at_places(p) + n.f.at_places(p) * t
        }),
{
    whole_value(0, 0);
    linear_value(m.a, n.a, m.b, n.c, nil(), p, p);
    linear_value(m.a, n.b, m.b, n.d, nil(), p, p);
    linear_value(m.c, n.a, m.d, n.c, nil(), p, p);
    linear_value(m.c, n.b, m.d, n.d, nil(), p, p);
    linear_value(m.e, n.a, m.f, n.c, n.e, p, p);
    linear_value(m.e, n.b, m.f, n.d, n.f, p, p);
}

proof fn ring_one(
    ma: int,
    mb: int,
    mc: int,
    md: int,
    me: int,
    mf: int,
    na: int,
    nc: int,
    ne: int,
    x: int,
    y: int,
    t: int,
)
    ensures
        (ma * na + mb * nc) * x + (mc * na + md * nc) * y + (me * na + mf * nc + ne * t) * t == na * (ma
            * x + mc * y + me * t) + nc * (mb * x + md * y + mf * t) + ne * (t * t),
{
    assert((ma * na + mb * nc) * x == na * (ma * x) + nc * (mb * x)) by (nonlinear_arith);
    assert((mc * na + md * nc) * y == na * (mc * y) + nc * (md * y)) by (nonlinear_arith);
    assert((me * na) * t == na * (me * t)) by (nonlinear_arith);
    assert((mf * nc) * t == nc * (mf * t)) by (nonlinear_arith);
    assert((ne * t) * t == ne * (t * t)) by (nonlinear_arith);
    let u = me * na;
    let v = mf * nc;
    let w = ne * t;
    assert((u + v + w) * t == u * t + v * t + w * t) by (nonlinear_arith);
    assert(na * (ma * x + mc * y + me * t) == na * (ma * x) + na * (mc * y) + na * (me * t))
        by (nonlinear_arith);
    assert(nc * (mb * x + md * y + mf * t) == nc * (mb * x) + nc * (md * y) + nc * (mf * t))
        by (nonlinear_arith);
}

/// Two transforms made one do to a point what the second does to what the first has made of it.
pub proof fn composed_is_one_behind_the_other(
    m: MatrixModel,
    n: MatrixModel,
    x: RealModel,
    y: RealModel,
    p: nat,
)
    requires
        short(m, p),
        short(n, p),
        x.places() <= p,
        y.places() <= p,
        3 * p <= 40,
    ensures
        ({
            let at = moved_point(composed(m, n), x, y);
            let first = moved_point(m, x, y);
            let second = moved_point(n, first.0, first.1);
            &&& at.0.at_places(3 * p) == second.0.at_places(3 * p)
            &&& at.1.at_places(3 * p) == second.1.at_places(3 * p)
        }),
{
    composed_value(m, n, p);
    point_is_moved(m, x, y, p, p);
    let first = moved_point(m, x, y);
    assert(p + p == 2 * p);
    point_is_moved(n, first.0, first.1, p, 2 * p);
    point_is_moved(composed(m, n), x, y, 2 * p, p);
    assert(p + 2 * p == 3 * p && 2 * p + p == 3 * p);
    pow10_adds(p, p);
    let t = pow10(p) as int;
    ring_one(
        m.a.at_places(p),
        m.b.at_places(p),
        m.c.at_places(p),
        m.d.at_places(p),
        m.e.at_places(p),
        m.f.at_places(p),
        n.a.at_places(p),
        n.c.at_places(p),
        n.e.at_places(p),
        x.at_places(p),
        y.at_places(p),
        t,
    );
    ring_one(
        m.a.at_places(p),
        m.b.at_places(p),
        m.c.at_places(p),
        m.d.at_places(p),
        m.e.at_places(p),
        m.f.at_places(p),
        n.b.at_places(p),
        n.d.at_places(p),
        n.f.at_places(p),
        x.at_places(p),
        y.at_places(p),
        t,
    );
}

/// A transform does its last step first.
pub proof fn last_step_is_done_first(t: Transform, s: StepModel)
    ensures
        transform_matrix(t.push(s)) == composed(step_matrix(s), transform_matrix(t)),
        transform_matrix(seq![]) == identity_matrix(),
{
    assert(t.push(s).drop_last() =~= t);
}

/// A translation adds to the coordinates of a point, and the identity leaves them.
pub proof fn translation_adds(a: RealModel, b: RealModel, x: RealModel, y: RealModel, p: nat)
    requires
        a.places() <= p,
        b.places() <= p,
        x.places() <= p,
        y.places() <= p,
        2 * p <= 40,
    ensures
        moved_point(translation_matrix(a, b), x, y).0.at_places(2 * p) == x.at_places(2 * p)
            + a.at_places(2 * p),
        moved_point(translation_matrix(a, b), x, y).1.at_places(2 * p) == y.at_places(2 * p)
            + b.at_places(2 * p),
        moved_point(identity_matrix(), x, y).0.at_places(2 * p) == x.at_places(2 * p),
        moved_point(identity_matrix(), x, y).1.at_places(2 * p) == y.at_places(2 * p),
{
    whole_value(0, p);
    whole_value(1, p);
    point_is_moved(translation_matrix(a, b), x, y, p, p);
    point_is_moved(identity_matrix(), x, y, p, p);
    more_places_value(x, p, 2 * p);
    more_places_value(y, p, 2 * p);
    more_places_value(a, p, 2 * p);
    more_places_value(b, p, 2 * p);
    assert((2 * p - p) as nat == p);
    let t = pow10(p) as int;
    let u = x.at_places(p);
    let v = y.at_places(p);
    assert((1 * t) * u == u * t) by (nonlinear_arith);
    assert((1 * t) * v == v * t) by (nonlinear_arith);
    assert(0 * t == 0);
    assert(0 * u == 0 && 0 * v == 0);
}

/// A glyph moves the next one to the right by its width, in thousandths of the size, and by the
/// spacings, all stretched by a scale in hundredths.
pub proof fn advance_is_width_and_spacings(
    width: RealModel,
    size: RealModel,
    spacing: RealModel,
    word: RealModel,
    scale: RealModel,
    p: nat,
)
    requires
        width.places() <= p,
        size.places() <= p,
        spacing.places() <= p,
        word.places() <= p,
        scale.places() <= p,
        3 * p + 5 <= 40,
    ensures
        ({
            let m = step_matrix(StepModel::Advance(width, size, spacing, word, scale));
            &&& m == translation_matrix(m.e, nil())
            &&& m.e.at_places(3 * p + 5) == (width.at_places(p) * size.at_places(p) + (spacing.at_places(
                p,
            ) + word.at_places(p)) * pow10(p + 3)) * scale.at_places(p)
        }),
{
    shifts_are_exact(width, 3, p);
    let w = width.shifted(3);
    products_are_exact(w, size, p + 3, p);
    let q = 2 * p + 3;
    assert(p + 3 + p == q);
    more_places_value(spacing, p, q);
    more_places_value(word, p, q);
    assert((q - p) as nat == p + 3);
    sums_are_exact(product(w, size), spacing, q);
    let s1 = sum(product(w, size), spacing);
    sums_are_exact(s1, word, q);
    let s2 = sum(s1, word);
    shifts_are_exact(scale, 2, p);
    products_are_exact(s2, scale.shifted(2), q, p + 2);
    assert(q + (p + 2) == 3 * p + 5);
    let a = spacing.at_places(p);
    let b = word.at_places(p);
    let t = pow10(p + 3) as int;
    assert((a + b) * t == a * t + b * t) by (nonlinear_arith);
}

/// A number between texts moves what follows to the left by as many thousandths of the size,
/// stretched by a scale in hundredths.
pub proof fn adjustment_moves_left(by: RealModel, size: RealModel, scale: RealModel, p: nat)
    requires
        by.places() <= p,
        size.places() <= p,
        scale.places() <= p,
        3 * p + 5 <= 40,
    ensures
        ({
            let m = step_matrix(StepModel::Adjust(by, size, scale));
            &&& m == translation_matrix(m.e, nil())
            &&& m.e.at_places(3 * p + 5) == -(by.at_places(p) * size.at_places(p) * scale.at_places(p))
        }),
{
    negated_value(by, p);
    shifts_are_exact(by.negated(), 3, p);
    let w = by.negated().shifted(3);
    products_are_exact(w, size, p + 3, p);
    let q = 2 * p + 3;
    assert(p + 3 + p == q);
    shifts_are_exact(scale, 2, p);
    products_are_exact(product(w, size), scale.shifted(2), q, p + 2);
    assert(q + (p + 2) == 3 * p + 5);
    let a = by.at_places(p);
    let b = size.at_places(p);
    let c = scale.at_places(p);
    assert(((-a) * b) * c == -(a * b * c)) by (nonlinear_arith);
}

/// The transform of a glyph goes from its font by the size, the scale of the text in hundredths
/// and the rise, and from there by the place of the text and by the transform of the page.
pub proof fn glyph_has_its_size(g: GlyphModel, p: nat)
    requires
        g.size.places() <= p,
        g.scale.places() <= p,
        2 * p + 2 <= 40,
    ensures
        exists|m: MatrixModel|
            #![trigger composed(composed(m, transform_matrix(g.text)), transform_matrix(g.ctm))]
            {
                &&& glyph_matrix(g) == composed(
                    composed(m, transform_matrix(g.text)),
                    transform_matrix(g.ctm),
                )
                &&& m.a.at_places(2 * p + 2) == g.size.at_places(p) * g.scale.at_places(p)
                &&& m.d == g.size
                &&& m.f == g.rise
                &&& m.b == nil() && m.c == nil() && m.e == nil()
            },
{
    shifts_are_exact(g.scale, 2, p);
    products_are_exact(g.size, g.scale.shifted(2), p, p + 2);
    assert(p + (p + 2) == 2 * p + 2);
    let m = MatrixModel {
        a: product(g.size, g.scale.shifted(2)),
        b: nil(),
        c: nil(),
        d: g.size,
        e: nil(),
        f: g.rise,
    };
    assert(glyph_matrix(g) == composed(
        composed(m, transform_matrix(g.text)),
        transform_matrix(g.ctm),
    ));
}

/// Of two numbers the lesser is above neither, the greater is below neither, and each is one of
/// the two.
pub proof fn lesser_and_greater(a: RealModel, b: RealModel)
    ensures
        !below(a, lesser(a, b)),
        !below(b, lesser(a, b)),
        lesser(a, b) == a || lesser(a, b) == b,
        !below(greater(a, b), a),
        !below(greater(a, b), b),
        greater(a, b) == a || greater(a, b) == b,
{
    crate::arith::below_is_strict(a, b);
    crate::arith::below_is_strict(b, a);
}

/// The number is that of one of the corners of a box, as a transform leaves them, and none of the
/// four is below it, or above it.
pub open spec fn least_of(v: RealModel, a: RealModel, b: RealModel, c: RealModel, d: RealModel) -> bool {
    &&& v == a || v == b || v == c || v == d
    &&& !below(a, v) && !below(b, v) && !below(c, v) && !below(d, v)
}

pub open spec fn greatest_of(v: RealModel, a: RealModel, b: RealModel, c: RealModel, d: RealModel) -> bool {
    &&& v == a || v == b || v == c || v == d
    &&& !below(v, a) && !below(v, b) && !below(v, c) && !below(v, d)
}

proof fn least_of_four(a: RealModel, b: RealModel, c: RealModel, d: RealModel)
    ensures
        least_of(lesser(lesser(a, b), lesser(c, d)), a, b, c, d),
        greatest_of(greater(greater(a, b), greater(c, d)), a, b, c, d),
{
    lesser_and_greater(a, b);
    lesser_and_greater(c, d);
    let x = lesser(a, b);
    let y = lesser(c, d);
    let v = lesser(x, y);
    lesser_and_greater(x, y);
    crate::arith::not_above_transitive(v, x, a);
    crate::arith::not_above_transitive(v, x, b);
    crate::arith::not_above_transitive(v, y, c);
    crate::arith::not_above_transitive(v, y, d);
    let g = greater(a, b);
    let h = greater(c, d);
    lesser_and_greater(g, h);
    let w = greater(g, h);
    crate::arith::not_above_transitive(a, g, w);
    crate::arith::not_above_transitive(b, g, w);
    crate::arith::not_above_transitive(c, h, w);
    crate::arith::not_above_transitive(d, h, w);
}

/// The bounds of a box under a transform are those of its four corners.
pub proof fn bounds_are_those_of_the_corners(b: BoundsModel, m: MatrixModel)
    ensures
        ({
            let r = moved_bounds(b, m);
            let c0 = moved_point(m, b.x0, b.y0);
            let c1 = moved_point(m, b.x1, b.y0);
            let c2 = moved_point(m, b.x1, b.y1);
            let c3 = moved_point(m, b.x0, b.y1);
            &&& least_of(r.x0, c0.0, c1.0, c2.0, c3.0)
            &&& least_of(r.y0, c0.1, c1.1, c2.1, c3.1)
            &&& greatest_of(r.x1, c0.0, c1.0, c2.0, c3.0)
            &&& greatest_of(r.y1, c0.1, c1.1, c2.1, c3.1)
        }),
{
    let c0 = moved_point(m, b.x0, b.y0);
    let c1 = moved_point(m, b.x1, b.y0);
    let c2 = moved_point(m, b.x1, b.y1);
    let c3 = moved_point(m, b.x0, b.y1);
    least_of_four(c0.0, c1.0, c2.0, c3.0);
    least_of_four(c0.1, c1.1, c2.1, c3.1);
}

proof fn axis_is_met(s: RealModel, b: RealModel, y: RealModel, x0: RealModel, q: nat)
    requires
        q >= 40,
        q >= x0.places(),
    ensures
        sum(sum(product(s, b), product(nil(), y)), sum(x0, product(b, s).negated())).at_places(q)
            == x0.at_places(q),
{
    let k = (q - 40) as nat;
    products_are_cut(s, b, s.places(), b.places(), k);
    assert(product(s, b) == product(b, s)) by {
        reveal(product);
        assert(s.unpointed() * b.unpointed() == b.unpointed() * s.unpointed()) by (nonlinear_arith);
        assert(s.places() + b.places() == b.places() + s.places());
    }
    whole_value(0, 0);
    products_are_cut(nil(), y, 0, y.places(), k);
    assert(nil().at_places(0) == 0);
    assert(0 * y.at_places(y.places()) == 0);
    assert(at_forty(0, y.places()) == 0) by {
        if y.places() > 40 {
            pow10_adds((y.places() - 40) as nat, 0);
            assert(0int / pow10((y.places() - 40) as nat) as int == 0) by (nonlinear_arith)
                requires
                    pow10((y.places() - 40) as nat) > 0,
            ;
        } else {
            assert(0 * pow10((40 - y.places()) as nat) == 0);
        }
    }
    assert(0 * pow10(k) == 0);
    let n = product(b, s).negated();
    negated_value(product(b, s), q);
    assert(40 + k == q);
    sums_are_exact(product(s, b), product(nil(), y), q);
    sums_are_exact(x0, n, q);
    sums_are_exact(sum(product(s, b), product(nil(), y)), sum(x0, n), q);
}

proof fn axis_is_met_second(s: RealModel, b: RealModel, x: RealModel, y0: RealModel, q: nat)
    requires
        q >= 40,
        q >= y0.places(),
    ensures
        sum(sum(product(nil(), x), product(s, b)), sum(y0, product(b, s).negated())).at_places(q)
            == y0.at_places(q),
{
    axis_is_met(s, b, x, y0, q);
    assert(sum(product(s, b), product(nil(), x)) == sum(product(nil(), x), product(s, b))) by {
        reveal(sum);
    }
}

/// A box fitted into a rectangle has its lower left corner at that of the rectangle, whichever
/// corners the rectangle was given by.
pub proof fn fitted_box_starts_at_the_corner(bbox: BoundsModel, m: MatrixModel, rect: BoundsModel, q: nat)
    requires
        q >= 40,
        q >= rect.x0.places(),
        q >= rect.x1.places(),
        q >= rect.y0.places(),
        q >= rect.y1.places(),
    ensures
        ({
            let b = moved_bounds(bbox, m);
            let c = moved_point(fitting(bbox, m, rect), b.x0, b.y0);
            &&& c.0.at_places(q) == lesser(rect.x0, rect.x1).at_places(q)
            &&& c.1.at_places(q) == lesser(rect.y0, rect.y1).at_places(q)
        }),
{
    let b = moved_bounds(bbox, m);
    let f = fitting(bbox, m, rect);
    axis_is_met(f.a, b.x0, b.y0, lesser(rect.x0, rect.x1), q);
    axis_is_met_second(f.d, b.y0, b.x0, lesser(rect.y0, rect.y1), q);
}

/// A length stretched by the ratio of two lengths has the second for the first, to twelve digits
/// behind the point.
pub proof fn stretch_is_the_ratio(a0: RealModel, a1: RealModel, b0: RealModel, b1: RealModel, p: nat)
    requires
        a0.places() <= p,
        a1.places() <= p,
        b0.places() <= p,
        b1.places() <= p,
        a0.at_places(p) <= a1.at_places(p),
        b0.at_places(p) <= b1.at_places(p),
    ensures
        ({
            let from = a1.at_places(p) - a0.at_places(p);
            let to = b1.at_places(p) - b0.at_places(p);
            let s = stretch(a0, a1, b0, b1);
            &&& from == 0 ==> s == unit()
            &&& from > 0 ==> s.at_places(12) * from <= to * pow10(12) < (s.at_places(12) + 1) * from
        }),
{
    negated_value(a0, p);
    negated_value(b0, p);
    sums_are_exact(a1, a0.negated(), p);
    sums_are_exact(b1, b0.negated(), p);
    let from = sum(a1, a0.negated());
    let to = sum(b1, b0.negated());
    reveal(quotient);
    let c = crate::arith::more_places(to, from);
    more_places_value(from, c, p);
    more_places_value(to, c, p);
    let t = pow10((p - c) as nat) as int;
    pow10_adds((p - c) as nat, 0);
    let u = from.at_places(c);
    let v = to.at_places(c);
    assert(u * t == 0 <==> u == 0) by (nonlinear_arith)
        requires
            t > 0,
    ;
    assert(u * t >= 0 ==> u >= 0) by (nonlinear_arith)
        requires
            t > 0,
    ;
    assert(v * t >= 0 ==> v >= 0) by (nonlinear_arith)
        requires
            t > 0,
    ;
    if u > 0 {
        let n = v * pow10(12);
        pow10_adds(12, 0);
        assert(n >= 0) by (nonlinear_arith)
            requires
                v >= 0,
                n == v * pow10(12),
                pow10(12) > 0,
        ;
        let q = n / u;
        scaled_value(q, 12, 12);
        assert(pow10(0) == 1);
        vstd::arithmetic::div_mod::lemma_fundamental_div_mod(n, u);
        vstd::arithmetic::div_mod::lemma_mod_bound(n, u);
        assert(q * u <= n < (q + 1) * u) by (nonlinear_arith)
            requires
                n == u * q + n % u,
                0 <= n % u < u,
        ;
        let f = pow10(12) as int;
        assert(q * (u * t) <= (v * t) * f < (q + 1) * (u * t)) by (nonlinear_arith)
            requires
                q * u <= v * f < (q + 1) * u,
                t > 0,
        ;
        assert(q * pow10(0) == q);
        assert(stretch(a0, a1, b0, b1) == scaled(q, 12));
    }
}

} // verus!
