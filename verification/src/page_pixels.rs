//! How a page is laid on pixels, and with which colors.
use vstd::prelude::*;
use crate::affine::{composed, greater, moved_point, nil, unit};
use crate::arith::{below, pow10, pow10_adds, product, sum, value_bound, value_split};
use crate::canvas::ColorModel;
use crate::decimal::{all_digits, digits_value, padded_value};
use crate::display::{premultiplied, quarter_turn};
use crate::exact::{below_is_less, more_places_value, negated_value, products_are_exact, scaled_value, sums_are_exact, whole_value};
use crate::geometry::{device_of, flip, held_to_one, least_scale, pixel_size, pixels, rgb_of, turn_matrix, upright_size};
use crate::number::{real_of_int, real_of_wf, saturate_i64, scaled, RealModel};
use crate::transforms::{composed_is_one_behind_the_other, point_is_moved, short};

verus! {

/// The whole part of a number that is not negative is the largest whole number that is not above
/// it.
proof fn whole_part(r: RealModel, p: nat)
    requires
        r.wf(),
        r.places() <= p,
        r.at_places(p) >= 0,
    ensures
        r.truncated() >= 0,
        r.truncated() * pow10(p) <= r.at_places(p) < (r.truncated() + 1) * pow10(p),
{
    let w = digits_value(r.whole) as int;
    let f = digits_value(r.frac) as int;
    value_split(r.whole + r.frac, r.whole.len() as int);
    assert((r.whole + r.frac).take(r.whole.len() as int) =~= r.whole);
    assert((r.whole + r.frac).skip(r.whole.len() as int) =~= r.frac);
    value_bound(r.frac);
    let k = r.places();
    let t = pow10(k) as int;
    let e = pow10((p - k) as nat) as int;
    pow10_adds(k, (p - k) as nat);
    pow10_adds((p - k) as nat, 0);
    assert(k + (p - k) as nat == p);
    let n = w * t + f;
    assert(n >= 0) by (nonlinear_arith)
        requires
            n == w * t + f,
            w >= 0,
            t > 0,
            f >= 0,
    ;
    assert(n * e >= 0) by (nonlinear_arith)
        requires
            n >= 0,
            e > 0,
    ;
    assert((-n) * e == -(n * e)) by (nonlinear_arith);
    if r.negative {
        assert(n * e == 0);
        assert(n == 0) by (nonlinear_arith)
            requires
                n * e == 0,
                e > 0,
        ;
        assert(w == 0) by (nonlinear_arith)
            requires
                w * t + f == 0,
                w >= 0,
                t > 0,
                f >= 0,
        ;
    }
    assert(w * (t * e) <= n * e < (w + 1) * (t * e)) by (nonlinear_arith)
        requires
            n == w * t + f,
            0 <= f < t,
            e > 0,
    ;
}

proof fn sum_wf(a: RealModel, b: RealModel)
    ensures
        sum(a, b).wf(),
{
    reveal(sum);
    let p = crate::arith::more_places(a, b);
    let n = a.at_places(p) + b.at_places(p);
    let m = if n < 0 {
        (-n) as nat
    } else {
        n as nat
    };
    padded_value(m, p);
    let d = crate::decimal::padded(m, p);
    assert(all_digits(d.take(d.len() - p)));
    assert(all_digits(d.skip(d.len() - p)));
    real_of_wf(n < 0, d.take(d.len() - p), d.skip(d.len() - p));
}

/// A length in pixels is the nearest whole number, where that is at least one and can be held.
pub proof fn pixels_are_nearest(length: RealModel, p: nat)
    requires
        length.places() <= p,
        length.at_places(p) >= pow10(p),
        length.at_places(p) < u32::MAX * pow10(p),
    ensures
        -(pow10(p) as int) <= 2 * (pixels(length) * pow10(p) - length.at_places(p)) <= pow10(p),
{
    let half = scaled(5, 1);
    let q = p + 1;
    scaled_value(5, 1, q);
    assert((q - 1) as nat == p);
    sums_are_exact(length, half, q);
    more_places_value(length, p, q);
    assert(pow10((q - p) as nat) == 10) by {
        reveal_with_fuel(pow10, 2);
    }
    let s = sum(length, half);
    sum_wf(length, half);
    let l = length.at_places(p);
    let t = pow10(p) as int;
    pow10_adds(p, 0);
    assert(s.at_places(q) == 10 * l + 5 * t);
    whole_part(s, q);
    let n = s.truncated();
    assert(pow10(q) == 10 * t);
    assert(n * (10 * t) == 10 * (n * t)) by (nonlinear_arith);
    assert((n + 1) * (10 * t) == 10 * (n * t) + 10 * t) by (nonlinear_arith);
    assert(1 <= n <= u32::MAX) by (nonlinear_arith)
        requires
            10 * (n * t) <= 10 * l + 5 * t < 10 * (n * t) + 10 * t,
            t <= l,
            l < u32::MAX * t,
            t > 0,
    ;
    assert(saturate_i64(n) == n);
    assert(pixels(length) == n);
}

/// A scale is held to a hundredth at least.
proof fn scale_value(scale: RealModel, p: nat)
    requires
        p >= 2,
        scale.places() <= p,
    ensures
        least_scale(scale).places() <= p,
        least_scale(scale).at_places(p) == if scale.at_places(p) < pow10((p - 2) as nat) {
            pow10((p - 2) as nat) as int
        } else {
            scale.at_places(p)
        },
{
    scaled_value(1, 2, p);
    below_is_less(scale, scaled(1, 2), p);
}

/// The places of a box in numbers: left, bottom, right and top.
proof fn flip_value(x: int, top: int, s: RealModel, px: RealModel, py: RealModel, p: nat)
    requires
        s.places() <= p,
        px.places() <= p,
        py.places() <= p,
        3 * p <= 40,
    ensures
        short(flip(real_of_int(x), real_of_int(top), s), p),
        ({
            let at = moved_point(flip(real_of_int(x), real_of_int(top), s), px, py);
            let k = s.at_places(p);
            let t = pow10(p);
            &&& at.0.places() <= 2 * p
            &&& at.1.places() <= 2 * p
            &&& at.0.at_places(2 * p) == k * (px.at_places(p) - x * t)
            &&& at.1.at_places(2 * p) == k * (top * t - py.at_places(p))
        }),
{
    let t = pow10(p) as int;
    let k = s.at_places(p);
    let m = flip(real_of_int(x), real_of_int(top), s);
    whole_value(x, 0);
    whole_value(top, 0);
    whole_value(0, p);
    assert(pow10(0) == 1);
    negated_value(real_of_int(x), 0);
    negated_value(s, p);
    products_are_exact(real_of_int(x).negated(), s, 0, p);
    products_are_exact(real_of_int(top), s, 0, p);
    products_are_exact(real_of_int(x).negated(), s, 0, s.places());
    assert(0 + p == p);
    assert(m.e.at_places(p) == (-x) * k);
    assert(m.f.at_places(p) == top * k);
    point_is_moved(m, px, py, p, p);
    assert(p + p == 2 * p);
    let u = px.at_places(p);
    let v = py.at_places(p);
    assert(0 * v == 0 && 0 * u == 0 && 0 * t == 0);
    assert(k * u + 0 * v + ((-x) * k) * t == k * (u - x * t)) by (nonlinear_arith);
    assert(0 * u + (-k) * v + (top * k) * t == k * (top * t - v)) by (nonlinear_arith);
}

/// The width and the height of an upright page.
proof fn upright_value(bounds: Seq<i64>, scale: RealModel, p: nat)
    requires
        bounds.len() == 4,
        p >= 2,
        scale.places() <= p,
        p <= 40,
    ensures
        upright_size(bounds, scale).0.places() <= p,
        upright_size(bounds, scale).1.places() <= p,
        upright_size(bounds, scale).0.at_places(p) == (bounds[2] - bounds[0]) * least_scale(
            scale,
        ).at_places(p),
        upright_size(bounds, scale).1.at_places(p) == (bounds[3] - bounds[1]) * least_scale(
            scale,
        ).at_places(p),
{
    scale_value(scale, p);
    whole_value(bounds[2] - bounds[0], 0);
    whole_value(bounds[3] - bounds[1], 0);
    assert(pow10(0) == 1);
    products_are_exact(real_of_int(bounds[2] - bounds[0]), least_scale(scale), 0, p);
    products_are_exact(real_of_int(bounds[3] - bounds[1]), least_scale(scale), 0, p);
    assert(0 + p == p);
}

proof fn turn_value(turn: int, w: RealModel, h: RealModel, x: RealModel, y: RealModel, p: nat)
    requires
        w.places() <= p,
        h.places() <= p,
        x.places() <= 2 * p,
        y.places() <= 2 * p,
        3 * p <= 40,
    ensures
        short(turn_matrix(turn, w, h), p),
        ({
            let at = moved_point(turn_matrix(turn, w, h), x, y);
            let t = pow10(p) as int;
            let u = x.at_places(2 * p);
            let v = y.at_places(2 * p);
            let tt = pow10(2 * p) as int;
            let wide = w.at_places(p);
            let high = h.at_places(p);
            &&& turn == 90 ==> at.0.at_places(3 * p) == high * tt - t * v && at.1.at_places(3 * p) == t * u
            &&& turn == 180 ==> at.0.at_places(3 * p) == wide * tt - t * u && at.1.at_places(3 * p)
                == high * tt - t * v
            &&& turn == 270 ==> at.0.at_places(3 * p) == t * v && at.1.at_places(3 * p) == wide * tt - t
                * u
            &&& turn == 0 ==> at.0.at_places(3 * p) == t * u && at.1.at_places(3 * p) == t * v
        }),
{
    whole_value(0, p);
    whole_value(1, p);
    whole_value(-1, p);
    let m = turn_matrix(turn, w, h);
    point_is_moved(m, x, y, p, 2 * p);
    assert(p + 2 * p == 3 * p);
    let t = pow10(p) as int;
    let tt = pow10(2 * p) as int;
    let u = x.at_places(2 * p);
    let v = y.at_places(2 * p);
    assert(0 * t == 0 && 1 * t == t && (-1) * t == -t);
    assert((-t) * u == -(t * u)) by (nonlinear_arith);
    assert((-t) * v == -(t * v)) by (nonlinear_arith);
    assert(0 * u == 0 && 0 * v == 0 && 0 * tt == 0);
}

/// A point of a page goes to its pixel: the distance from the left edge counts to the right and
/// the one from the top edge down, both at the scale. A page that is turned by a quarter has its
/// bottom edge to the left and its left edge at the top, and so on around.
pub proof fn page_is_laid_on_pixels(
    bounds: Seq<i64>,
    rotate: int,
    scale: RealModel,
    x: RealModel,
    y: RealModel,
    p: nat,
)
    requires
        bounds.len() == 4,
        2 <= p,
        3 * p <= 40,
        scale.places() <= p,
        x.places() <= p,
        y.places() <= p,
    ensures
        ({
            let at = moved_point(device_of(bounds, rotate, scale), x, y);
            let t = pow10(p) as int;
            let k = least_scale(scale).at_places(p);
            let from_left = x.at_places(p) - bounds[0] * t;
            let from_bottom = y.at_places(p) - bounds[1] * t;
            let from_right = bounds[2] * t - x.at_places(p);
            let from_top = bounds[3] * t - y.at_places(p);
            let turn = quarter_turn(rotate);
            &&& turn == 0 ==> at.0.at_places(3 * p) == t * (k * from_left) && at.1.at_places(3 * p) == t
                * (k * from_top)
            &&& turn == 90 ==> at.0.at_places(3 * p) == t * (k * from_bottom) && at.1.at_places(3 * p)
                == t * (k * from_left)
            &&& turn == 180 ==> at.0.at_places(3 * p) == t * (k * from_right) && at.1.at_places(3 * p)
                == t * (k * from_bottom)
            &&& turn == 270 ==> at.0.at_places(3 * p) == t * (k * from_top) && at.1.at_places(3 * p)
                == t * (k * from_right)
        }),
{
    let s = least_scale(scale);
    scale_value(scale, p);
    upright_value(bounds, scale, p);
    let (w, h) = upright_size(bounds, scale);
    let left = bounds[0] as int;
    let top = bounds[3] as int;
    flip_value(left, top, s, x, y, p);
    let m = flip(real_of_int(left), real_of_int(top), s);
    let first = moved_point(m, x, y);
    let turn = quarter_turn(rotate);
    turn_value(turn, w, h, first.0, first.1, p);
    let n = turn_matrix(turn, w, h);
    composed_is_one_behind_the_other(m, n, x, y, p);
    assert(device_of(bounds, rotate, scale) == composed(m, n));
    let t = pow10(p) as int;
    pow10_adds(p, p);
    assert(p + p == 2 * p);
    let tt = pow10(2 * p) as int;
    let k = s.at_places(p);
    let u = x.at_places(p);
    let v = y.at_places(p);
    let x0 = bounds[0] as int;
    let y0 = bounds[1] as int;
    let x1 = bounds[2] as int;
    let y1 = bounds[3] as int;
    assert(((x1 - x0) * k) * (t * t) - t * (k * (u - x0 * t)) == t * (k * (x1 * t - u))) by {
        assert(((x1 - x0) * k) * (t * t) == t * (k * ((x1 - x0) * t))) by (nonlinear_arith);
        assert((x1 - x0) * t == x1 * t - x0 * t) by (nonlinear_arith);
        assert(t * (k * (x1 * t - x0 * t)) - t * (k * (u - x0 * t)) == t * (k * (x1 * t - u)))
            by (nonlinear_arith);
    }
    assert(((y1 - y0) * k) * (t * t) - t * (k * (y1 * t - v)) == t * (k * (v - y0 * t))) by {
        assert(((y1 - y0) * k) * (t * t) == t * (k * ((y1 - y0) * t))) by (nonlinear_arith);
        assert((y1 - y0) * t == y1 * t - y0 * t) by (nonlinear_arith);
        assert(t * (k * (y1 * t - y0 * t)) - t * (k * (y1 * t - v)) == t * (k * (v - y0 * t)))
            by (nonlinear_arith);
    }
}

/// A page turned by a half has the size that it has upright, and one turned by a quarter has its
/// width for its height.
pub proof fn size_turns_with_the_page(bounds: Seq<i64>, rotate: int, scale: RealModel)
    ensures
        pixel_size(bounds, rotate + 180, scale) == pixel_size(bounds, rotate, scale),
        rotate % 90 == 0 ==> pixel_size(bounds, rotate + 90, scale).0 == pixel_size(
            bounds,
            rotate,
            scale,
        ).1,
        rotate % 90 == 0 ==> pixel_size(bounds, rotate + 90, scale).1 == pixel_size(
            bounds,
            rotate,
            scale,
        ).0,
        pixel_size(bounds, 0, scale) == (
            pixels(product(real_of_int(bounds[2] - bounds[0]), least_scale(scale))),
            pixels(product(real_of_int(bounds[3] - bounds[1]), least_scale(scale))),
        ),
{
}

/// A turn is taken to the nearest quarter, and a quarter more turns it by one more.
pub proof fn turns_add_up(rotate: int)
    ensures
        quarter_turn(rotate) % 90 == 0,
        0 <= quarter_turn(rotate) < 360,
        quarter_turn(rotate + 90) == (quarter_turn(rotate) + 90) % 360,
        exists|n: int| -45 <= rotate - quarter_turn(rotate) - #[trigger] (360 * n) <= 45,
{
    let n = if rotate % 360 >= 315 {
        rotate / 360 + 1
    } else {
        rotate / 360
    };
    assert(-45 <= rotate - quarter_turn(rotate) - 360 * n <= 45);
}

/// A number from zero to one stays; what is below is zero, what is above is one.
pub proof fn held_between_zero_and_one(r: RealModel, p: nat)
    requires
        r.places() <= p,
    ensures
        r.at_places(p) < 0 ==> held_to_one(r) == nil(),
        r.at_places(p) > pow10(p) ==> held_to_one(r) == unit(),
        0 <= r.at_places(p) <= pow10(p) ==> held_to_one(r) == r,
{
    whole_value(0, p);
    whole_value(1, p);
    pow10_adds(p, 0);
    assert(0 * pow10(p) == 0);
    below_is_less(r, nil(), p);
    let g = greater(r, nil());
    below_is_less(unit(), g, p);
}

/// Numbers from zero to one are the light of a color as they stand: each of red, green and blue
/// its own, gray all three.
pub proof fn light_is_its_color(r: RealModel, g: RealModel, b: RealModel, p: nat)
    requires
        r.places() <= p,
        g.places() <= p,
        b.places() <= p,
        0 <= r.at_places(p) <= pow10(p),
        0 <= g.at_places(p) <= pow10(p),
        0 <= b.at_places(p) <= pow10(p),
    ensures
        rgb_of(ColorModel::Rgb(r, g, b)) == (r, g, b),
        rgb_of(ColorModel::Gray(g)) == (g, g, g),
{
    held_between_zero_and_one(r, p);
    held_between_zero_and_one(g, p);
    held_between_zero_and_one(b, p);
}

proof fn ink_value(ink: RealModel, black: RealModel, p: nat)
    requires
        ink.places() <= p,
        black.places() <= p,
        2 * p <= 40,
        0 <= ink.at_places(p) <= pow10(p),
        0 <= black.at_places(p) <= pow10(p),
    ensures
        ({
            let left = held_to_one(crate::geometry::without_ink(ink, black));
            left.at_places(2 * p) == (pow10(p) - ink.at_places(p)) * (pow10(p) - black.at_places(p))
        }),
{
    whole_value(1, p);
    negated_value(ink, p);
    negated_value(black, p);
    sums_are_exact(unit(), ink.negated(), p);
    sums_are_exact(unit(), black.negated(), p);
    let a = sum(unit(), ink.negated());
    let b = sum(unit(), black.negated());
    products_are_exact(a, b, p, p);
    assert(p + p == 2 * p);
    pow10_adds(p, p);
    let t = pow10(p) as int;
    let x = t - ink.at_places(p);
    let y = t - black.at_places(p);
    assert(0 <= x * y <= t * t) by (nonlinear_arith)
        requires
            0 <= x <= t,
            0 <= y <= t,
    ;
    held_between_zero_and_one(product(a, b), 2 * p);
}

/// Four inks leave of red what cyan and black leave, of green what magenta and black leave, of
/// blue what yellow and black leave.
pub proof fn inks_leave_light(c: RealModel, m: RealModel, y: RealModel, k: RealModel, p: nat)
    requires
        c.places() <= p,
        m.places() <= p,
        y.places() <= p,
        k.places() <= p,
        2 * p <= 40,
        0 <= c.at_places(p) <= pow10(p),
        0 <= m.at_places(p) <= pow10(p),
        0 <= y.at_places(p) <= pow10(p),
        0 <= k.at_places(p) <= pow10(p),
    ensures
        ({
            let light = rgb_of(ColorModel::Cmyk(c, m, y, k));
            let t = pow10(p);
            &&& light.0.at_places(2 * p) == (t - c.at_places(p)) * (t - k.at_places(p))
            &&& light.1.at_places(2 * p) == (t - m.at_places(p)) * (t - k.at_places(p))
            &&& light.2.at_places(2 * p) == (t - y.at_places(p)) * (t - k.at_places(p))
        }),
{
    ink_value(c, k, p);
    ink_value(m, k, p);
    ink_value(y, k, p);
}

/// The colors of a pixel are weakened to the part that its opacity is of 255, rounded down; the
/// opacity stays.
pub proof fn colors_are_weakened(rgba: Seq<u8>, p: int, k: int)
    requires
        0 <= p < rgba.len() / 4,
        0 <= k < 3,
    ensures
        premultiplied(rgba).len() == rgba.len(),
        premultiplied(rgba)[4 * p + 3] == rgba[4 * p + 3],
        255 * premultiplied(rgba)[4 * p + k] <= rgba[4 * p + k] * rgba[4 * p + 3] < 255 * (premultiplied(
            rgba,
        )[4 * p + k] + 1),
{
    let i = 4 * p + k;
    assert(i % 4 == k && i / 4 == p);
    let c = rgba[i];
    let a = rgba[4 * p + 3];
    assert(0 <= c * a <= 255 * 255) by (nonlinear_arith)
        requires
            0 <= c <= 255,
            0 <= a <= 255,
    ;
    assert(0 <= c * a / 255 <= 255);
    assert((4 * p + 3) % 4 == 3);
}

} // verus!
