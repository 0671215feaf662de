//! Where the lines of a text break, and where its glyphs stand.
use vstd::prelude::*;
use crate::affine::{greater, unit};
use crate::arith::{cut, pow10, pow10_adds, product, sum};
use crate::canvas::{ItemModel, MatrixModel};
use crate::exact::{at_forty, below_is_less, more_places_value, negated_value, products_are_cut, products_are_exact, scaled_value, sums_are_exact, whole_value};
use crate::number::RealModel;
use crate::page_text::{breaks, glyph_rect, height_of, known_glyph, last_known, tenths, text_of_items, unsigned};

verus! {

pub open spec fn larger(a: int, b: int) -> int {
    if a < b {
        b
    } else {
        a
    }
}

pub open spec fn magnitude(a: int) -> int {
    if a < 0 {
        -a
    } else {
        a
    }
}

/// The height of a glyph with `p` digits behind its point: that of its transform, and no less than
/// one.
pub open spec fn height_at(m: MatrixModel, p: nat) -> int {
    larger(magnitude(m.d.at_places(p)), pow10(p) as int)
}

/// How far the baselines of two glyphs are apart.
pub open spec fn apart_at(a: MatrixModel, b: MatrixModel, p: nat) -> int {
    magnitude(a.f.at_places(p) - b.f.at_places(p))
}

proof fn unsigned_value(r: RealModel, p: nat)
    requires
        p >= r.places(),
    ensures
        unsigned(r).places() == r.places(),
        unsigned(r).at_places(p) == magnitude(r.at_places(p)),
{
    negated_value(r, p);
    pow10_adds((p - r.places()) as nat, 0);
    let n = crate::decimal::digits_value(r.whole + r.frac) as int;
    let t = pow10((p - r.places()) as nat) as int;
    assert(n * t >= 0) by (nonlinear_arith)
        requires
            n >= 0,
            t >= 0,
    ;
    assert((-n) * t == -(n * t)) by (nonlinear_arith);
}

proof fn height_value(m: MatrixModel, p: nat)
    requires
        p >= m.d.places(),
    ensures
        height_of(m).places() <= m.d.places(),
        height_of(m).at_places(p) == height_at(m, p),
        height_at(m, p) > 0,
{
    unsigned_value(m.d, p);
    whole_value(1, p);
    pow10_adds(p, 0);
    below_is_less(unsigned(m.d), unit(), p);
}

proof fn larger_height_value(a: MatrixModel, b: MatrixModel, p: nat)
    requires
        p >= a.d.places(),
        p >= b.d.places(),
    ensures
        greater(height_of(a), height_of(b)).places() <= p,
        greater(height_of(a), height_of(b)).at_places(p) == larger(height_at(a, p), height_at(b, p)),
{
    height_value(a, p);
    height_value(b, p);
    below_is_less(height_of(a), height_of(b), p);
}

proof fn apart_value(a: MatrixModel, b: MatrixModel, p: nat)
    requires
        p >= a.f.places(),
        p >= b.f.places(),
    ensures
        unsigned(sum(b.f, a.f.negated())).places() <= p,
        unsigned(sum(b.f, a.f.negated())).at_places(p) == apart_at(a, b, p),
{
    negated_value(a.f, p);
    sums_are_exact(b.f, a.f.negated(), p);
    unsigned_value(sum(b.f, a.f.negated()), p);
}

/// What a break depends on.
proof fn breaks_value(a: MatrixModel, b: MatrixModel, p: nat)
    requires
        p >= a.d.places(),
        p >= b.d.places(),
        p >= a.f.places(),
        p >= b.f.places(),
    ensures
        breaks(a, b) <==> at_forty(5 * larger(height_at(a, p), height_at(b, p)), p + 1) * pow10(p)
            < apart_at(a, b, p) * pow10(40),
{
    larger_height_value(a, b, p);
    apart_value(a, b, p);
    let h = greater(height_of(a), height_of(b));
    let d = unsigned(sum(b.f, a.f.negated()));
    scaled_value(5, 1, 1);
    assert(pow10(0) == 1);
    products_are_cut(h, tenths(5), p, 1, p);
    let n = larger(height_at(a, p), height_at(b, p));
    assert(n * 5 == 5 * n);
    below_is_less(product(h, tenths(5)), d, 40 + p);
    more_places_value(d, p, 40 + p);
    assert((40 + p - p) as nat == 40);
}

/// Whether a line breaks between two glyphs does not depend on which of them is first.
pub proof fn break_has_no_direction(a: MatrixModel, b: MatrixModel)
    ensures
        breaks(a, b) == breaks(b, a),
{
    let p = a.d.places() + b.d.places() + a.f.places() + b.f.places();
    breaks_value(a, b, p);
    breaks_value(b, a, p);
}

/// A line breaks between two glyphs whose baselines are more than half the larger height apart,
/// up or down. It does not where they are no farther apart than that and the heights have no more
/// than 39 digits behind the point, so that half of them can be told exactly.
pub proof fn line_breaks_beyond_half_the_height(a: MatrixModel, b: MatrixModel, p: nat)
    requires
        p >= a.d.places(),
        p >= b.d.places(),
        p >= a.f.places(),
        p >= b.f.places(),
    ensures
        2 * apart_at(a, b, p) > larger(height_at(a, p), height_at(b, p)) ==> breaks(a, b),
        2 * apart_at(a, b, p) <= larger(height_at(a, p), height_at(b, p)) && a.d.places() <= 39
            && b.d.places() <= 39 ==> !breaks(a, b),
{
    breaks_value(a, b, p);
    let h = larger(height_at(a, p), height_at(b, p));
    height_value(a, p);
    let gap = apart_at(a, b, p);
    let t = pow10(p) as int;
    let f = pow10(40) as int;
    pow10_adds(p, 0);
    pow10_adds(40, 0);
    if 2 * gap > h {
        half_at_forty(h, p);
        let x = at_forty(5 * h, p + 1);
        assert(2 * (x * t) <= h * f);
        assert(h * f < (2 * gap) * f) by (nonlinear_arith)
            requires
                h < 2 * gap,
                f > 0,
        ;
        assert((2 * gap) * f == 2 * (gap * f)) by (nonlinear_arith);
    }
    if 2 * gap <= h && a.d.places() <= 39 && b.d.places() <= 39 {
        larger_height_value(a, b, p);
        apart_value(a, b, p);
        let hr = greater(height_of(a), height_of(b));
        let d = unsigned(sum(b.f, a.f.negated()));
        height_value(a, a.d.places());
        height_value(b, b.d.places());
        scaled_value(5, 1, 1);
        assert(pow10(0) == 1);
        products_are_exact(hr, tenths(5), p, 1);
        below_is_less(product(hr, tenths(5)), d, p + 1);
        more_places_value(d, p, p + 1);
        assert(pow10(1) == 10) by {
            reveal_with_fuel(pow10, 2);
        }
        assert((p + 1 - p) as nat == 1);
        assert(d.at_places(p + 1) == gap * 10);
        assert(tenths(5).at_places(1) == 5);
        assert(product(hr, tenths(5)).at_places(p + 1) == h * 5);
        assert(product(hr, tenths(5)).places() <= p + 1);
    }
}

/// Half of a number, cut off after forty digits, is no more than half of it.
proof fn half_at_forty(h: int, p: nat)
    requires
        h > 0,
    ensures
        2 * (at_forty(5 * h, p + 1) * pow10(p)) <= h * pow10(40),
{
    let t = pow10(p) as int;
    let x = at_forty(5 * h, p + 1);
    if p + 1 <= 40 {
        let k = (39 - p) as nat;
        assert((40 - (p + 1)) as nat == k);
        pow10_adds(k, p);
        assert(k + p == 39);
        let s = pow10(k) as int;
        assert(2 * (((5 * h) * s) * t) == h * (10 * (s * t))) by (nonlinear_arith);
        assert(pow10(40) == 10 * pow10(39));
    } else {
        let k = (p + 1 - 40) as nat;
        pow10_adds(k, 0);
        let s = pow10(k) as int;
        assert(x == (5 * h) / s);
        vstd::arithmetic::div_mod::lemma_fundamental_div_mod(5 * h, s);
        vstd::arithmetic::div_mod::lemma_mod_bound(5 * h, s);
        assert(s * x <= 5 * h);
        pow10_adds(k, 39);
        assert(k + 39 == p);
        let c = pow10(39) as int;
        pow10_adds(39, 0);
        assert(pow10(40) == 10 * pow10(39));
        assert(t == s * c);
        assert(2 * (x * (s * c)) == (2 * c) * (s * x)) by (nonlinear_arith);
        assert((2 * c) * (s * x) <= (2 * c) * (5 * h)) by (nonlinear_arith)
            requires
                s * x <= 5 * h,
                c > 0,
        ;
        assert((2 * c) * (5 * h) == h * (10 * c)) by (nonlinear_arith);
    }
}

/// Glyphs with one baseline stand on one line.
pub proof fn same_baseline_is_one_line(a: MatrixModel, b: MatrixModel)
    requires
        a.f == b.f,
    ensures
        !breaks(a, b),
{
    let p = a.d.places() + b.d.places() + a.f.places() + b.f.places();
    breaks_value(a, b, p);
    height_value(a, p);
    let n = larger(height_at(a, p), height_at(b, p));
    let x = at_forty(5 * n, p + 1);
    let t = pow10(p) as int;
    pow10_adds(p, 0);
    assert(x >= 0) by {
        if p + 1 <= 40 {
            let s = pow10((40 - (p + 1)) as nat) as int;
            assert((5 * n) * s >= 0) by (nonlinear_arith)
                requires
                    n >= 0,
                    s >= 0,
            ;
        } else {
            let s = pow10((p + 1 - 40) as nat);
            pow10_adds((p + 1 - 40) as nat, 0);
            vstd::arithmetic::div_mod::lemma_div_pos_is_pos(5 * n, s as int);
        }
    }
    assert(x * t >= 0) by (nonlinear_arith)
        requires
            x >= 0,
            t >= 0,
    ;
    assert(0 * pow10(40) == 0);
}

/// A glyph adds its character to the text, behind a break of lines where its baseline is more than
/// half the height from that of the glyph before it, and behind nothing where both have one
/// baseline.
pub proof fn glyph_adds_its_character(items: Seq<ItemModel>, n: nat, c: char, m: MatrixModel, p: nat)
    requires
        n < items.len(),
        known_glyph(items[n as int]) == Some((c, m)),
    ensures
        last_known(items, n) is None ==> text_of_items(items, n + 1).chars == text_of_items(items, n).chars.push(c),
        last_known(items, n) is Some && last_known(items, n)->0.f == m.f ==> text_of_items(
            items,
            n + 1,
        ).chars == text_of_items(items, n).chars.push(c),
        last_known(items, n) is Some && ({
            let l = last_known(items, n)->0;
            &&& p >= l.d.places()
            &&& p >= m.d.places()
            &&& p >= l.f.places()
            &&& p >= m.f.places()
            &&& 2 * apart_at(l, m, p) > larger(height_at(l, p), height_at(m, p))
        }) ==> text_of_items(items, n + 1).chars == text_of_items(items, n).chars.push('\n').push(c),
{
    if let Some(l) = last_known(items, n) {
        if l.f == m.f {
            same_baseline_is_one_line(l, m);
        }
        if p >= l.d.places() && p >= m.d.places() && p >= l.f.places() && p >= m.f.places() {
            line_breaks_beyond_half_the_height(l, m, p);
        }
    }
}

/// The rectangle of a glyph starts where the glyph stands; it is six tenths of the height wide and
/// eight tenths high.
pub proof fn rectangle_of_a_glyph(m: MatrixModel, p: nat)
    requires
        p >= m.d.places(),
        p >= m.e.places(),
        p >= m.f.places(),
        m.d.places() <= 39,
    ensures
        glyph_rect(m).x0 == m.e,
        glyph_rect(m).y0 == m.f,
        glyph_rect(m).x1.at_places(p + 1) - glyph_rect(m).x0.at_places(p + 1) == 6 * height_at(m, p),
        glyph_rect(m).y1.at_places(p + 1) - glyph_rect(m).y0.at_places(p + 1) == 8 * height_at(m, p),
{
    height_value(m, p);
    scaled_value(6, 1, 1);
    scaled_value(8, 1, 1);
    assert(pow10(0) == 1);
    products_are_exact(height_of(m), tenths(6), p, 1);
    products_are_exact(height_of(m), tenths(8), p, 1);
    sums_are_exact(m.e, product(height_of(m), tenths(6)), p + 1);
    sums_are_exact(m.f, product(height_of(m), tenths(8)), p + 1);
}

} // verus!
