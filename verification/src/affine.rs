//! Transforms carried out in decimals.
use vstd::prelude::*;
use crate::arith::{below, product, quotient, sum};
use crate::canvas::{chain, Bounds, BoundsModel, DisplayList, GlyphModel, Matrix, MatrixModel, Step, StepModel, Transform};
use crate::number::{real_of_int, Real, RealModel};

verus! {

pub open spec fn nil() -> RealModel {
    real_of_int(0)
}

pub open spec fn unit() -> RealModel {
    real_of_int(1)
}

pub open spec fn identity_matrix() -> MatrixModel {
    MatrixModel { a: unit(), b: nil(), c: nil(), d: unit(), e: nil(), f: nil() }
}

pub open spec fn translation_matrix(x: RealModel, y: RealModel) -> MatrixModel {
    MatrixModel { a: unit(), b: nil(), c: nil(), d: unit(), e: x, f: y }
}

/// The transform that does `m` first and `n` behind it.
pub open spec fn composed(m: MatrixModel, n: MatrixModel) -> MatrixModel {
    MatrixModel {
        a: sum(product(m.a, n.a), product(m.b, n.c)),
        b: sum(product(m.a, n.b), product(m.b, n.d)),
        c: sum(product(m.c, n.a), product(m.d, n.c)),
        d: sum(product(m.c, n.b), product(m.d, n.d)),
        e: sum(sum(product(m.e, n.a), product(m.f, n.c)), n.e),
        f: sum(sum(product(m.e, n.b), product(m.f, n.d)), n.f),
    }
}

/// A point as a transform leaves it.
pub open spec fn moved_point(m: MatrixModel, x: RealModel, y: RealModel) -> (RealModel, RealModel) {
    (
        sum(sum(product(m.a, x), product(m.c, y)), m.e),
        sum(sum(product(m.b, x), product(m.d, y)), m.f),
    )
}

impl Matrix {
    /// Leaves every point where it is.
    pub fn identity() -> (r: Matrix)
        ensures
            r@ == identity_matrix(),
    {
        Matrix::translation(Real::from_int(0), Real::from_int(0))
    }

    pub fn new(a: Real, b: Real, c: Real, d: Real, e: Real, f: Real) -> (r: Matrix)
        ensures
            r@ == (MatrixModel { a: a@, b: b@, c: c@, d: d@, e: e@, f: f@ }),
    {
        Matrix { a, b, c, d, e, f }
    }

    /// Moves every point by as much.
    pub fn translation(tx: Real, ty: Real) -> (r: Matrix)
        ensures
            r@ == translation_matrix(tx@, ty@),
    {
        Matrix {
            a: Real::from_int(1),
            b: Real::from_int(0),
            c: Real::from_int(0),
            d: Real::from_int(1),
            e: tx,
            f: ty,
        }
    }

    /// The transform that does this one first and `other` behind it.
    pub fn followed_by(&self, other: &Matrix) -> (r: Matrix)
        ensures
            r@ == composed(self@, other@),
    {
        Matrix {
            a: self.a.times(&other.a).plus(&self.b.times(&other.c)),
            b: self.a.times(&other.b).plus(&self.b.times(&other.d)),
            c: self.c.times(&other.a).plus(&self.d.times(&other.c)),
            d: self.c.times(&other.b).plus(&self.d.times(&other.d)),
            e: self.e.times(&other.a).plus(&self.f.times(&other.c)).plus(&other.e),
            f: self.e.times(&other.b).plus(&self.f.times(&other.d)).plus(&other.f),
        }
    }

    /// A point as the transform leaves it.
    pub fn apply(&self, x: &Real, y: &Real) -> (r: (Real, Real))
        ensures
            (r.0@, r.1@) == moved_point(self@, x@, y@),
    {
        (
            self.a.times(x).plus(&self.c.times(y)).plus(&self.e),
            self.b.times(x).plus(&self.d.times(y)).plus(&self.f),
        )
    }
}

pub open spec fn lesser(a: RealModel, b: RealModel) -> RealModel {
    if below(b, a) {
        b
    } else {
        a
    }
}

pub open spec fn greater(a: RealModel, b: RealModel) -> RealModel {
    if below(a, b) {
        b
    } else {
        a
    }
}

pub fn lesser_of(a: &Real, b: &Real) -> (r: Real)
    ensures
        r@ == lesser(a@, b@),
{
    if b.is_below(a) {
        b.clone()
    } else {
        a.clone()
    }
}

pub fn greater_of(a: &Real, b: &Real) -> (r: Real)
    ensures
        r@ == greater(a@, b@),
{
    if a.is_below(b) {
        b.clone()
    } else {
        a.clone()
    }
}

/// The bounds of a box as a transform leaves it.
pub open spec fn moved_bounds(b: BoundsModel, m: MatrixModel) -> BoundsModel {
    let p = moved_point(m, b.x0, b.y0);
    let q = moved_point(m, b.x1, b.y0);
    let r = moved_point(m, b.x1, b.y1);
    let s = moved_point(m, b.x0, b.y1);
    BoundsModel {
        x0: lesser(lesser(p.0, q.0), lesser(r.0, s.0)),
        y0: lesser(lesser(p.1, q.1), lesser(r.1, s.1)),
        x1: greater(greater(p.0, q.0), greater(r.0, s.0)),
        y1: greater(greater(p.1, q.1), greater(r.1, s.1)),
    }
}

fn move_bounds(b: &Bounds, m: &Matrix) -> (r: Bounds)
    ensures
        r@ == moved_bounds(b@, m@),
{
    let p = m.apply(&b.x0, &b.y0);
    let q = m.apply(&b.x1, &b.y0);
    let s = m.apply(&b.x1, &b.y1);
    let t = m.apply(&b.x0, &b.y1);
    Bounds {
        x0: lesser_of(&lesser_of(&p.0, &q.0), &lesser_of(&s.0, &t.0)),
        y0: lesser_of(&lesser_of(&p.1, &q.1), &lesser_of(&s.1, &t.1)),
        x1: greater_of(&greater_of(&p.0, &q.0), &greater_of(&s.0, &t.0)),
        y1: greater_of(&greater_of(&p.1, &q.1), &greater_of(&s.1, &t.1)),
    }
}

/// How much larger the second of two lengths is; an empty length is left as it is.
pub open spec fn stretch(a0: RealModel, a1: RealModel, b0: RealModel, b1: RealModel) -> RealModel {
    match quotient(sum(b1, b0.negated()), sum(a1, a0.negated())) {
        Some(q) => q,
        None => unit(),
    }
}

fn stretch_of(a0: &Real, a1: &Real, b0: &Real, b1: &Real) -> (r: Real)
    ensures
        r@ == stretch(a0@, a1@, b0@, b1@),
{
    match b1.plus(&b0.negated()).over(&a1.plus(&a0.negated())) {
        Some(q) => q,
        None => Real::from_int(1),
    }
}

/// The transform that brings a box, as `m` leaves it, into a rectangle.
pub open spec fn fitting(bbox: BoundsModel, m: MatrixModel, rect: BoundsModel) -> MatrixModel {
    let b = moved_bounds(bbox, m);
    let x0 = lesser(rect.x0, rect.x1);
    let x1 = greater(rect.x0, rect.x1);
    let y0 = lesser(rect.y0, rect.y1);
    let y1 = greater(rect.y0, rect.y1);
    let sx = stretch(b.x0, b.x1, x0, x1);
    let sy = stretch(b.y0, b.y1, y0, y1);
    MatrixModel {
        a: sx,
        b: nil(),
        c: nil(),
        d: sy,
        e: sum(x0, product(b.x0, sx).negated()),
        f: sum(y0, product(b.y0, sy).negated()),
    }
}

fn fit(bbox: &Bounds, m: &Matrix, rect: &Bounds) -> (r: Matrix)
    ensures
        r@ == fitting(bbox@, m@, rect@),
{
    let b = move_bounds(bbox, m);
    let x0 = lesser_of(&rect.x0, &rect.x1);
    let x1 = greater_of(&rect.x0, &rect.x1);
    let y0 = lesser_of(&rect.y0, &rect.y1);
    let y1 = greater_of(&rect.y0, &rect.y1);
    let sx = stretch_of(&b.x0, &b.x1, &x0, &x1);
    let sy = stretch_of(&b.y0, &b.y1, &y0, &y1);
    let e = x0.plus(&b.x0.times(&sx).negated());
    let f = y0.plus(&b.y0.times(&sy).negated());
    Matrix { a: sx, b: Real::from_int(0), c: Real::from_int(0), d: sy, e, f }
}

/// A step as a matrix.
pub open spec fn step_matrix(s: StepModel) -> MatrixModel {
    match s {
        StepModel::Matrix(m) => m,
        StepModel::Fit(bbox, m, rect) => fitting(bbox, m, rect),
        StepModel::Shift(x, y) => translation_matrix(x, y),
        StepModel::Adjust(by, size, scale) => translation_matrix(
            product(product(by.negated().shifted(3), size), scale.shifted(2)),
            nil(),
        ),
        StepModel::Advance(width, size, spacing, word, scale) => translation_matrix(
            product(sum(sum(product(width.shifted(3), size), spacing), word), scale.shifted(2)),
            nil(),
        ),
    }
}

fn matrix_of(s: &Step) -> (r: Matrix)
    ensures
        r@ == step_matrix(s@),
{
    match s {
        Step::Matrix(m) => m.clone(),
        Step::Fit { bbox, matrix, rect } => fit(bbox, matrix, rect),
        Step::Shift { right, up } => Matrix::translation(right.clone(), up.clone()),
        Step::Adjust { by, size, scale } => Matrix::translation(
            by.negated().moved(3).times(size).times(&scale.moved(2)),
            Real::from_int(0),
        ),
        Step::Advance { width, size, spacing, word, scale } => Matrix::translation(
            width.moved(3).times(size).plus(spacing).plus(word).times(&scale.moved(2)),
            Real::from_int(0),
        ),
    }
}

/// A transform as a matrix: its last step is done first.
pub open spec fn transform_matrix(t: Transform) -> MatrixModel
    decreases t.len(),
{
    if t.len() == 0 {
        identity_matrix()
    } else {
        composed(step_matrix(t.last()), transform_matrix(t.drop_last()))
    }
}

/// The matrices of all transforms of a display list: that of the `k`-th node at `k`.
pub fn matrices(display: &DisplayList) -> (r: Vec<Matrix>)
    requires
        display.wf(),
    ensures
        r@.len() == display.steps@.len() + 1,
        forall|k: int|
            0 <= k < r@.len() ==> (#[trigger] r@[k])@ == transform_matrix(chain(display.steps@, k)),
{
    let ghost steps = display.steps@;
    let mut r: Vec<Matrix> = Vec::new();
    r.push(Matrix::identity());
    let mut k: usize = 0;
    while k < display.steps.len()
        invariant
            0 <= k <= display.steps@.len(),
            steps == display.steps@,
            display.wf(),
            r@.len() == k + 1,
            forall|j: int|
                0 <= j <= k ==> (#[trigger] r@[j])@ == transform_matrix(chain(steps, j)),
        decreases display.steps@.len() - k,
    {
        let node = &display.steps[k];
        assert(steps[k as int].below <= k);
        let m = matrix_of(&node.step).followed_by(&r[node.below]);
        proof {
            let t = chain(steps, k + 1);
            let rest = chain(steps, node.below as int);
            assert(t == rest.push(node.step@));
            assert(t.drop_last() =~= rest);
            assert(t.last() == node.step@);
        }
        r.push(m);
        k += 1;
    }
    r
}

/// The transform of a glyph: from its font, whose size is one, to the page.
pub open spec fn glyph_matrix(g: GlyphModel) -> MatrixModel {
    composed(
        composed(
            MatrixModel {
                a: product(g.size, g.scale.shifted(2)),
                b: nil(),
                c: nil(),
                d: g.size,
                e: nil(),
                f: g.rise,
            },
            transform_matrix(g.text),
        ),
        transform_matrix(g.ctm),
    )
}

/// The transform of a glyph, from the matrices of its text and of the page.
pub fn place_glyph(size: &Real, scale: &Real, rise: &Real, text: &Matrix, ctm: &Matrix) -> (r: Matrix)
    ensures
        r@ == composed(
            composed(
                MatrixModel {
                    a: product(size@, scale@.shifted(2)),
                    b: nil(),
                    c: nil(),
                    d: size@,
                    e: nil(),
                    f: rise@,
                },
                text@,
            ),
            ctm@,
        ),
{
    let own = Matrix {
        a: size.times(&scale.moved(2)),
        b: Real::from_int(0),
        c: Real::from_int(0),
        d: size.clone(),
        e: Real::from_int(0),
        f: rise.clone(),
    };
    own.followed_by(text).followed_by(ctm)
}

} // verus!
