//! What a page shows, as far as it is counted in whole numbers.
use std::borrow::Cow;
use vstd::prelude::*;

verus! {

/// Which points are inside a path.
#[derive(Debug, Clone, Copy, PartialEq, Eq, Structural)]
pub enum FillRule {
    NonZero,
    EvenOdd,
}

/// How a path is painted.
#[derive(Debug, Clone, Copy, PartialEq, Eq, Structural)]
pub enum PaintOp {
    Nothing,
    Fill,
    Stroke,
    FillStroke,
}

/// A decoded image: four bytes for each pixel, row by row from the top.
#[derive(Debug, PartialEq)]
pub struct DecodedImage {
    pub width: u32,
    pub height: u32,
    pub rgba: Vec<u8>,
}

/// A page as pixels: four bytes for each, row by row from the top.
#[derive(Debug, PartialEq)]
pub struct RenderedPage {
    pub width: u32,
    pub height: u32,
    pub rgba: Vec<u8>,
}

/// A rotation to the nearest quarter turn, from 0 to 270.
pub open spec fn quarter_turn(rotate: int) -> int {
    let r = rotate % 360;
    if r < 45 || r >= 315 {
        0
    } else if r < 135 {
        90
    } else if r < 225 {
        180
    } else {
        270
    }
}

/// A rotation to the nearest quarter turn.
pub fn normalize_rotate(rotate: i32) -> (r: i32)
    ensures
        r == quarter_turn(rotate as int),
{
    let m: i64 = rotate as i64 % 360;
    let r: i64 = if m < 0 {
        m + 360
    } else {
        m
    };
    if r < 45 || r >= 315 {
        0
    } else if r < 135 {
        90
    } else if r < 225 {
        180
    } else {
        270
    }
}

/// A quarter turn is its own nearest, and full turns count for nothing.
pub proof fn quarter_turn_is_stable(rotate: int, turns: int)
    ensures
        quarter_turn(quarter_turn(rotate)) == quarter_turn(rotate),
        quarter_turn(rotate + 360 * turns) == quarter_turn(rotate),
{
    vstd::arithmetic::div_mod::lemma_mod_multiples_vanish(turns, rotate, 360);
}

/// Every whole pixel has full opacity.
pub open spec fn opaque(rgba: Seq<u8>) -> bool {
    forall|p: int| 0 <= p < rgba.len() / 4 ==> #[trigger] rgba[4 * p + 3] == 255
}

/// A byte of a pixel with its color weakened by its opacity.
pub open spec fn premultiplied_byte(rgba: Seq<u8>, i: int) -> u8 {
    if i % 4 == 3 || i >= rgba.len() / 4 * 4 {
        rgba[i]
    } else {
        (rgba[i] * rgba[i / 4 * 4 + 3] / 255) as u8
    }
}

/// Pixels with their colors weakened by their opacity. Bytes behind the last whole pixel stay.
pub open spec fn premultiplied(rgba: Seq<u8>) -> Seq<u8> {
    Seq::new(rgba.len(), |i: int| premultiplied_byte(rgba, i))
}

/// Colors weakened by their opacity; pixels with full opacity are handed back as they are.
pub fn premultiply_if_needed(rgba: &[u8]) -> (r: Cow<'_, [u8]>)
    ensures
        match r {
            Cow::Borrowed(same) => opaque(rgba@) && same@ == rgba@,
            Cow::Owned(out) => !opaque(rgba@) && out@ == premultiplied(rgba@),
        },
{
    let len: usize = rgba.len();
    let n: usize = len / 4;
    let mut p: usize = 0;
    while p < n && rgba[4 * p + 3] == 255
        invariant
            0 <= p <= n,
            len == rgba@.len(),
            n == len / 4,
            forall|q: int| 0 <= q < p ==> #[trigger] rgba@[4 * q + 3] == 255,
        decreases n - p,
    {
        p += 1;
    }
    if p == n {
        return Cow::Borrowed(rgba);
    }
    assert(!opaque(rgba@)) by {
        assert(rgba@[4 * p + 3] != 255);
    }
    let mut out: Vec<u8> = Vec::new();
    let mut i: usize = 0;
    while i < rgba.len()
        invariant
            0 <= i <= rgba@.len(),
            n == rgba@.len() / 4,
            out@.len() == i,
            forall|j: int| 0 <= j < i ==> #[trigger] out@[j] == premultiplied_byte(rgba@, j),
        decreases rgba@.len() - i,
    {
        if i % 4 == 3 || i >= n * 4 {
            out.push(rgba[i]);
        } else {
            let a: u32 = rgba[i / 4 * 4 + 3] as u32;
            let c: u32 = rgba[i] as u32;
            assert(c * a <= 255 * 255) by (nonlinear_arith)
                requires
                    0 <= c <= 255,
                    0 <= a <= 255,
            ;
            out.push((c * a / 255) as u8);
        }
        i += 1;
    }
    assert(out@ =~= premultiplied(rgba@));
    Cow::Owned(out)
}

/// Pixels with full opacity are not changed by it.
pub proof fn opaque_is_unchanged(rgba: Seq<u8>)
    requires
        opaque(rgba),
    ensures
        premultiplied(rgba) == rgba,
{
    assert forall|i: int| 0 <= i < rgba.len() implies premultiplied_byte(rgba, i) == rgba[i] by {
        if i % 4 != 3 && i < rgba.len() / 4 * 4 {
            let p = i / 4;
            assert(0 <= p < rgba.len() / 4);
            assert(rgba[4 * p + 3] == 255);
        }
    }
    assert(premultiplied(rgba) =~= rgba);
}

} // verus!
