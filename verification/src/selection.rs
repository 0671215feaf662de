//! Parts of the text of a page: the character nearest to a point, words and lines around a
//! character, and what lies between two of them.
use vstd::prelude::*;
use crate::arith::{below, below_is_strict, not_above_transitive, product, sum};
use crate::canvas::BoundsModel;
use crate::number::{real_of_int, RealModel};

verus! {

/// How far a number lies outside of the range from `lo` to `hi`.
pub open spec fn gap(lo: RealModel, hi: RealModel, x: RealModel) -> RealModel {
    if below(x, lo) {
        sum(lo, x.negated())
    } else if below(hi, x) {
        sum(x, hi.negated())
    } else {
        real_of_int(0)
    }
}

/// The square of the distance between a rectangle and a point. It is zero inside.
pub open spec fn distance(b: BoundsModel, x: RealModel, y: RealModel) -> RealModel {
    let dx = gap(b.x0, b.x1, x);
    let dy = gap(b.y0, b.y1, y);
    sum(product(dx, dx), product(dy, dy))
}

/// The first of the nearest among the first `n` rectangles.
pub open spec fn nearest(
    rects: Seq<Option<BoundsModel>>,
    n: nat,
    x: RealModel,
    y: RealModel,
) -> Option<int>
    decreases n,
{
    if n == 0 {
        None
    } else {
        let before = nearest(rects, (n - 1) as nat, x, y);
        match (rects[n - 1], before) {
            (None, _) => before,
            (Some(_), None) => Some(n - 1),
            (Some(b), Some(k)) => if below(distance(b, x, y), distance(rects[k]->0, x, y)) {
                Some(n - 1)
            } else {
                before
            },
        }
    }
}

/// Nothing of what has a place is nearer to a point than what is found there, and something is
/// found where anything has a place.
pub proof fn nothing_is_nearer(
    rects: Seq<Option<BoundsModel>>,
    n: nat,
    x: RealModel,
    y: RealModel,
    i: int,
)
    requires
        0 <= i < n <= rects.len(),
        rects[i] is Some,
    ensures
        nearest(rects, n, x, y) is Some,
        0 <= nearest(rects, n, x, y)->0 < n,
        rects[nearest(rects, n, x, y)->0] is Some,
        !below(distance(rects[i]->0, x, y), distance(rects[nearest(rects, n, x, y)->0]->0, x, y)),
    decreases n,
{
    let before = nearest(rects, (n - 1) as nat, x, y);
    nearest_has_a_place(rects, (n - 1) as nat, x, y);
    if i < n - 1 {
        nothing_is_nearer(rects, (n - 1) as nat, x, y, i);
        if rects[n - 1] is Some {
            let mine = distance(rects[i]->0, x, y);
            let old_one = distance(rects[before->0]->0, x, y);
            let new_one = distance(rects[n - 1]->0, x, y);
            if below(new_one, old_one) {
                below_is_strict(new_one, old_one);
                not_above_transitive(new_one, old_one, mine);
            }
        }
    } else {
        let mine = distance(rects[i]->0, x, y);
        below_is_strict(mine, mine);
    }
}

proof fn nearest_has_a_place(
    rects: Seq<Option<BoundsModel>>,
    n: nat,
    x: RealModel,
    y: RealModel,
)
    requires
        n <= rects.len(),
    ensures
        match nearest(rects, n, x, y) {
            Some(k) => 0 <= k < n && rects[k] is Some,
            None => true,
        },
    decreases n,
{
    if n > 0 {
        nearest_has_a_place(rects, (n - 1) as nat, x, y);
    }
}

/// Characters between words.
pub open spec fn blank(c: char) -> bool {
    c == ' ' || c == '\t' || c == '\n' || c == '\r' || c == '\u{A0}'
}

/// What parts a text: blanks its words, breaks its lines.
pub open spec fn parts(c: char, words: bool) -> bool {
    if words {
        blank(c)
    } else {
        c == '\n'
    }
}

/// Where the part of a text before `i` starts.
pub open spec fn part_start(s: Seq<char>, i: int, words: bool) -> int
    decreases i,
{
    if i <= 0 || i > s.len() || parts(s[i - 1], words) {
        i
    } else {
        part_start(s, i - 1, words)
    }
}

/// Where the part of a text from `i` on ends.
pub open spec fn part_end(s: Seq<char>, i: int, words: bool) -> int
    decreases s.len() - i,
{
    if i < 0 || i >= s.len() || parts(s[i], words) {
        i
    } else {
        part_end(s, i + 1, words)
    }
}

/// A number that does not go beyond the end of a text.
pub open spec fn within(n: int, len: nat) -> int {
    if n > len {
        len as int
    } else {
        n
    }
}

/// A word or a line around a character is in one part, and goes as far as that does on both sides.
pub proof fn part_is_whole(s: Seq<char>, i: int, words: bool)
    requires
        0 <= i <= s.len(),
    ensures
        0 <= part_start(s, i, words) <= i <= part_end(s, i, words) <= s.len(),
        forall|k: int|
            part_start(s, i, words) <= k < part_end(s, i, words) ==> !parts(#[trigger] s[k], words),
        part_start(s, i, words) > 0 ==> parts(s[part_start(s, i, words) - 1], words),
        part_end(s, i, words) < s.len() ==> parts(s[part_end(s, i, words)], words),
{
    start_is_whole(s, i, words);
    end_is_whole(s, i, words);
}

proof fn start_is_whole(s: Seq<char>, i: int, words: bool)
    requires
        0 <= i <= s.len(),
    ensures
        0 <= part_start(s, i, words) <= i,
        forall|k: int| part_start(s, i, words) <= k < i ==> !parts(#[trigger] s[k], words),
        part_start(s, i, words) > 0 ==> parts(s[part_start(s, i, words) - 1], words),
    decreases i,
{
    if i > 0 && !parts(s[i - 1], words) {
        start_is_whole(s, i - 1, words);
    }
}

proof fn end_is_whole(s: Seq<char>, i: int, words: bool)
    requires
        0 <= i <= s.len(),
    ensures
        i <= part_end(s, i, words) <= s.len(),
        forall|k: int| i <= k < part_end(s, i, words) ==> !parts(#[trigger] s[k], words),
        part_end(s, i, words) < s.len() ==> parts(s[part_end(s, i, words)], words),
    decreases s.len() - i,
{
    if i < s.len() && !parts(s[i], words) {
        end_is_whole(s, i + 1, words);
    }
}

/// The text from `start` to `end`, as far as there is any.
pub open spec fn selected(s: Seq<char>, start: int, end: int) -> Seq<char> {
    let b = within(end, s.len());
    if start < b {
        s.subrange(start, b)
    } else {
        seq![]
    }
}

/// The places from `start` to `end`, without what has none.
pub open spec fn selected_rects(rects: Seq<Option<BoundsModel>>, start: int, end: int) -> Seq<BoundsModel>
    decreases end - start,
{
    if start < 0 || start >= end || end > rects.len() {
        seq![]
    } else {
        let before = selected_rects(rects, start, end - 1);
        match rects[end - 1] {
            Some(b) => before.push(b),
            None => before,
        }
    }
}

/// Whether a character parts a text.
pub(crate) fn is_parting(c: char, words: bool) -> (r: bool)
    ensures
        r == parts(c, words),
{
    if words {
        c == ' ' || c == '\t' || c == '\n' || c == '\r' || c == '\u{A0}'
    } else {
        c == '\n'
    }
}

} // verus!
