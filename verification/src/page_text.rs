//! The text of a page, from glyphs in the order in which they are shown.
//!
//! A break of lines is put in where the baseline moves by more than half the height of the larger
//! of two glyphs.
use vstd::prelude::*;
use crate::affine::{glyph_matrix, greater, greater_of, lesser, lesser_of, matrices, place_glyph, unit};
use crate::arith::{below, below_is_strict, not_above_transitive, product, sum};
use crate::canvas::{chain, item_model, Bounds, BoundsModel, DisplayItem, DisplayList, ItemModel, Matrix, MatrixModel};
use crate::number::{scaled, Real, RealModel};
use crate::selection::{distance, gap, is_parting, nearest, part_end, part_start, selected, selected_rects, within};

verus! {

/// The rectangle of a glyph on a page.
pub type GlyphRect = Bounds;

/// A text with the place of each character. A break of lines has no place.
pub struct PageText {
    chars: Vec<char>,
    rects: Vec<Option<GlyphRect>>,
}

pub ghost struct TextModel {
    pub chars: Seq<char>,
    pub rects: Seq<Option<BoundsModel>>,
}

pub open spec fn rect_model(r: Option<GlyphRect>) -> Option<BoundsModel> {
    match r {
        Some(b) => Some(b@),
        None => None,
    }
}

pub open spec fn rect_models(s: Seq<Option<GlyphRect>>) -> Seq<Option<BoundsModel>> {
    s.map_values(|r: Option<GlyphRect>| rect_model(r))
}

impl View for PageText {
    type V = TextModel;

    closed spec fn view(&self) -> TextModel {
        TextModel { chars: self.chars@, rects: rect_models(self.rects@) }
    }
}

/// A number without its sign.
pub open spec fn unsigned(r: RealModel) -> RealModel {
    if r.negative {
        r.negated()
    } else {
        r
    }
}

/// The height of a glyph: at least one point.
pub open spec fn height_of(m: MatrixModel) -> RealModel {
    greater(unsigned(m.d), unit())
}

/// Five, six and eight tenths.
pub open spec fn tenths(n: int) -> RealModel {
    scaled(n, 1)
}

/// A glyph is on another line than the one before it.
pub open spec fn breaks(last: MatrixModel, m: MatrixModel) -> bool {
    below(
        product(greater(height_of(last), height_of(m)), tenths(5)),
        unsigned(sum(m.f, last.f.negated())),
    )
}

/// The rectangle of a glyph: six tenths of its height wide and eight tenths high.
pub open spec fn glyph_rect(m: MatrixModel) -> BoundsModel {
    BoundsModel {
        x0: m.e,
        y0: m.f,
        x1: sum(m.e, product(height_of(m), tenths(6))),
        y1: sum(m.f, product(height_of(m), tenths(8))),
    }
}

/// The character of an item and its transform, where it is a glyph whose character is known.
pub open spec fn known_glyph(item: ItemModel) -> Option<(char, MatrixModel)> {
    match item {
        ItemModel::Glyph(g) => match g.unicode {
            Some(c) => Some((c, glyph_matrix(g))),
            None => None,
        },
        _ => None,
    }
}

/// The transform of the last known glyph among the first `n` items.
pub open spec fn last_known(items: Seq<ItemModel>, n: nat) -> Option<MatrixModel>
    decreases n,
{
    if n == 0 {
        None
    } else {
        match known_glyph(items[n - 1]) {
            Some((_, m)) => Some(m),
            None => last_known(items, (n - 1) as nat),
        }
    }
}

/// The text of the first `n` items. A glyph without a character is left out.
pub open spec fn text_of_items(items: Seq<ItemModel>, n: nat) -> TextModel
    decreases n,
{
    if n == 0 {
        TextModel { chars: seq![], rects: seq![] }
    } else {
        let before = text_of_items(items, (n - 1) as nat);
        match known_glyph(items[n - 1]) {
            None => before,
            Some((c, m)) => {
                let last = last_known(items, (n - 1) as nat);
                let broken = if last is Some && breaks(last->0, m) {
                    TextModel { chars: before.chars.push('\n'), rects: before.rects.push(None) }
                } else {
                    before
                };
                TextModel {
                    chars: broken.chars.push(c),
                    rects: broken.rects.push(Some(glyph_rect(m))),
                }
            },
        }
    }
}

/// A letter without regard to its case, as far as it is ASCII.
pub open spec fn folded(c: char) -> char {
    if 'A' <= c && c <= 'Z' {
        (c as u32 + 32) as char
    } else {
        c
    }
}

/// A query stands in a text at `i`, without regard to case.
pub open spec fn stands_at(text: Seq<char>, query: Seq<char>, i: int) -> bool {
    &&& 0 <= i
    &&& i + query.len() <= text.len()
    &&& forall|j: int| 0 <= j < query.len() ==> folded(#[trigger] text[i + j]) == folded(query[j])
}

/// The rectangle around two others.
pub open spec fn around(a: BoundsModel, b: BoundsModel) -> BoundsModel {
    BoundsModel {
        x0: lesser(a.x0, b.x0),
        y0: lesser(a.y0, b.y0),
        x1: greater(a.x1, b.x1),
        y1: greater(a.y1, b.y1),
    }
}

/// The rectangle around the places from `i` on, `n` of them; those without a place are passed
/// over.
pub open spec fn around_all(rects: Seq<Option<BoundsModel>>, i: int, n: nat) -> Option<BoundsModel>
    decreases n,
{
    if n == 0 {
        None
    } else {
        match (around_all(rects, i, (n - 1) as nat), rects[i + n - 1]) {
            (before, None) => before,
            (None, Some(r)) => Some(r),
            (Some(m), Some(r)) => Some(around(m, r)),
        }
    }
}

/// The rectangles of the places before `n` where a query stands.
pub open spec fn found_before(t: TextModel, query: Seq<char>, n: nat) -> Seq<BoundsModel>
    decreases n,
{
    if n == 0 {
        seq![]
    } else {
        let before = found_before(t, query, (n - 1) as nat);
        if stands_at(t.chars, query, n - 1) {
            match around_all(t.rects, n - 1, query.len()) {
                Some(r) => before.push(r),
                None => before,
            }
        } else {
            before
        }
    }
}

/// The rectangles of all places where a query stands; an empty query stands nowhere.
pub open spec fn found(t: TextModel, query: Seq<char>) -> Seq<BoundsModel> {
    if query.len() == 0 {
        seq![]
    } else {
        found_before(t, query, t.chars.len())
    }
}

fn unsigned_of(r: &Real) -> (u: Real)
    ensures
        u@ == unsigned(r@),
{
    if r.is_negative() {
        r.negated()
    } else {
        r.clone()
    }
}

fn glyph_height(m: &Matrix) -> (h: Real)
    ensures
        h@ == height_of(m@),
{
    greater_of(&unsigned_of(&m.d), &Real::from_int(1))
}

fn is_break(last: &Matrix, m: &Matrix) -> (r: bool)
    ensures
        r == breaks(last@, m@),
{
    let h = greater_of(&glyph_height(last), &glyph_height(m));
    let d = unsigned_of(&m.f.plus(&last.f.negated()));
    h.times(&Real::from_scaled(5, 1)).is_below(&d)
}

fn rect_of_glyph(m: &Matrix) -> (r: GlyphRect)
    ensures
        r@ == glyph_rect(m@),
{
    let h = glyph_height(m);
    Bounds {
        x0: m.e.clone(),
        y0: m.f.clone(),
        x1: m.e.plus(&h.times(&Real::from_scaled(6, 1))),
        y1: m.f.plus(&h.times(&Real::from_scaled(8, 1))),
    }
}

fn fold(c: char) -> (r: char)
    ensures
        r == folded(c),
{
    if 'A' <= c && c <= 'Z' {
        let n: u8 = c as u8;
        (n + 32) as char
    } else {
        c
    }
}

/// The character of an item and its transform, where it is a glyph whose character is known.
fn find_glyph(display: &DisplayList, all: &Vec<Matrix>, i: usize) -> (r: Option<(char, Matrix)>)
    requires
        display.wf(),
        i < display.items@.len(),
        all@.len() == display.steps@.len() + 1,
        forall|k: int|
            0 <= k < all@.len() ==> (#[trigger] all@[k])@ == crate::affine::transform_matrix(
                chain(display.steps@, k),
            ),
    ensures
        match r {
            Some((c, m)) => known_glyph(display@[i as int]) == Some((c, m@)),
            None => known_glyph(display@[i as int]) is None,
        },
{
    proof {
        assert(crate::canvas::item_in(
            display.items@[i as int],
            display.steps@.len(),
            display.clips@.len(),
            display.fonts@.len(),
        ));
        assert(display@[i as int] == item_model(
            display.steps@,
            display.clips@,
            display.fonts@,
            display.items@[i as int],
        ));
    }
    match &display.items[i] {
        DisplayItem::Glyph { unicode, size, scale, rise, text, ctm, .. } => match unicode {
            Some(c) => {
                let m = place_glyph(size, scale, rise, &all[*text], &all[*ctm]);
                Some((*c, m))
            },
            None => None,
        },
        _ => None,
    }
}

/// The text of what a page shows, with the place of each character.
pub fn extract_page_text(display: &DisplayList) -> (r: PageText)
    requires
        display.wf(),
    ensures
        r@ == text_of_items(display@, display@.len()),
{
    let all = matrices(display);
    let mut chars: Vec<char> = Vec::new();
    let mut rects: Vec<Option<GlyphRect>> = Vec::new();
    let mut last: Option<Matrix> = None;
    proof {
        assert(chars@ =~= seq![]);
        assert(rect_models(rects@) =~= seq![]);
    }
    let mut i: usize = 0;
    while i < display.items.len()
        invariant
            0 <= i <= display.items@.len(),
            display.wf(),
            all@.len() == display.steps@.len() + 1,
            forall|k: int|
                0 <= k < all@.len() ==> (#[trigger] all@[k])@ == crate::affine::transform_matrix(
                    chain(display.steps@, k),
                ),
            match last {
                Some(m) => last_known(display@, i as nat) == Some(m@),
                None => last_known(display@, i as nat) is None,
            },
            (TextModel { chars: chars@, rects: rect_models(rects@) }) == text_of_items(
                display@,
                i as nat,
            ),
            chars@.len() == rects@.len(),
        decreases display.items@.len() - i,
    {
        match find_glyph(display, &all, i) {
            None => {},
            Some((c, m)) => {
                let ghost before = rect_models(rects@);
                let broken = match &last {
                    Some(l) => is_break(l, &m),
                    None => false,
                };
                if broken {
                    chars.push('\n');
                    rects.push(None);
                    assert(rect_models(rects@) =~= before.push(None));
                }
                let ghost middle = rect_models(rects@);
                chars.push(c);
                rects.push(Some(rect_of_glyph(&m)));
                assert(rect_models(rects@) =~= middle.push(Some(glyph_rect(m@))));
                last = Some(m);
            },
        }
        i += 1;
    }
    PageText { chars, rects }
}

fn text_of_chars(s: &Vec<char>) -> (r: String)
    ensures
        r@ == s@,
{
    let mut r: String = String::new();
    let mut i: usize = 0;
    proof {
        reveal_strlit("");
        assert(r@ =~= s@.take(0));
    }
    while i < s.len()
        invariant
            0 <= i <= s@.len(),
            r@ == s@.take(i as int),
        decreases s@.len() - i,
    {
        r.push(s[i]);
        assert(r@ =~= s@.take(i + 1));
        i += 1;
    }
    assert(s@.take(i as int) =~= s@);
    r
}

/// The text of what a page shows.
pub fn extract_text(display: &DisplayList) -> (r: String)
    requires
        display.wf(),
    ensures
        r@ == text_of_items(display@, display@.len()).chars,
{
    extract_page_text(display).text()
}

spec fn bounds_models(s: Seq<GlyphRect>) -> Seq<BoundsModel> {
    s.map_values(|r: GlyphRect| r@)
}

impl PageText {
    #[verifier::type_invariant]
    spec fn inv(self) -> bool {
        self.chars@.len() == self.rects@.len()
    }

    /// The text.
    pub fn text(&self) -> (r: String)
        ensures
            r@ == self@.chars,
    {
        text_of_chars(&self.chars)
    }

    /// The rectangles of all places where a query stands, without regard to the case of ASCII
    /// letters.
    pub fn find_matches(&self, query: &str) -> (r: Vec<GlyphRect>)
        ensures
            r@.len() == found(self@, query@).len(),
            forall|i: int| 0 <= i < r@.len() ==> (#[trigger] r@[i])@ == found(self@, query@)[i],
    {
        proof {
            use_type_invariant(self);
        }
        let mut needle: Vec<char> = Vec::new();
        for c in it: query.chars()
            invariant
                it.seq() == query@,
                needle@ == query@.take(it.index() as int),
        {
            needle.push(c);
            assert(needle@ =~= query@.take(it.index() + 1));
        }
        assert(needle@ =~= query@);
        let mut out: Vec<GlyphRect> = Vec::new();
        assert(bounds_models(out@) =~= seq![]);
        if needle.len() == 0 {
            return out;
        }
        let mut start: usize = 0;
        while start < self.chars.len()
            invariant
                0 <= start <= self.chars@.len(),
                self.chars@.len() == self.rects@.len(),
                needle@ == query@,
                needle@.len() > 0,
                bounds_models(out@) == found_before(self@, query@, start as nat),
            decreases self.chars@.len() - start,
        {
            if self.match_at(&needle, start) {
                match self.rect_around(start, needle.len()) {
                    Some(r) => {
                        let ghost before = bounds_models(out@);
                        out.push(r);
                        assert(bounds_models(out@) =~= before.push(r@));
                    },
                    None => {},
                }
            }
            start += 1;
        }
        proof {
            assert forall|i: int| 0 <= i < out@.len() implies (#[trigger] out@[i])@ == found(
                self@,
                query@,
            )[i] by {
                assert(bounds_models(out@)[i] == out@[i]@);
            }
        }
        out
    }

    fn match_at(&self, needle: &Vec<char>, start: usize) -> (r: bool)
        requires
            start <= self@.chars.len(),
        ensures
            r == stands_at(self@.chars, needle@, start as int),
    {
        if needle.len() > self.chars.len() - start {
            return false;
        }
        let n: usize = self.chars.len();
        let mut j: usize = 0;
        while j < needle.len()
            invariant
                0 <= j <= needle@.len(),
                n == self.chars@.len(),
                start + needle@.len() <= n,
                forall|k: int|
                    0 <= k < j ==> folded(#[trigger] self.chars@[start + k]) == folded(needle@[k]),
            decreases needle@.len() - j,
        {
            if fold(self.chars[start + j]) != fold(needle[j]) {
                assert(folded(self@.chars[start + j]) != folded(needle@[j as int]));
                return false;
            }
            j += 1;
        }
        true
    }

    fn rect_around(&self, start: usize, n: usize) -> (r: Option<GlyphRect>)
        requires
            start + n <= self@.rects.len(),
        ensures
            rect_model(r) == around_all(self@.rects, start as int, n as nat),
    {
        let total: usize = self.rects.len();
        let mut r: Option<GlyphRect> = None;
        let mut i: usize = 0;
        while i < n
            invariant
                0 <= i <= n,
                total == self.rects@.len(),
                start + n <= total,
                rect_model(r) == around_all(self@.rects, start as int, i as nat),
            decreases n - i,
        {
            assert(self@.rects[start + i] == rect_model(self.rects@[start + i]));
            match &self.rects[start + i] {
                None => {},
                Some(x) => {
                    r = match &r {
                        None => Some(x.clone()),
                        Some(m) => Some(
                            Bounds {
                                x0: lesser_of(&m.x0, &x.x0),
                                y0: lesser_of(&m.y0, &x.y0),
                                x1: greater_of(&m.x1, &x.x1),
                                y1: greater_of(&m.y1, &x.y1),
                            },
                        ),
                    };
                },
            }
            i += 1;
        }
        r
    }
}

/// How far a number lies outside of a range.
fn measure_gap(lo: &Real, hi: &Real, x: &Real) -> (r: Real)
    ensures
        r@ == gap(lo@, hi@, x@),
{
    if x.is_below(lo) {
        lo.plus(&x.negated())
    } else if hi.is_below(x) {
        x.plus(&hi.negated())
    } else {
        Real::from_int(0)
    }
}

fn measure(b: &GlyphRect, x: &Real, y: &Real) -> (r: Real)
    ensures
        r@ == distance(b@, x@, y@),
{
    let dx = measure_gap(&b.x0, &b.x1, x);
    let dy = measure_gap(&b.y0, &b.y1, y);
    dx.times(&dx).plus(&dy.times(&dy))
}

impl PageText {
    /// The character nearest to a point.
    pub fn char_index_at(&self, point: &(Real, Real)) -> (r: Option<usize>)
        ensures
            match nearest(self@.rects, self@.rects.len(), point.0@, point.1@) {
                Some(k) => r is Some && r->0 == k,
                None => r is None,
            },
    {
        let ghost rects = self@.rects;
        let (x, y) = (&point.0, &point.1);
        let mut best: Option<usize> = None;
        let mut least: Real = Real::from_int(0);
        let mut i: usize = 0;
        while i < self.rects.len()
            invariant
                0 <= i <= self.rects@.len(),
                rects == rect_models(self.rects@),
                x == &point.0,
                y == &point.1,
                match nearest(rects, i as nat, point.0@, point.1@) {
                    Some(k) => {
                        &&& best is Some
                        &&& best->0 == k
                        &&& 0 <= k < i
                        &&& rects[k] is Some
                        &&& least@ == distance(rects[k]->0, point.0@, point.1@)
                    },
                    None => best is None,
                },
            decreases self.rects@.len() - i,
        {
            assert(rects[i as int] == rect_model(self.rects@[i as int]));
            match &self.rects[i] {
                None => {},
                Some(b) => {
                    let d = measure(b, x, y);
                    if best.is_none() || d.is_below(&least) {
                        best = Some(i);
                        least = d;
                    }
                },
            }
            i += 1;
        }
        assert(rects.len() == i);
        best
    }

    /// The part of the text around an index: from where it starts to where it ends.
    fn part_at(&self, index: usize, words: bool) -> (r: (usize, usize))
        ensures
            r.0 == part_start(self@.chars, within(index as int, self@.chars.len()), words),
            r.1 == part_end(self@.chars, within(index as int, self@.chars.len()), words),
    {
        let n: usize = self.chars.len();
        let i: usize = if index > n {
            n
        } else {
            index
        };
        let mut start: usize = i;
        while start > 0 && !is_parting(self.chars[start - 1], words)
            invariant
                0 <= start <= i <= n,
                n == self.chars@.len(),
                part_start(self@.chars, i as int, words) == part_start(
                    self@.chars,
                    start as int,
                    words,
                ),
            decreases start,
        {
            start -= 1;
        }
        let mut end: usize = i;
        while end < n && !is_parting(self.chars[end], words)
            invariant
                i <= end <= n,
                n == self.chars@.len(),
                part_end(self@.chars, i as int, words) == part_end(self@.chars, end as int, words),
            decreases n - end,
        {
            end += 1;
        }
        (start, end)
    }

    /// The word around an index, or before it where a blank stands there.
    pub fn word_range_at(&self, index: usize) -> (r: std::ops::Range<usize>)
        ensures
            r.start == part_start(self@.chars, within(index as int, self@.chars.len()), true),
            r.end == part_end(self@.chars, within(index as int, self@.chars.len()), true),
    {
        let (start, end) = self.part_at(index, true);
        start..end
    }

    /// The line around an index, or before it where a break stands there.
    pub fn line_range_at(&self, index: usize) -> (r: std::ops::Range<usize>)
        ensures
            r.start == part_start(self@.chars, within(index as int, self@.chars.len()), false),
            r.end == part_end(self@.chars, within(index as int, self@.chars.len()), false),
    {
        let (start, end) = self.part_at(index, false);
        start..end
    }

    /// The text in a range, as far as there is any.
    pub fn text_in_range(&self, range: &std::ops::Range<usize>) -> (r: String)
        ensures
            r@ == selected(self@.chars, range.start as int, range.end as int),
    {
        let n: usize = self.chars.len();
        let end: usize = if range.end > n {
            n
        } else {
            range.end
        };
        let mut out: Vec<char> = Vec::new();
        let mut i: usize = range.start;
        assert(out@ =~= selected(self@.chars, range.start as int, i as int));
        while i < end
            invariant
                range.start <= i,
                range.start < end ==> i <= end,
                range.start >= end ==> i == range.start,
                end <= n,
                n == self.chars@.len(),
                out@ == selected(self@.chars, range.start as int, i as int),
            decreases end - i,
        {
            out.push(self.chars[i]);
            i += 1;
            assert(out@ =~= selected(self@.chars, range.start as int, i as int));
        }
        assert(out@ =~= selected(self@.chars, range.start as int, range.end as int));
        text_of_chars(&out)
    }

    /// The rectangles of the characters in a range, without those that have none.
    pub fn rects_in_range(&self, range: &std::ops::Range<usize>) -> (r: Vec<GlyphRect>)
        ensures
            ({
                let list = selected_rects(
                    self@.rects,
                    range.start as int,
                    within(range.end as int, self@.rects.len()),
                );
                &&& r@.len() == list.len()
                &&& forall|i: int| 0 <= i < r@.len() ==> (#[trigger] r@[i])@ == list[i]
            }),
    {
        let ghost rects = self@.rects;
        let n: usize = self.rects.len();
        let end: usize = if range.end > n {
            n
        } else {
            range.end
        };
        let mut out: Vec<GlyphRect> = Vec::new();
        let mut i: usize = range.start;
        assert(bounds_models(out@) =~= seq![]);
        while i < end
            invariant
                range.start <= i,
                range.start < end ==> i <= end,
                range.start >= end ==> i == range.start,
                end <= n,
                n == self.rects@.len(),
                rects == rect_models(self.rects@),
                bounds_models(out@) == selected_rects(rects, range.start as int, i as int),
            decreases end - i,
        {
            assert(rects[i as int] == rect_model(self.rects@[i as int]));
            match &self.rects[i] {
                None => {},
                Some(b) => {
                    let ghost before = bounds_models(out@);
                    let copy = b.clone();
                    let ghost b_model = copy@;
                    out.push(copy);
                    assert(bounds_models(out@) =~= before.push(b_model));
                },
            }
            i += 1;
        }
        proof {
            let list = selected_rects(rects, range.start as int, end as int);
            assert(bounds_models(out@) == list);
            assert forall|k: int| 0 <= k < out@.len() implies (#[trigger] out@[k])@ == list[k] by {
                assert(bounds_models(out@)[k] == out@[k]@);
            }
        }
        out
    }
}

proof fn same_len(items: Seq<ItemModel>, n: nat)
    ensures
        text_of_items(items, n).chars.len() == text_of_items(items, n).rects.len(),
    decreases n,
{
    if n > 0 {
        same_len(items, (n - 1) as nat);
    }
}

/// Every character has an entry for its place.
pub proof fn places_go_with_characters(items: Seq<ItemModel>)
    ensures
        text_of_items(items, items.len()).chars.len() == text_of_items(items, items.len()).rects.len(),
{
    same_len(items, items.len());
}

/// The characters that are known among the first `n` items, in order.
pub open spec fn known_chars(items: Seq<ItemModel>, n: nat) -> Seq<char>
    decreases n,
{
    if n == 0 {
        seq![]
    } else {
        match known_glyph(items[n - 1]) {
            Some((c, _)) => known_chars(items, (n - 1) as nat).push(c),
            None => known_chars(items, (n - 1) as nat),
        }
    }
}

/// The characters with a place, in order.
pub open spec fn placed_chars(t: TextModel, n: nat) -> Seq<char>
    decreases n,
{
    if n == 0 {
        seq![]
    } else if t.rects[n - 1] is Some {
        placed_chars(t, (n - 1) as nat).push(t.chars[n - 1])
    } else {
        placed_chars(t, (n - 1) as nat)
    }
}

proof fn placed_before(t: TextModel, u: TextModel, n: nat)
    requires
        n <= t.chars.len(),
        n <= u.chars.len(),
        n <= t.rects.len(),
        n <= u.rects.len(),
        forall|i: int| 0 <= i < n ==> #[trigger] t.chars[i] == u.chars[i],
        forall|i: int| 0 <= i < n ==> #[trigger] t.rects[i] == u.rects[i],
    ensures
        placed_chars(t, n) == placed_chars(u, n),
    decreases n,
{
    if n > 0 {
        placed_before(t, u, (n - 1) as nat);
    }
}

/// A text is the characters of the glyphs in the order in which they are shown: only breaks of
/// lines were put in.
pub proof fn text_is_the_glyphs(items: Seq<ItemModel>, n: nat)
    requires
        n <= items.len(),
    ensures
        placed_chars(text_of_items(items, n), text_of_items(items, n).chars.len()) == known_chars(
            items,
            n,
        ),
    decreases n,
{
    if n > 0 {
        text_is_the_glyphs(items, (n - 1) as nat);
        let before = text_of_items(items, (n - 1) as nat);
        let after = text_of_items(items, n);
        same_len(items, (n - 1) as nat);
        same_len(items, n);
        if let Some((c, m)) = known_glyph(items[n - 1]) {
            let k = before.chars.len();
            placed_before(before, after, k);
            let last = last_known(items, (n - 1) as nat);
            if last is Some && breaks(last->0, m) {
                assert(after.chars.len() == k + 2);
                assert(after.rects[k as int] is None);
                assert(placed_chars(after, k + 1) == placed_chars(after, k));
                assert(placed_chars(after, k + 2) == placed_chars(after, k + 1).push(c));
            } else {
                assert(placed_chars(after, k + 1) == placed_chars(after, k).push(c));
            }
        }
    }
}

/// A rectangle holds another.
pub open spec fn holds(a: BoundsModel, b: BoundsModel) -> bool {
    !below(b.x0, a.x0) && !below(b.y0, a.y0) && !below(a.x1, b.x1) && !below(a.y1, b.y1)
}

proof fn around_holds(a: BoundsModel, b: BoundsModel)
    ensures
        holds(around(a, b), a),
        holds(around(a, b), b),
{
    below_is_strict(a.x0, b.x0);
    below_is_strict(b.x0, a.x0);
    below_is_strict(a.y0, b.y0);
    below_is_strict(b.y0, a.y0);
    below_is_strict(a.x1, b.x1);
    below_is_strict(b.x1, a.x1);
    below_is_strict(a.y1, b.y1);
    below_is_strict(b.y1, a.y1);
}

proof fn holds_on(a: BoundsModel, b: BoundsModel, c: BoundsModel)
    requires
        holds(a, b),
        holds(b, c),
    ensures
        holds(a, c),
{
    not_above_transitive(a.x0, b.x0, c.x0);
    not_above_transitive(a.y0, b.y0, c.y0);
    not_above_transitive(c.x1, b.x1, a.x1);
    not_above_transitive(c.y1, b.y1, a.y1);
}

/// The rectangle of a match holds the place of each of its characters.
pub proof fn match_holds_its_characters(rects: Seq<Option<BoundsModel>>, i: int, n: nat, k: int)
    requires
        0 <= k < n,
        rects[i + k] is Some,
    ensures
        around_all(rects, i, n) is Some,
        holds(around_all(rects, i, n)->0, rects[i + k]->0),
    decreases n,
{
    let r = rects[i + n - 1];
    if k < n - 1 {
        match_holds_its_characters(rects, i, (n - 1) as nat, k);
        let before = around_all(rects, i, (n - 1) as nat)->0;
        if let Some(x) = r {
            around_holds(before, x);
            holds_on(around(before, x), before, rects[i + k]->0);
        }
    } else {
        let x = r->0;
        match around_all(rects, i, (n - 1) as nat) {
            Some(before) => around_holds(before, x),
            None => {
                below_is_strict(x.x0, x.x0);
                below_is_strict(x.y0, x.y0);
                below_is_strict(x.x1, x.x1);
                below_is_strict(x.y1, x.y1);
            },
        }
    }
}

} // verus!
