//! What is found, selected and counted in the text of a page.
use vstd::prelude::*;
use crate::arith::{below, product, sum};
use crate::canvas::{BoundsModel, ItemModel};
use crate::exact::{below_is_less, negated_value, products_are_exact, sums_are_exact, whole_value};
use crate::number::RealModel;
use crate::page_text::{around_all, folded, found, found_before, known_chars, stands_at, TextModel};
use crate::search::{contains_text, plain, stands_plain};
use crate::selection::{distance, gap, nearest, nothing_is_nearer, parts, selected, selected_rects};
use crate::summary::summary_of;

verus! {

/// A query was found at a place: it stands there, and something of it has a place on the page.
pub open spec fn is_found(t: TextModel, query: Seq<char>, i: int) -> bool {
    &&& 0 < query.len()
    &&& 0 <= i
    &&& i + query.len() <= t.chars.len()
    &&& forall|j: int| 0 <= j < query.len() ==> folded(#[trigger] t.chars[i + j]) == folded(query[j])
    &&& exists|j: int| 0 <= j < query.len() && (#[trigger] t.rects[i + j]) is Some
}

/// How often a query was found before a place.
pub open spec fn found_count(t: TextModel, query: Seq<char>, n: int) -> int
    decreases n,
{
    if n <= 0 {
        0
    } else {
        found_count(t, query, n - 1) + if is_found(t, query, n - 1) {
            1int
        } else {
            0
        }
    }
}

proof fn around_is_some(rects: Seq<Option<BoundsModel>>, i: int, n: nat)
    ensures
        around_all(rects, i, n) is Some <==> exists|j: int| 0 <= j < n && (#[trigger] rects[i + j]) is Some,
    decreases n,
{
    if n > 0 {
        around_is_some(rects, i, (n - 1) as nat);
        if around_all(rects, i, (n - 1) as nat) is Some {
            let j = choose|j: int| 0 <= j < n - 1 && (#[trigger] rects[i + j]) is Some;
            assert(rects[i + j] is Some);
        }
        assert(rects[i + (n - 1)] == rects[i + n - 1]);
        if exists|j: int| 0 <= j < n && (#[trigger] rects[i + j]) is Some {
            let j = choose|j: int| 0 <= j < n && (#[trigger] rects[i + j]) is Some;
            assert(j == n - 1 || j < n - 1);
        }
    }
}

proof fn found_is_counted(t: TextModel, query: Seq<char>, n: nat)
    requires
        query.len() > 0,
    ensures
        found_before(t, query, n).len() == found_count(t, query, n as int),
        forall|i: int|
            0 <= i < n && #[trigger] is_found(t, query, i) ==> 0 <= found_count(t, query, i)
                < found_count(t, query, n as int) && Some(
                found_before(t, query, n)[found_count(t, query, i)],
            ) == around_all(t.rects, i, query.len()),
    decreases n,
{
    if n > 0 {
        found_is_counted(t, query, (n - 1) as nat);
        around_is_some(t.rects, n - 1, query.len());
        assert(is_found(t, query, n - 1) <==> stands_at(t.chars, query, n - 1) && around_all(
            t.rects,
            n - 1,
            query.len(),
        ) is Some);
    }
}

/// A search gives one rectangle for each place where the query stands, in the order of the places:
/// the one around the places of its characters. Letters count without their case.
pub proof fn each_place_is_found(t: TextModel, query: Seq<char>)
    ensures
        found(t, query).len() == found_count(t, query, t.chars.len() as int),
        forall|i: int|
            0 <= i < t.chars.len() && #[trigger] is_found(t, query, i) ==> 0 <= found_count(t, query, i)
                < found(t, query).len() && Some(found(t, query)[found_count(t, query, i)])
                == around_all(t.rects, i, query.len()),
{
    if query.len() > 0 {
        found_is_counted(t, query, t.chars.len());
    } else {
        none_is_found(t, query, t.chars.len() as int);
    }
}

proof fn none_is_found(t: TextModel, query: Seq<char>, n: int)
    requires
        query.len() == 0,
    ensures
        found_count(t, query, n) == 0,
    decreases n,
{
    if n > 0 {
        none_is_found(t, query, n - 1);
    }
}

/// A capital letter counts as the small one, and everything else as itself.
pub proof fn case_does_not_count(c: char)
    ensures
        65 <= c as u32 <= 90 ==> folded(c) as u32 == c as u32 + 32,
        !(65 <= c as u32 <= 90) ==> folded(c) == c,
{
    if 65 <= c as u32 <= 90 {
        let n = (c as u32 + 32) as u32;
        assert(vstd::utf8::is_scalar(n));
        vstd::utf8::char_u32_cast(n as char, n);
    }
}

/// A text that holds a query as it stands contains it, and one that contains it does so with more
/// on both sides.
pub proof fn parts_are_contained(a: Seq<char>, query: Seq<char>, b: Seq<char>, text: Seq<char>)
    ensures
        contains_text(a + query + b, query),
        contains_text(text, query) ==> contains_text(a + text + b, query),
        contains_text(text, query) ==> query.len() <= text.len(),
{
    let whole = a + query + b;
    assert(stands_plain(whole, query, a.len() as int)) by {
        assert forall|j: int| 0 <= j < query.len() implies plain(#[trigger] whole[a.len() + j]) == plain(
            query[j],
        ) by {
            assert(whole[a.len() + j] == query[j]);
        }
    }
    if contains_text(text, query) {
        let i = choose|i: int| stands_plain(text, query, i);
        let more = a + text + b;
        assert(stands_plain(more, query, a.len() + i)) by {
            assert forall|j: int| 0 <= j < query.len() implies plain(#[trigger] more[a.len() + i + j])
                == plain(query[j]) by {
                assert(more[a.len() + i + j] == text[i + j]);
            }
        }
    }
}

/// Whether a text contains a query depends on its characters without case and accents alone.
pub proof fn containment_goes_by_plain_characters(text: Seq<char>, other: Seq<char>, query: Seq<char>)
    requires
        text.len() == other.len(),
        forall|i: int| 0 <= i < text.len() ==> plain(#[trigger] text[i]) == plain(other[i]),
    ensures
        contains_text(text, query) == contains_text(other, query),
{
    if contains_text(text, query) {
        let i = choose|i: int| stands_plain(text, query, i);
        assert forall|j: int| 0 <= j < query.len() implies plain(#[trigger] other[i + j]) == plain(
            query[j],
        ) by {
            assert(plain(text[i + j]) == plain(query[j]));
        }
        assert(stands_plain(other, query, i));
    }
    if contains_text(other, query) {
        let i = choose|i: int| stands_plain(other, query, i);
        assert forall|j: int| 0 <= j < query.len() implies plain(#[trigger] text[i + j]) == plain(
            query[j],
        ) by {
            assert(plain(other[i + j]) == plain(query[j]));
        }
        assert(stands_plain(text, query, i));
    }
}

/// Capital and small letters of ASCII count as the same.
pub proof fn plain_letters_have_no_case(c: u8)
    requires
        65 <= c <= 90,
    ensures
        plain(c as char) == (c + 32) as char,
        plain((c + 32) as char) == (c + 32) as char,
{
}

/// The distance from a range: none inside, otherwise that from its nearer end.
pub proof fn gap_is_the_distance(lo: RealModel, hi: RealModel, x: RealModel, p: nat)
    requires
        lo.places() <= p,
        hi.places() <= p,
        x.places() <= p,
    ensures
        gap(lo, hi, x).places() <= p,
        x.at_places(p) < lo.at_places(p) ==> gap(lo, hi, x).at_places(p) == lo.at_places(p)
            - x.at_places(p),
        lo.at_places(p) <= x.at_places(p) && hi.at_places(p) < x.at_places(p) ==> gap(
            lo,
            hi,
            x,
        ).at_places(p) == x.at_places(p) - hi.at_places(p),
        lo.at_places(p) <= x.at_places(p) <= hi.at_places(p) ==> gap(lo, hi, x).at_places(p) == 0,
{
    below_is_less(x, lo, p);
    below_is_less(hi, x, p);
    negated_value(x, p);
    negated_value(hi, p);
    sums_are_exact(lo, x.negated(), p);
    sums_are_exact(x, hi.negated(), p);
    whole_value(0, p);
}

/// The distance from a rectangle, squared, is the sum of the squares of those from its sides.
pub proof fn distance_is_squared(b: BoundsModel, x: RealModel, y: RealModel, p: nat)
    requires
        b.x0.places() <= p,
        b.y0.places() <= p,
        b.x1.places() <= p,
        b.y1.places() <= p,
        x.places() <= p,
        y.places() <= p,
        2 * p <= 40,
    ensures
        ({
            let dx = gap(b.x0, b.x1, x).at_places(p);
            let dy = gap(b.y0, b.y1, y).at_places(p);
            distance(b, x, y).at_places(2 * p) == dx * dx + dy * dy
        }),
{
    gap_is_the_distance(b.x0, b.x1, x, p);
    gap_is_the_distance(b.y0, b.y1, y, p);
    let dx = gap(b.x0, b.x1, x);
    let dy = gap(b.y0, b.y1, y);
    products_are_exact(dx, dx, p, p);
    products_are_exact(dy, dy, p, p);
    assert(p + p == 2 * p);
    sums_are_exact(product(dx, dx), product(dy, dy), 2 * p);
}

/// Of those that are as near the first is taken: whatever has a place before it is farther.
pub proof fn the_first_of_the_nearest(rects: Seq<Option<BoundsModel>>, n: nat, x: RealModel, y: RealModel, i: int)
    requires
        n <= rects.len(),
        nearest(rects, n, x, y) is Some,
        0 <= i < nearest(rects, n, x, y)->0,
        rects[i] is Some,
    ensures
        below(distance(rects[nearest(rects, n, x, y)->0]->0, x, y), distance(rects[i]->0, x, y)),
    decreases n,
{
    if n > 0 {
        let before = nearest(rects, (n - 1) as nat, x, y);
        let now = nearest(rects, n, x, y);
        if now == before {
            the_first_of_the_nearest(rects, (n - 1) as nat, x, y, i);
        } else {
            nothing_is_nearer(rects, (n - 1) as nat, x, y, i);
            let k = before->0;
            let a = distance(rects[n - 1]->0, x, y);
            let b = distance(rects[k]->0, x, y);
            let c = distance(rects[i]->0, x, y);
            let p = a.places() + b.places() + c.places();
            below_is_less(a, b, p);
            below_is_less(c, b, p);
            below_is_less(a, c, p);
        }
    } else {
        assert(nearest(rects, 0, x, y) is None);
    }
}

/// A selection is the characters from its start on, up to its end or that of the text.
pub proof fn selection_is_the_characters(s: Seq<char>, start: int, end: int)
    requires
        0 <= start,
    ensures
        start <= end <= s.len() ==> selected(s, start, end).len() == end - start,
        start <= s.len() <= end ==> selected(s, start, end).len() == s.len() - start,
        end <= start ==> selected(s, start, end).len() == 0,
        forall|k: int|
            0 <= k < selected(s, start, end).len() ==> #[trigger] selected(s, start, end)[k] == s[start
                + k],
{
}

/// A selection in two parts is the one behind the other, and so are its places.
pub proof fn selections_join(
    s: Seq<char>,
    rects: Seq<Option<BoundsModel>>,
    start: int,
    middle: int,
    end: int,
)
    requires
        0 <= start <= middle <= end <= s.len(),
        end <= rects.len(),
    ensures
        selected(s, start, end) == selected(s, start, middle) + selected(s, middle, end),
        selected_rects(rects, start, end) == selected_rects(rects, start, middle) + selected_rects(
            rects,
            middle,
            end,
        ),
        start == end ==> selected_rects(rects, start, end).len() == 0,
        start + 1 == end ==> selected_rects(rects, start, end) == match rects[start] {
            Some(b) => seq![b],
            None => seq![],
        },
    decreases end - middle,
{
    assert(selected(s, start, end) =~= selected(s, start, middle) + selected(s, middle, end));
    if middle < end {
        selections_join(s, rects, start, middle, end - 1);
        let a = selected_rects(rects, start, middle);
        let b = selected_rects(rects, middle, end - 1);
        assert(selected_rects(rects, start, end) =~= a + selected_rects(rects, middle, end));
    } else {
        assert(selected_rects(rects, start, end) =~= selected_rects(rects, start, middle)
            + selected_rects(rects, middle, end));
    }
    if start + 1 == end {
        assert(selected_rects(rects, start, end - 1) =~= seq![]);
        assert(selected_rects(rects, start, end) =~= match rects[start] {
            Some(b) => seq![b],
            None => seq![],
        });
    }
}

/// What parts words: blanks; what parts lines: the break of lines alone.
pub proof fn words_and_lines_are_parted(c: char)
    ensures
        parts(c, true) <==> c == ' ' || c == '\t' || c == '\n' || c == '\r' || c == '\u{A0}',
        parts(c, false) <==> c == '\n',
{
}

/// Each item counts as what it is: a path, an image or a glyph, and a glyph adds its character to
/// the text where it is known.
pub proof fn items_are_counted_by_kind(items: Seq<ItemModel>, n: nat)
    requires
        n < items.len(),
    ensures
        ({
            let s = summary_of(items, n);
            let t = summary_of(items, n + 1);
            &&& t.paths == s.paths + if items[n as int] is Path {
                1nat
            } else {
                0
            }
            &&& t.images == s.images + if items[n as int] is Image {
                1nat
            } else {
                0
            }
            &&& t.glyphs == s.glyphs + if items[n as int] is Glyph {
                1nat
            } else {
                0
            }
            &&& t.estimated == (s.estimated || (items[n as int] is Glyph
                && items[n as int]->Glyph_0.advance_is_estimated))
            &&& t.text == if items[n as int] is Glyph && items[n as int]->Glyph_0.unicode is Some {
                s.text.push(items[n as int]->Glyph_0.unicode->0)
            } else {
                s.text
            }
        }),
        summary_of(items, 0).paths == 0,
        summary_of(items, 0).images == 0,
        summary_of(items, 0).glyphs == 0,
        summary_of(items, 0).text.len() == 0,
        !summary_of(items, 0).estimated,
{
}

/// The text of a summary is the known characters of the glyphs in order.
pub proof fn summary_has_the_characters(items: Seq<ItemModel>, n: nat)
    requires
        n <= items.len(),
    ensures
        summary_of(items, n).text == known_chars(items, n),
    decreases n,
{
    if n > 0 {
        summary_has_the_characters(items, (n - 1) as nat);
    }
}

} // verus!
