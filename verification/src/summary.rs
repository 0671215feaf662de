//! What a page shows, in numbers.
use vstd::prelude::*;
use crate::canvas::{item_model, DisplayItem, DisplayList, ItemModel};

verus! {

/// How many paths, glyphs and images a page shows, the characters of its glyphs, and whether the
/// width of any glyph is a guess.
pub struct PageSummary {
    pub paths: usize,
    pub glyphs: usize,
    pub images: usize,
    pub text: Vec<char>,
    pub estimated: bool,
}

pub ghost struct SummaryModel {
    pub paths: nat,
    pub glyphs: nat,
    pub images: nat,
    pub text: Seq<char>,
    pub estimated: bool,
}

impl View for PageSummary {
    type V = SummaryModel;

    open spec fn view(&self) -> SummaryModel {
        SummaryModel {
            paths: self.paths as nat,
            glyphs: self.glyphs as nat,
            images: self.images as nat,
            text: self.text@,
            estimated: self.estimated,
        }
    }
}

/// The first `n` items in numbers.
pub open spec fn summary_of(items: Seq<ItemModel>, n: nat) -> SummaryModel
    decreases n,
{
    if n == 0 {
        SummaryModel { paths: 0, glyphs: 0, images: 0, text: seq![], estimated: false }
    } else {
        let s = summary_of(items, (n - 1) as nat);
        match items[n - 1] {
            ItemModel::Path(_) => SummaryModel { paths: s.paths + 1, ..s },
            ItemModel::Image(_) => SummaryModel { images: s.images + 1, ..s },
            ItemModel::Glyph(g) => SummaryModel {
                glyphs: s.glyphs + 1,
                text: match g.unicode {
                    Some(c) => s.text.push(c),
                    None => s.text,
                },
                estimated: s.estimated || g.advance_is_estimated,
                ..s
            },
        }
    }
}

/// What a page shows, in numbers.
pub fn summarize(display: &DisplayList) -> (r: PageSummary)
    ensures
        r@ == summary_of(display@, display@.len()),
{
    let mut r = PageSummary { paths: 0, glyphs: 0, images: 0, text: Vec::new(), estimated: false };
    assert(r.text@ =~= seq![]);
    let n: usize = display.items.len();
    let mut i: usize = 0;
    while i < n
        invariant
            0 <= i <= n,
            n == display.items@.len(),
            r@ == summary_of(display@, i as nat),
            r.paths <= i,
            r.glyphs <= i,
            r.images <= i,
        decreases n - i,
    {
        assert(display@[i as int] == item_model(
            display.steps@,
            display.clips@,
            display.fonts@,
            display.items@[i as int],
        ));
        match &display.items[i] {
            DisplayItem::Path { .. } => {
                r.paths += 1;
            },
            DisplayItem::Image { .. } => {
                r.images += 1;
            },
            DisplayItem::Glyph { unicode, advance_is_estimated, .. } => {
                r.glyphs += 1;
                match unicode {
                    Some(c) => {
                        r.text.push(*c);
                    },
                    None => {},
                }
                if *advance_is_estimated {
                    r.estimated = true;
                }
            },
        }
        i += 1;
    }
    r
}

proof fn counts_add_up(items: Seq<ItemModel>, n: nat)
    ensures
        summary_of(items, n).paths + summary_of(items, n).glyphs + summary_of(items, n).images == n,
    decreases n,
{
    if n > 0 {
        counts_add_up(items, (n - 1) as nat);
    }
}

/// Everything that is shown is counted once.
pub proof fn everything_is_counted(items: Seq<ItemModel>)
    ensures
        ({
            let s = summary_of(items, items.len());
            s.paths + s.glyphs + s.images == items.len()
        }),
{
    counts_add_up(items, items.len());
}

} // verus!
