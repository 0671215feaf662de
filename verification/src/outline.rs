//! The table of contents of a document.
//!
//! Only destinations that name a page by a reference are followed. An entry with another one is
//! kept without a page.
use vstd::prelude::*;
use crate::document::{DocModel, Document};
use crate::error::{ErrorModel, PdfError};
use crate::marks::{mark_shrinks, marks_shrink, unmarked, RefSet};
use crate::object::{entry, DictModel, Dictionary, ObjRef, Object, ObjectModel};
use crate::page::{is_marked, marked, page_models, pages_in, Page, PageModel};

verus! {

/// An entry of the table of contents, with the entries below it.
#[derive(Debug, PartialEq)]
pub struct OutlineItem {
    pub title: String,
    /// The page that it leads to, counted from 0.
    pub page_index: Option<usize>,
    pub children: Vec<OutlineItem>,
}

/// An entry by what it says.
pub ghost struct OutlineModel {
    pub title: Seq<char>,
    pub page_index: Option<int>,
    pub children: Seq<OutlineModel>,
}

pub open spec fn outline_model(o: OutlineItem) -> OutlineModel
    decreases o,
{
    OutlineModel {
        title: o.title@,
        page_index: match o.page_index {
            Some(n) => Some(n as int),
            None => None,
        },
        children: Seq::new(
            o.children.len() as nat,
            |i: int|
                if 0 <= i < o.children.len() {
                    outline_model(o.children[i])
                } else {
                    arbitrary()
                },
        ),
    }
}

impl View for OutlineItem {
    type V = OutlineModel;

    open spec fn view(&self) -> OutlineModel {
        outline_model(*self)
    }
}

pub open spec fn outline_models(s: Seq<OutlineItem>) -> Seq<OutlineModel> {
    s.map_values(|o: OutlineItem| o@)
}

/// The index of the first page from the `i`-th on that has a reference.
pub open spec fn page_with_ref(pages: Seq<PageModel>, r: ObjRef, i: int) -> Option<int>
    decreases pages.len() - i,
{
    if !(0 <= i < pages.len()) {
        None
    } else if pages[i].object_ref == Some(r) {
        Some(pages[i].index)
    } else {
        page_with_ref(pages, r, i + 1)
    }
}

/// The title of an entry.
pub open spec fn entry_title(d: DictModel) -> Seq<char> {
    match entry(d, "Title"@) {
        Some(o) => match o.text() {
            Some(t) => t,
            None => seq![],
        },
        None => seq![],
    }
}

/// The page that an entry leads to.
pub open spec fn entry_page(d: DictModel, pages: Seq<PageModel>) -> Option<int> {
    match entry(d, "Dest"@) {
        Some(ObjectModel::Array(items)) => if items.len() > 0 {
            match items[0].reference() {
                Some(r) => page_with_ref(pages, r, 0),
                None => None,
            }
        } else {
            None
        },
        _ => None,
    }
}

/// Entries with the references that were followed.
pub type Entries = Result<(Seq<OutlineModel>, Set<ObjRef>), ErrorModel>;

/// The entry `current` and those that follow it, each with those below it, behind `acc`. A
/// reference that was followed before ends the list, and so does what is not a dictionary.
pub open spec fn entries_at(
    doc: DocModel,
    pages: Seq<PageModel>,
    current: ObjectModel,
    visited: Set<ObjRef>,
    acc: Seq<OutlineModel>,
) -> Entries
    decreases unmarked(visited), current,
    via entries_at_shrinks
{
    if is_marked(visited, current) {
        Ok((acc, visited))
    } else {
        let seen = marked(visited, current);
        match doc.got(current) {
            Err(e) => Err(e),
            Ok(m) => match m.dict() {
                None => Ok((acc, seen)),
                Some(d) => if !d.dom().finite() {
                    Ok((acc, seen))
                } else {
                    let below = match entry(d, "First"@) {
                        Some(first) => entries_at(doc, pages, first, seen, seq![]),
                        None => Ok((seq![], seen)),
                    };
                    match below {
                        Err(e) => Err(e),
                        Ok((children, seen2)) => {
                            let item = OutlineModel {
                                title: entry_title(d),
                                page_index: entry_page(d, pages),
                                children,
                            };
                            match entry(d, "Next"@) {
                                Some(next) => if unmarked(seen2) <= unmarked(seen) {
                                    entries_at(doc, pages, next, seen2, acc.push(item))
                                } else {
                                    Ok((acc.push(item), seen2))
                                },
                                None => Ok((acc.push(item), seen2)),
                            }
                        },
                    }
                },
            },
        }
    }
}

#[via_fn]
proof fn entries_at_shrinks(
    doc: DocModel,
    pages: Seq<PageModel>,
    current: ObjectModel,
    visited: Set<ObjRef>,
    acc: Seq<OutlineModel>,
) {
    following_shrinks(current, visited);
}

proof fn following_shrinks(current: ObjectModel, visited: Set<ObjRef>)
    ensures
        current is Reference && !is_marked(visited, current) ==> unmarked(marked(visited, current))
            < unmarked(visited),
{
    if let ObjectModel::Reference(r) = current {
        if !visited.contains(r) {
            mark_shrinks(visited, r);
        }
    }
}

/// References stay marked.
proof fn entries_grow(
    doc: DocModel,
    pages: Seq<PageModel>,
    current: ObjectModel,
    visited: Set<ObjRef>,
    acc: Seq<OutlineModel>,
)
    ensures
        entries_at(doc, pages, current, visited, acc) is Ok ==> visited.subset_of(
            entries_at(doc, pages, current, visited, acc)->Ok_0.1,
        ),
    decreases unmarked(visited), current,
{
    following_shrinks(current, visited);
    if !is_marked(visited, current) {
        let seen = marked(visited, current);
        if let Ok(m) = doc.got(current) {
            if let Some(d) = m.dict() {
                if d.dom().finite() {
                    let below = match entry(d, "First"@) {
                        Some(first) => entries_at(doc, pages, first, seen, seq![]),
                        None => Ok((seq![], seen)),
                    };
                    if let Some(first) = entry(d, "First"@) {
                        entries_grow(doc, pages, first, seen, seq![]);
                    }
                    if let Ok((children, seen2)) = below {
                        marks_shrink(seen, seen2);
                        let item = OutlineModel {
                            title: entry_title(d),
                            page_index: entry_page(d, pages),
                            children,
                        };
                        if let Some(next) = entry(d, "Next"@) {
                            entries_grow(doc, pages, next, seen2, acc.push(item));
                        }
                    }
                }
            }
        }
    }
}

/// The table of contents of a document.
pub open spec fn outline_of(doc: DocModel) -> Result<Seq<OutlineModel>, ErrorModel> {
    match doc.root() {
        Err(e) => Err(e),
        Ok(root) => match entry(root, "Outlines"@) {
            None => Ok(seq![]),
            Some(o) => match doc.got(o) {
                Err(e) => Err(e),
                Ok(m) => match m.dict() {
                    None => Ok(seq![]),
                    Some(d) => match entry(d, "First"@) {
                        None => Ok(seq![]),
                        Some(first) => match pages_in(doc) {
                            Err(e) => Err(e),
                            Ok(pages) => match entries_at(
                                doc,
                                pages,
                                first,
                                Set::empty(),
                                seq![],
                            ) {
                                Err(e) => Err(e),
                                Ok((items, _)) => Ok(items),
                            },
                        },
                    },
                },
            },
        },
    }
}

fn resolve_page_index(target: &Object, pages: &[Page]) -> (r: Option<usize>)
    ensures
        match target@.reference() {
            Some(t) => page_with_ref(page_models(pages@), t, 0) == match r {
                Some(n) => Some(n as int),
                None => None,
            },
            None => r is None,
        },
{
    let t: ObjRef = match target.as_reference() {
        Some(t) => t,
        None => {
            return None;
        },
    };
    let ghost ps = page_models(pages@);
    let mut i: usize = 0;
    while i < pages.len()
        invariant
            0 <= i <= pages@.len(),
            ps == page_models(pages@),
            target@.reference() == Some(t),
            page_with_ref(ps, t, 0) == page_with_ref(ps, t, i as int),
        decreases pages@.len() - i,
    {
        assert(ps[i as int] == pages@[i as int]@);
        match pages[i].object_ref {
            Some(p) => {
                if p == t {
                    return Some(pages[i].index);
                }
            },
            None => {},
        }
        i += 1;
    }
    None
}

fn read_title(d: &Dictionary) -> (r: String)
    ensures
        r@ == entry_title(d@),
{
    let text: Option<String> = match d.get("Title") {
        Some(o) => o.as_text_string(),
        None => None,
    };
    match text {
        Some(t) => t,
        None => {
            let r = String::new();
            assert(r@ =~= seq![]);
            r
        },
    }
}

fn read_page(d: &Dictionary, pages: &[Page]) -> (r: Option<usize>)
    ensures
        entry_page(d@, page_models(pages@)) == match r {
            Some(n) => Some(n as int),
            None => None,
        },
{
    match d.get("Dest") {
        Some(Object::Array(items)) => {
            if items.len() == 0 {
                return None;
            }
            assert(d@["Dest"@]->Array_0[0] == items@[0]@);
            resolve_page_index(&items[0], pages)
        },
        _ => None,
    }
}

impl Document {
    /// The table of contents; empty where there is none.
    pub fn outline(&self) -> (r: Result<Vec<OutlineItem>, PdfError>)
        ensures
            match outline_of(self@) {
                Ok(items) => r is Ok && outline_models(r->Ok_0@) == items,
                Err(e) => r is Err && r->Err_0@ == e,
            },
    {
        let none: Vec<OutlineItem> = Vec::new();
        assert(outline_models(none@) =~= seq![]);
        let root = match self.root() {
            Ok(d) => d,
            Err(e) => {
                return Err(e);
            },
        };
        let outlines = match root.get("Outlines") {
            None => {
                return Ok(none);
            },
            Some(o) => match self.get(o) {
                Ok(m) => m,
                Err(e) => {
                    return Err(e);
                },
            },
        };
        let first = match outlines.as_dict() {
            None => {
                return Ok(none);
            },
            Some(d) => match d.get("First") {
                None => {
                    return Ok(none);
                },
                Some(o) => o,
            },
        };
        let pages = match self.pages() {
            Ok(p) => p,
            Err(e) => {
                return Err(e);
            },
        };
        let mut visited = RefSet::new();
        self.collect_outline_siblings(first, pages.as_slice(), &mut visited)
    }

    /// An entry and those that follow it, each with those below it.
    pub fn collect_outline_siblings(
        &self,
        first_obj: &Object,
        pages: &[Page],
        visited: &mut RefSet,
    ) -> (r: Result<Vec<OutlineItem>, PdfError>)
        ensures
            match entries_at(self@, page_models(pages@), first_obj@, old(visited)@, seq![]) {
                Ok((items, seen)) => {
                    &&& r is Ok
                    &&& outline_models(r->Ok_0@) == items
                    &&& final(visited)@ == seen
                },
                Err(e) => r is Err && r->Err_0@ == e,
            },
        decreases unmarked(old(visited)@), first_obj@,
    {
        let ghost ps = page_models(pages@);
        let ghost goal = entries_at(self@, ps, first_obj@, visited@, seq![]);
        let mut items: Vec<OutlineItem> = Vec::new();
        assert(outline_models(items@) =~= seq![]);
        let mut current = first_obj.clone();
        loop
            invariant
                ps == page_models(pages@),
                goal == entries_at(self@, ps, first_obj@, old(visited)@, seq![]),
                goal == entries_at(self@, ps, current@, visited@, outline_models(items@)),
                unmarked(visited@) < unmarked(old(visited)@) || (unmarked(visited@) == unmarked(
                    old(visited)@,
                ) && (current@ == first_obj@ || decreases_to!(first_obj@ => current@))),
            decreases unmarked(visited@), current@,
        {
            proof {
                following_shrinks(current@, visited@);
            }
            let ghost before = visited@;
            match &current {
                Object::Reference(r) => {
                    if !visited.insert(*r) {
                        assert(visited@ =~= before);
                        return Ok(items);
                    }
                },
                _ => {},
            }
            let ghost seen = visited@;
            let node = match self.get(&current) {
                Ok(m) => m,
                Err(e) => {
                    return Err(e);
                },
            };
            let d = match node.as_dict() {
                Some(d) => d,
                None => {
                    return Ok(items);
                },
            };
            proof {
                d.is_finite();
                if let Some(first) = entry(d@, "First"@) {
                    entries_grow(self@, ps, first, seen, seq![]);
                    if let Ok((children, seen2)) = entries_at(self@, ps, first, seen, seq![]) {
                        marks_shrink(seen, seen2);
                    }
                }
            }
            let title = read_title(d);
            let page_index = read_page(d, pages);
            let children = match d.get("First") {
                Some(first) => match self.collect_outline_siblings(first, pages, visited) {
                    Ok(c) => c,
                    Err(e) => {
                        return Err(e);
                    },
                },
                None => {
                    let c: Vec<OutlineItem> = Vec::new();
                    assert(outline_models(c@) =~= seq![]);
                    c
                },
            };
            let ghost done = outline_models(items@);
            let item = OutlineItem { title, page_index, children };
            assert(item@.children =~= outline_models(children@));
            items.push(item);
            assert(outline_models(items@) =~= done.push(item@));
            match d.get("Next") {
                Some(next) => {
                    current = next.clone();
                },
                None => {
                    return Ok(items);
                },
            }
        }
    }
}

} // verus!
