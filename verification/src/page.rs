//! The pages of a document: the leaves of a tree, with what they inherit from it.
use vstd::prelude::*;
use crate::document::{DocModel, Document};
use crate::error::{ErrorModel, Expected, PdfError, Problem};
use crate::filters::{decode_stream, stream_decoded};
use crate::marks::{mark_shrinks, marks_shrink, unmarked, RefSet};
use crate::object::{entry, models, DictModel, Dictionary, ObjRef, Object, ObjectModel};

verus! {

/// A page, with what it inherits.
pub ghost struct PageModel {
    pub index: int,
    pub object_ref: Option<ObjRef>,
    pub dict: DictModel,
    pub media_box: Seq<i64>,
    pub rotate: i32,
    pub resources: DictModel,
}

/// What a node hands down to those below it.
pub ghost struct Heritage {
    pub resources: Option<ObjectModel>,
    pub media_box: Option<ObjectModel>,
    pub rotate: Option<i64>,
}

/// The pages that were found, and the references that were followed.
pub ghost struct Walk {
    pub pages: Seq<PageModel>,
    pub visited: Set<ObjRef>,
}

/// What a node hands down, with what was handed down to it.
pub open spec fn handed_down(h: Heritage, d: DictModel) -> Heritage {
    Heritage {
        resources: match entry(d, "Resources"@) {
            Some(o) => Some(o),
            None => h.resources,
        },
        media_box: match entry(d, "MediaBox"@) {
            Some(o) => Some(o),
            None => h.media_box,
        },
        rotate: match entry(d, "Rotate"@) {
            Some(o) => match o.integer() {
                Some(n) => Some(n),
                None => h.rotate,
            },
            None => h.rotate,
        },
    }
}

/// A number of a rectangle: cut off at the point, and 0 where it is none.
pub open spec fn rect_number(o: ObjectModel) -> i64 {
    match o.integer() {
        Some(n) => n,
        None => 0,
    }
}

/// A rectangle of four numbers.
pub open spec fn rectangle(doc: DocModel, o: ObjectModel) -> Result<Seq<i64>, ErrorModel> {
    match doc.got(o) {
        Err(e) => Err(e),
        Ok(m) => match m.array() {
            None => Err(ErrorModel::UnexpectedType(Expected::Array)),
            Some(items) => if items.len() != 4 {
                Err(ErrorModel::UnexpectedType(Expected::FourNumbers))
            } else {
                Ok(items.map_values(|x: ObjectModel| rect_number(x)))
            },
        },
    }
}

/// The size of a page that says nothing of it.
pub open spec fn letter() -> Seq<i64> {
    seq![0, 0, 612, 792]
}

pub open spec fn page_box(doc: DocModel, h: Heritage) -> Seq<i64> {
    match h.media_box {
        Some(o) => match rectangle(doc, o) {
            Ok(b) => b,
            Err(_) => letter(),
        },
        None => letter(),
    }
}

pub open spec fn page_resources(doc: DocModel, h: Heritage) -> Result<DictModel, ErrorModel> {
    match h.resources {
        Some(o) => match doc.got(o) {
            Err(e) => Err(e),
            Ok(m) => match m.dict() {
                Some(d) => Ok(d),
                None => Ok(Map::empty()),
            },
        },
        None => Ok(Map::empty()),
    }
}

/// The low 32 bits of a number, with their sign.
pub open spec fn low_i32(n: i64) -> i32 {
    let m = n as int % 0x1_0000_0000;
    if m >= 0x8000_0000 {
        (m - 0x1_0000_0000) as i32
    } else {
        m as i32
    }
}

/// A leaf of the tree is a page more.
pub open spec fn leaf(
    doc: DocModel,
    object_ref: Option<ObjRef>,
    d: DictModel,
    h: Heritage,
    w: Walk,
) -> Result<Walk, ErrorModel> {
    match page_resources(doc, h) {
        Err(e) => Err(e),
        Ok(resources) => Ok(
            Walk {
                pages: w.pages.push(
                    PageModel {
                        index: w.pages.len() as int,
                        object_ref,
                        dict: d,
                        media_box: page_box(doc, h),
                        rotate: match h.rotate {
                            Some(n) => low_i32(n),
                            None => 0,
                        },
                        resources,
                    },
                ),
                visited: w.visited,
            },
        ),
    }
}

pub open spec fn is_pages_node(d: DictModel) -> bool {
    entry(d, "Type"@) == Some(ObjectModel::Name("Pages"@))
}

/// The set with what a reference means, where `o` is one.
pub open spec fn marked(s: Set<ObjRef>, o: ObjectModel) -> Set<ObjRef> {
    match o {
        ObjectModel::Reference(r) => s.insert(r),
        _ => s,
    }
}

/// `o` is a reference that is in the set.
pub open spec fn is_marked(s: Set<ObjRef>, o: ObjectModel) -> bool {
    match o {
        ObjectModel::Reference(r) => s.contains(r),
        _ => false,
    }
}

/// The pages at and below a node. A reference to a node that was visited is passed over, and so
/// is what is not a dictionary. `open` holds the references to lists of kids that were followed
/// since the last node that had a reference: one that comes again would never end.
pub open spec fn pages_at(
    doc: DocModel,
    node: ObjectModel,
    h: Heritage,
    open: Set<ObjRef>,
    w: Walk,
) -> Result<Walk, ErrorModel>
    decreases unmarked(w.visited), unmarked(open), node, 0nat,
    via pages_at_shrinks
{
    if is_marked(w.visited, node) {
        Ok(w)
    } else {
        let w1 = Walk { pages: w.pages, visited: marked(w.visited, node) };
        let open1 = if node is Reference {
            Set::empty()
        } else {
            open
        };
        match doc.got(node) {
            Err(e) => Err(e),
            Ok(m) => match m.dict() {
                None => Ok(w1),
                Some(d) => if !is_pages_node(d) {
                    leaf(doc, node.reference(), d, handed_down(h, d), w1)
                } else {
                    match entry(d, "Kids"@) {
                        None => Ok(w1),
                        Some(kids) => if is_marked(open1, kids) || !d.dom().finite() {
                            Ok(w1)
                        } else {
                            match doc.got(kids) {
                                Err(e) => Err(e),
                                Ok(k) => match k.array() {
                                    None => Ok(w1),
                                    Some(items) => pages_of(
                                        doc,
                                        items,
                                        0,
                                        handed_down(h, d),
                                        marked(open1, kids),
                                        w1,
                                    ),
                                },
                            }
                        },
                    }
                },
            },
        }
    }
}

/// The pages of the kids from the `i`-th on.
pub open spec fn pages_of(
    doc: DocModel,
    items: Seq<ObjectModel>,
    i: nat,
    h: Heritage,
    open: Set<ObjRef>,
    w: Walk,
) -> Result<Walk, ErrorModel>
    decreases unmarked(w.visited), unmarked(open), items, items.len() - i,
{
    if i >= items.len() {
        Ok(w)
    } else {
        match pages_at(doc, items[i as int], h, open, w) {
            Err(e) => Err(e),
            Ok(w1) => if unmarked(w1.visited) <= unmarked(w.visited) {
                pages_of(doc, items, i + 1, h, open, w1)
            } else {
                Ok(w1)
            },
        }
    }
}

#[via_fn]
proof fn pages_at_shrinks(
    doc: DocModel,
    node: ObjectModel,
    h: Heritage,
    open: Set<ObjRef>,
    w: Walk,
) {
    node_shrinks(node, open, w);
}

/// A reference that is followed leaves fewer to follow.
proof fn node_shrinks(node: ObjectModel, open: Set<ObjRef>, w: Walk)
    ensures
        node is Reference && !is_marked(w.visited, node) ==> unmarked(marked(w.visited, node))
            < unmarked(w.visited),
        match node.dict() {
            Some(d) => match entry(d, "Kids"@) {
                Some(kids) => kids is Reference && !is_marked(open, kids) ==> unmarked(
                    marked(open, kids),
                ) < unmarked(open),
                None => true,
            },
            None => true,
        },
{
    if let ObjectModel::Reference(r) = node {
        if !w.visited.contains(r) {
            mark_shrinks(w.visited, r);
        }
    }
    if let Some(d) = node.dict() {
        if let Some(ObjectModel::Reference(k)) = entry(d, "Kids"@) {
            if !open.contains(k) {
                mark_shrinks(open, k);
            }
        }
    }
}

/// Where the tree hangs.
pub open spec fn page_tree(doc: DocModel) -> Result<ObjectModel, ErrorModel> {
    match doc.root() {
        Err(e) => Err(e),
        Ok(root) => match entry(root, "Pages"@) {
            Some(o) => Ok(o),
            None => Err(ErrorModel::MissingKey("Pages"@)),
        },
    }
}

/// The pages of a document, in order.
pub open spec fn pages_in(doc: DocModel) -> Result<Seq<PageModel>, ErrorModel> {
    match page_tree(doc) {
        Err(e) => Err(e),
        Ok(node) => match pages_at(
            doc,
            node,
            Heritage { resources: None, media_box: None, rotate: None },
            Set::empty(),
            Walk { pages: seq![], visited: Set::empty() },
        ) {
            Ok(w) => Ok(w.pages),
            Err(e) => Err(e),
        },
    }
}

/// The pages found before stay, and references stay marked.
proof fn walk_grows(doc: DocModel, node: ObjectModel, h: Heritage, open: Set<ObjRef>, w: Walk)
    ensures
        pages_at(doc, node, h, open, w) is Ok ==> w.visited.subset_of(
            pages_at(doc, node, h, open, w)->Ok_0.visited,
        ),
    decreases unmarked(w.visited), unmarked(open), node, 0nat,
{
    if !is_marked(w.visited, node) {
        let w1 = Walk { pages: w.pages, visited: marked(w.visited, node) };
        let open1 = if node is Reference {
            Set::empty()
        } else {
            open
        };
        node_shrinks(node, open, w);
        if let Ok(m) = doc.got(node) {
            if let Some(d) = m.dict() {
                if is_pages_node(d) {
                    if let Some(kids) = entry(d, "Kids"@) {
                        if !is_marked(open1, kids) && d.dom().finite() {
                            if let Ok(k) = doc.got(kids) {
                                if let Some(items) = k.array() {
                                    kids_grow(
                                        doc,
                                        items,
                                        0,
                                        handed_down(h, d),
                                        marked(open1, kids),
                                        w1,
                                    );
                                }
                            }
                        }
                    }
                }
            }
        }
    }
}

proof fn kids_grow(
    doc: DocModel,
    items: Seq<ObjectModel>,
    i: nat,
    h: Heritage,
    open: Set<ObjRef>,
    w: Walk,
)
    ensures
        pages_of(doc, items, i, h, open, w) is Ok ==> w.visited.subset_of(
            pages_of(doc, items, i, h, open, w)->Ok_0.visited,
        ),
    decreases unmarked(w.visited), unmarked(open), items, items.len() - i,
{
    if i < items.len() {
        walk_grows(doc, items[i as int], h, open, w);
        if let Ok(w1) = pages_at(doc, items[i as int], h, open, w) {
            marks_shrink(w.visited, w1.visited);
            kids_grow(doc, items, i + 1, h, open, w1);
        }
    }
}

/// All boxes have four numbers.
#[verifier::opaque]
pub open spec fn boxes_have_four(pages: Seq<PageModel>) -> bool {
    forall|i: int| 0 <= i < pages.len() ==> (#[trigger] pages[i]).media_box.len() == 4
}

proof fn leaf_boxes(doc: DocModel, object_ref: Option<ObjRef>, d: DictModel, h: Heritage, w: Walk)
    requires
        boxes_have_four(w.pages),
    ensures
        leaf(doc, object_ref, d, h, w) is Ok ==> boxes_have_four(
            leaf(doc, object_ref, d, h, w)->Ok_0.pages,
        ),
{
    reveal(boxes_have_four);
    assert(page_box(doc, h).len() == 4);
}

proof fn walk_boxes(doc: DocModel, node: ObjectModel, h: Heritage, open: Set<ObjRef>, w: Walk)
    requires
        boxes_have_four(w.pages),
    ensures
        pages_at(doc, node, h, open, w) is Ok ==> boxes_have_four(
            pages_at(doc, node, h, open, w)->Ok_0.pages,
        ),
    decreases unmarked(w.visited), unmarked(open), node, 0nat,
{
    if !is_marked(w.visited, node) {
        let w1 = Walk { pages: w.pages, visited: marked(w.visited, node) };
        let open1 = if node is Reference {
            Set::empty()
        } else {
            open
        };
        node_shrinks(node, open, w);
        if let Ok(m) = doc.got(node) {
            if let Some(d) = m.dict() {
                if !is_pages_node(d) {
                    leaf_boxes(doc, node.reference(), d, handed_down(h, d), w1);
                } else {
                    if let Some(kids) = entry(d, "Kids"@) {
                        if !is_marked(open1, kids) && d.dom().finite() {
                            if let Ok(k) = doc.got(kids) {
                                if let Some(items) = k.array() {
                                    kids_boxes(
                                        doc,
                                        items,
                                        0,
                                        handed_down(h, d),
                                        marked(open1, kids),
                                        w1,
                                    );
                                }
                            }
                        }
                    }
                }
            }
        }
    }
}

proof fn kids_boxes(
    doc: DocModel,
    items: Seq<ObjectModel>,
    i: nat,
    h: Heritage,
    open: Set<ObjRef>,
    w: Walk,
)
    requires
        boxes_have_four(w.pages),
    ensures
        pages_of(doc, items, i, h, open, w) is Ok ==> boxes_have_four(
            pages_of(doc, items, i, h, open, w)->Ok_0.pages,
        ),
    decreases unmarked(w.visited), unmarked(open), items, items.len() - i,
{
    if i < items.len() {
        walk_boxes(doc, items[i as int], h, open, w);
        if let Ok(w1) = pages_at(doc, items[i as int], h, open, w) {
            if unmarked(w1.visited) <= unmarked(w.visited) {
                kids_boxes(doc, items, i + 1, h, open, w1);
            }
        }
    }
}

/// The box of every page has four numbers.
pub proof fn pages_have_boxes(doc: DocModel)
    requires
        pages_in(doc) is Ok,
    ensures
        forall|i: int|
            0 <= i < pages_in(doc)->Ok_0.len() ==> (#[trigger] pages_in(
                doc,
            )->Ok_0[i]).media_box.len() == 4,
{
    reveal(boxes_have_four);
    walk_boxes(
        doc,
        page_tree(doc)->Ok_0,
        Heritage { resources: None, media_box: None, rotate: None },
        Set::empty(),
        Walk { pages: seq![], visited: Set::empty() },
    );
}

/// A page, with what it inherits from the tree.
#[derive(Debug)]
pub struct Page {
    pub index: usize,
    pub object_ref: Option<ObjRef>,
    pub dict: Dictionary,
    pub media_box: [i64; 4],
    pub rotate: i32,
    pub resources: Dictionary,
}

impl View for Page {
    type V = PageModel;

    open spec fn view(&self) -> PageModel {
        PageModel {
            index: self.index as int,
            object_ref: self.object_ref,
            dict: self.dict@,
            media_box: self.media_box@,
            rotate: self.rotate,
            resources: self.resources@,
        }
    }
}

/// Pages by what they say.
pub open spec fn page_models(s: Seq<Page>) -> Seq<PageModel> {
    s.map_values(|p: Page| p@)
}

/// What a node hands down.
struct Inherited {
    resources: Option<Object>,
    media_box: Option<Object>,
    rotate: Option<i64>,
}

spec fn option_model(o: Option<Object>) -> Option<ObjectModel> {
    match o {
        Some(x) => Some(x@),
        None => None,
    }
}

impl Inherited {
    spec fn model(&self) -> Heritage {
        Heritage {
            resources: option_model(self.resources),
            media_box: option_model(self.media_box),
            rotate: self.rotate,
        }
    }

    fn hand_down(&self, d: &Dictionary) -> (r: Inherited)
        ensures
            r.model() == handed_down(self.model(), d@),
    {
        let resources = match d.get("Resources") {
            Some(o) => Some(o.clone()),
            None => clone_option(&self.resources),
        };
        let media_box = match d.get("MediaBox") {
            Some(o) => Some(o.clone()),
            None => clone_option(&self.media_box),
        };
        let rotate: Option<i64> = match d.get("Rotate") {
            Some(o) => match o.as_int() {
                Some(n) => Some(n),
                None => self.rotate,
            },
            None => self.rotate,
        };
        Inherited { resources, media_box, rotate }
    }
}

fn clone_option(o: &Option<Object>) -> (r: Option<Object>)
    ensures
        option_model(r) == option_model(*o),
{
    match o {
        Some(x) => Some(x.clone()),
        None => None,
    }
}

fn to_i32(n: i64) -> (r: i32)
    ensures
        r == low_i32(n),
{
    let m: i128 = n as i128 % 0x1_0000_0000;
    let m: i128 = if m < 0 {
        m + 0x1_0000_0000
    } else {
        m
    };
    if m >= 0x8000_0000 {
        (m - 0x1_0000_0000) as i32
    } else {
        m as i32
    }
}

fn number_at(items: &[Object], i: usize) -> (r: i64)
    requires
        i < items@.len(),
    ensures
        r == rect_number(items@[i as int]@),
{
    match items[i].as_int() {
        Some(n) => n,
        None => 0,
    }
}

impl Document {
    fn resolve_rect(&self, obj: &Object) -> (r: Result<[i64; 4], PdfError>)
        ensures
            match rectangle(self@, obj@) {
                Ok(b) => r is Ok && r->Ok_0@ == b,
                Err(e) => r is Err && r->Err_0@ == e,
            },
    {
        match self.get(obj) {
            Err(e) => Err(e),
            Ok(m) => match m.as_array() {
                None => Err(PdfError::UnexpectedType(Expected::Array)),
                Some(items) => {
                    if items.len() != 4 {
                        return Err(PdfError::UnexpectedType(Expected::FourNumbers));
                    }
                    let r: [i64; 4] = [
                        number_at(items, 0),
                        number_at(items, 1),
                        number_at(items, 2),
                        number_at(items, 3),
                    ];
                    assert(r@ =~= models(items@).map_values(|x: ObjectModel| rect_number(x)));
                    Ok(r)
                },
            },
        }
    }

    fn box_of(&self, h: &Inherited) -> (r: [i64; 4])
        ensures
            r@ == page_box(self@, h.model()),
    {
        let default: [i64; 4] = [0, 0, 612, 792];
        assert(default@ =~= letter());
        match &h.media_box {
            Some(o) => match self.resolve_rect(o) {
                Ok(b) => b,
                Err(_) => default,
            },
            None => default,
        }
    }

    fn resources_of(&self, h: &Inherited) -> (r: Result<Dictionary, PdfError>)
        ensures
            match page_resources(self@, h.model()) {
                Ok(d) => r is Ok && r->Ok_0@ == d,
                Err(e) => r is Err && r->Err_0@ == e,
            },
    {
        match &h.resources {
            Some(o) => match self.get(o) {
                Err(e) => Err(e),
                Ok(m) => match m.as_dict() {
                    Some(d) => Ok(d.clone()),
                    None => Ok(Dictionary::new()),
                },
            },
            None => Ok(Dictionary::new()),
        }
    }

    /// The pages of the document, in order. A list of kids that leads back to a node that was
    /// visited is passed over.
    pub fn pages(&self) -> (r: Result<Vec<Page>, PdfError>)
        ensures
            match pages_in(self@) {
                Ok(ps) => r is Ok && page_models(r->Ok_0@) == ps,
                Err(e) => r is Err && r->Err_0@ == e,
            },
    {
        let root = match self.root() {
            Ok(d) => d,
            Err(e) => {
                return Err(e);
            },
        };
        match root.get("Pages") {
            None => Err(PdfError::MissingKey("Pages".to_owned())),
            Some(node) => {
                let mut out: Vec<Page> = Vec::new();
                let mut visited = RefSet::new();
                let h = Inherited { resources: None, media_box: None, rotate: None };
                let open: Vec<ObjRef> = Vec::new();
                assert(page_models(out@) =~= seq![]);
                assert(open@.to_set() =~= Set::empty());
                match self.collect_pages(node, &h, &open, &mut out, &mut visited) {
                    Ok(()) => Ok(out),
                    Err(e) => Err(e),
                }
            },
        }
    }

    fn collect_pages(
        &self,
        node: &Object,
        h: &Inherited,
        open: &Vec<ObjRef>,
        out: &mut Vec<Page>,
        visited: &mut RefSet,
    ) -> (r: Result<(), PdfError>)
        ensures
            match pages_at(
                self@,
                node@,
                h.model(),
                open@.to_set(),
                Walk { pages: page_models(old(out)@), visited: old(visited)@ },
            ) {
                Ok(w) => r is Ok && page_models(final(out)@) == w.pages && final(visited)@
                    == w.visited,
                Err(e) => r is Err && r->Err_0@ == e,
            },
        decreases unmarked(old(visited)@), unmarked(open@.to_set()), node@, 0nat,
    {
        let ghost w = Walk { pages: page_models(out@), visited: visited@ };
        proof {
            node_shrinks(node@, open@.to_set(), w);
        }
        let mut object_ref: Option<ObjRef> = None;
        let mut now: Vec<ObjRef> = Vec::new();
        match node {
            Object::Reference(r) => {
                if !visited.insert(*r) {
                    assert(visited@ =~= w.visited);
                    return Ok(());
                }
                object_ref = Some(*r);
                assert(now@.to_set() =~= Set::empty());
            },
            _ => {
                now = copy_refs(open);
            },
        }
        let ghost w1 = Walk { pages: w.pages, visited: visited@ };
        let ghost open1 = now@.to_set();
        let m = match self.get(node) {
            Ok(m) => m,
            Err(e) => {
                return Err(e);
            },
        };
        let d = match m.as_dict() {
            Some(d) => d,
            None => {
                return Ok(());
            },
        };
        proof {
            d.is_finite();
        }
        let below = h.hand_down(d);
        let inner: bool = match d.get("Type") {
            Some(t) => t.is_name("Pages"),
            None => false,
        };
        if !inner {
            return self.add_leaf(object_ref, d, &below, out);
        }
        let kids = match d.get("Kids") {
            Some(k) => k,
            None => {
                return Ok(());
            },
        };
        match kids {
            Object::Reference(k) => {
                if holds_ref(&now, *k) {
                    return Ok(());
                }
                let ghost before = now@;
                now.push(*k);
                assert(now@.to_set() =~= open1.insert(*k)) by {
                    assert forall|x: ObjRef| now@.contains(x) <==> before.contains(x) || x == *k by {
                        if before.contains(x) {
                            assert(now@[before.index_of(x)] == x);
                        }
                        if x == *k {
                            assert(now@[before.len() as int] == x);
                        }
                        if now@.contains(x) && x != *k {
                            assert(before[now@.index_of(x)] == x);
                        }
                    }
                }
            },
            _ => {},
        }
        let list = match self.get(kids) {
            Ok(k) => k,
            Err(e) => {
                return Err(e);
            },
        };
        let items = match list.as_array() {
            Some(items) => items,
            None => {
                return Ok(());
            },
        };
        let ghost ms = models(items@);
        let ghost goal = pages_of(self@, ms, 0, below.model(), now@.to_set(), w1);
        let mut i: usize = 0;
        while i < items.len()
            invariant
                0 <= i <= items@.len(),
                ms == models(items@),
                goal == pages_of(self@, ms, 0, below.model(), now@.to_set(), w1),
                goal == pages_of(
                    self@,
                    ms,
                    i as nat,
                    below.model(),
                    now@.to_set(),
                    Walk { pages: page_models(out@), visited: visited@ },
                ),
                unmarked(visited@) <= unmarked(w1.visited),
                goal == pages_at(self@, node@, h.model(), open@.to_set(), w),
                w == (Walk { pages: page_models(old(out)@), visited: old(visited)@ }),
                unmarked(w1.visited) < unmarked(w.visited) || (unmarked(w1.visited) == unmarked(
                    w.visited,
                ) && (unmarked(now@.to_set()) < unmarked(open@.to_set()) || (unmarked(
                    now@.to_set(),
                ) == unmarked(open@.to_set()) && decreases_to!(node@ => ms)))),
            decreases items@.len() - i,
        {
            let ghost here = Walk { pages: page_models(out@), visited: visited@ };
            proof {
                assert(ms[i as int] == items@[i as int]@);
                walk_grows(self@, ms[i as int], below.model(), now@.to_set(), here);
                if let Ok(next) = pages_at(
                    self@,
                    ms[i as int],
                    below.model(),
                    now@.to_set(),
                    here,
                ) {
                    marks_shrink(here.visited, next.visited);
                }
            }
            match self.collect_pages(&items[i], &below, &now, out, visited) {
                Ok(()) => {},
                Err(e) => {
                    return Err(e);
                },
            }
            i += 1;
        }
        Ok(())
    }

    fn add_leaf(
        &self,
        object_ref: Option<ObjRef>,
        d: &Dictionary,
        h: &Inherited,
        out: &mut Vec<Page>,
    ) -> (r: Result<(), PdfError>)
        ensures
            forall|visited: Set<ObjRef>|
                match #[trigger] leaf(
                    self@,
                    object_ref,
                    d@,
                    h.model(),
                    Walk { pages: page_models(old(out)@), visited },
                ) {
                    Ok(w) => r is Ok && page_models(final(out)@) == w.pages && w.visited == visited,
                    Err(e) => r is Err && r->Err_0@ == e,
                },
    {
        let resources = match self.resources_of(h) {
            Ok(d) => d,
            Err(e) => {
                return Err(e);
            },
        };
        let rotate: i32 = match h.rotate {
            Some(n) => to_i32(n),
            None => 0,
        };
        let ghost before = page_models(out@);
        let page = Page {
            index: out.len(),
            object_ref,
            dict: d.clone(),
            media_box: self.box_of(h),
            rotate,
            resources,
        };
        out.push(page);
        assert(page_models(out@) =~= before.push(page@));
        Ok(())
    }
}

fn copy_refs(refs: &Vec<ObjRef>) -> (r: Vec<ObjRef>)
    ensures
        r@ == refs@,
{
    let mut r: Vec<ObjRef> = Vec::new();
    let mut i: usize = 0;
    while i < refs.len()
        invariant
            0 <= i <= refs@.len(),
            r@ == refs@.take(i as int),
        decreases refs@.len() - i,
    {
        r.push(refs[i]);
        i += 1;
        assert(r@ =~= refs@.take(i as int));
    }
    assert(r@ =~= refs@);
    r
}

fn holds_ref(refs: &Vec<ObjRef>, x: ObjRef) -> (r: bool)
    ensures
        r == refs@.to_set().contains(x),
{
    let mut i: usize = 0;
    while i < refs.len()
        invariant
            0 <= i <= refs@.len(),
            forall|j: int| 0 <= j < i ==> #[trigger] refs@[j] != x,
        decreases refs@.len() - i,
    {
        if refs[i] == x {
            assert(refs@[i as int] == x);
            return true;
        }
        i += 1;
    }
    false
}

/// The decoded streams of `objects` from the `i`-th on, each with a line end, behind `acc`. What
/// is not a stream is passed over.
pub open spec fn joined_streams(objects: Seq<ObjectModel>, i: nat, acc: Seq<u8>) -> Result<
    Seq<u8>,
    ErrorModel,
>
    decreases objects.len() - i,
{
    if i >= objects.len() {
        Ok(acc)
    } else {
        match objects[i as int] {
            ObjectModel::Stream(d, raw) => match stream_decoded(d, raw) {
                Err(e) => Err(e),
                Ok(bytes) => joined_streams(objects, i + 1, (acc + bytes).push(10)),
            },
            _ => joined_streams(objects, i + 1, acc),
        }
    }
}

/// What the items from the `i`-th on mean, behind `acc`.
pub open spec fn all_got(
    doc: DocModel,
    items: Seq<ObjectModel>,
    i: nat,
    acc: Seq<ObjectModel>,
) -> Result<Seq<ObjectModel>, ErrorModel>
    decreases items.len() - i,
{
    if i >= items.len() {
        Ok(acc)
    } else {
        match doc.got(items[i as int]) {
            Err(e) => Err(e),
            Ok(o) => all_got(doc, items, i + 1, acc.push(o)),
        }
    }
}

/// The content of a page: that of its stream, or of its streams one behind the other.
pub open spec fn content_of(doc: DocModel, d: DictModel) -> Result<Seq<u8>, ErrorModel> {
    match entry(d, "Contents"@) {
        None => Ok(seq![]),
        Some(o) => match doc.got(o) {
            Err(e) => Err(e),
            Ok(ObjectModel::Stream(sd, raw)) => joined_streams(
                seq![ObjectModel::Stream(sd, raw)],
                0,
                seq![],
            ),
            Ok(ObjectModel::Array(items)) => match all_got(doc, items, 0, seq![]) {
                Err(e) => Err(e),
                Ok(objects) => joined_streams(objects, 0, seq![]),
            },
            Ok(_) => Err(ErrorModel::UnexpectedType(Expected::StreamOrArray)),
        },
    }
}

fn join_streams(objects: &Vec<Object>) -> (r: Result<Vec<u8>, PdfError>)
    ensures
        match joined_streams(models(objects@), 0, seq![]) {
            Ok(bytes) => r is Ok && r->Ok_0@ == bytes,
            Err(e) => r is Err && r->Err_0@ == e,
        },
{
    let ghost ms = models(objects@);
    let ghost goal = joined_streams(ms, 0, seq![]);
    let mut out: Vec<u8> = Vec::new();
    assert(out@ =~= seq![]);
    let mut i: usize = 0;
    while i < objects.len()
        invariant
            0 <= i <= objects@.len(),
            ms == models(objects@),
            goal == joined_streams(ms, 0, seq![]),
            goal == joined_streams(ms, i as nat, out@),
        decreases objects@.len() - i,
    {
        assert(ms[i as int] == objects@[i as int]@);
        match &objects[i] {
            Object::Stream(s) => match decode_stream(s) {
                Err(e) => {
                    return Err(e);
                },
                Ok(bytes) => {
                    let ghost before = out@;
                    out.extend_from_slice(bytes.as_slice());
                    out.push(10);
                    assert(out@ =~= (before + bytes@).push(10));
                },
            },
            _ => {},
        }
        i += 1;
    }
    Ok(out)
}

impl Document {
    /// The page with an index, counted from 0.
    pub fn page(&self, index: usize) -> (r: Result<Page, PdfError>)
        ensures
            match pages_in(self@) {
                Ok(ps) => if index < ps.len() {
                    r is Ok && r->Ok_0@ == ps[index as int]
                } else {
                    r is Err && r->Err_0@ == ErrorModel::InvalidObject(0, Problem::NoSuchPage)
                },
                Err(e) => r is Err && r->Err_0@ == e,
            },
    {
        match self.pages() {
            Err(e) => Err(e),
            Ok(mut pages) => {
                if index < pages.len() {
                    let ghost ps = page_models(pages@);
                    let page = pages.swap_remove(index);
                    assert(page@ == ps[index as int]);
                    Ok(page)
                } else {
                    Err(PdfError::InvalidObject(0, Problem::NoSuchPage))
                }
            },
        }
    }

    /// How many pages the tree has, whatever it says of their count.
    pub fn page_count(&self) -> (r: Result<usize, PdfError>)
        ensures
            match pages_in(self@) {
                Ok(ps) => r is Ok && r->Ok_0 == ps.len(),
                Err(e) => r is Err && r->Err_0@ == e,
            },
    {
        match self.pages() {
            Err(e) => Err(e),
            Ok(pages) => Ok(pages.len()),
        }
    }

    /// The content of a page, decoded.
    pub fn page_content(&self, page: &Page) -> (r: Result<Vec<u8>, PdfError>)
        ensures
            match content_of(self@, page@.dict) {
                Ok(bytes) => r is Ok && r->Ok_0@ == bytes,
                Err(e) => r is Err && r->Err_0@ == e,
            },
    {
        let contents = match page.dict.get("Contents") {
            None => {
                let none: Vec<u8> = Vec::new();
                assert(none@ =~= seq![]);
                return Ok(none);
            },
            Some(o) => match self.get(o) {
                Ok(m) => m,
                Err(e) => {
                    return Err(e);
                },
            },
        };
        match contents {
            Object::Stream(s) => {
                let mut list: Vec<Object> = Vec::new();
                list.push(Object::Stream(s));
                assert(models(list@) =~= seq![contents@]);
                join_streams(&list)
            },
            Object::Array(items) => {
                let ghost ms = contents@->Array_0;
                let ghost goal = all_got(self@, ms, 0, seq![]);
                let mut list: Vec<Object> = Vec::new();
                assert(models(list@) =~= seq![]);
                let mut i: usize = 0;
                while i < items.len()
                    invariant
                        0 <= i <= items@.len(),
                        ms.len() == items@.len(),
                        forall|j: int| 0 <= j < ms.len() ==> ms[j] == (#[trigger] items@[j])@,
                        goal == all_got(self@, ms, 0, seq![]),
                        goal == all_got(self@, ms, i as nat, models(list@)),
                        content_of(self@, page@.dict) == match goal {
                            Err(e) => Err(e),
                            Ok(objects) => joined_streams(objects, 0, seq![]),
                        },
                    decreases items@.len() - i,
                {
                    assert(ms[i as int] == items@[i as int]@);
                    match self.get(&items[i]) {
                        Err(e) => {
                            return Err(e);
                        },
                        Ok(o) => {
                            let ghost before = models(list@);
                            list.push(o);
                            assert(models(list@) =~= before.push(o@));
                        },
                    }
                    i += 1;
                }
                join_streams(&list)
            },
            _ => Err(PdfError::UnexpectedType(Expected::StreamOrArray)),
        }
    }
}

} // verus!
