//! Editing sessions: annotations, form fields and pages, with undo, redo and saving.
//!
//! A session never changes the document that it was opened on. It holds the objects that are not
//! saved yet. Objects that an edit made new stay when the edit is taken back: nothing refers to
//! them any more.
use std::collections::BTreeMap;
use vstd::prelude::*;
use crate::appearance::{build_text_appearance_content, corners, highlight_content, line_content, make_default_appearance, min_max, span};
use crate::copying::made_model;
use crate::document::{returns_object, Document};
use crate::edit_model::{annotated, annotation, annotation_added, annotations_of, annotations_set, appearance, applied, array_with, font_resources, form, helvetica, highlight_resources, highlight_state, highlighted, lined, micro, micros, one_change, overlaid, page_ref_at, quad_of, reference_items, references_in, restored, text_markup, unannotated, with_all_new, Change, EditError, EditFault, OpModel, Refusal, SessionModel, TreeModel};
use crate::error::PdfError;
use crate::number::Real;
use crate::object::{models, Dictionary, ObjRef, Object, ObjectModel, Stream};
use crate::save::{listed, objects_of, saved};
use crate::table::{empty_table, lists_numbers, lookup, numbers, put};

verus! {

/// An edit that can be undone: each object that it changed, as it was and as it is.
struct EditOp {
    modified: Vec<(u32, Object, Object)>,
    /// The node that all pages hang from since this edit.
    flattened: Option<ObjRef>,
}

/// Where all pages hang from one node: the node and the pages in order.
struct PageTreeState {
    pages_node_ref: ObjRef,
    order: Vec<ObjRef>,
}

pub struct EditSession {
    doc: Document,
    /// Objects that are not saved yet.
    pending: BTreeMap<u32, Object>,
    next_num: u32,
    undo_stack: Vec<EditOp>,
    redo_stack: Vec<EditOp>,
    page_tree: Option<PageTreeState>,
}

/// Objects by what they say.
spec fn pending_model(m: Map<u32, Object>) -> Map<u32, ObjectModel> {
    made_model(m)
}

/// What an edit changed by what it says.
pub open spec fn change_model(c: (u32, Object, Object)) -> Change {
    Change { num: c.0, before: c.1@, after: c.2@ }
}

pub open spec fn change_models(s: Seq<(u32, Object, Object)>) -> Seq<Change> {
    s.map_values(|c: (u32, Object, Object)| change_model(c))
}

spec fn op_model(op: EditOp) -> OpModel {
    OpModel { changes: change_models(op.modified@), flattened: op.flattened }
}

spec fn op_models(s: Seq<EditOp>) -> Seq<OpModel> {
    s.map_values(|op: EditOp| op_model(op))
}

spec fn tree_model(t: Option<PageTreeState>) -> Option<TreeModel> {
    match t {
        Some(t) => Some(TreeModel { node: t.pages_node_ref, order: t.order@ }),
        None => None,
    }
}

impl View for EditSession {
    type V = SessionModel;

    closed spec fn view(&self) -> SessionModel {
        SessionModel {
            doc: self.doc@,
            pending: pending_model(self.pending@),
            next: self.next_num as int,
            undo: op_models(self.undo_stack@),
            redo: op_models(self.redo_stack@),
            tree: tree_model(self.page_tree),
        }
    }
}

proof fn pending_insert(m: Map<u32, Object>, n: u32, o: Object)
    ensures
        pending_model(m.insert(n, o)) == pending_model(m).insert(n, o@),
{
    assert(pending_model(m.insert(n, o)) =~= pending_model(m).insert(n, o@));
}

pub(crate) fn refused<T>(r: Refusal) -> (e: Result<T, EditError>)
    ensures
        e is Err,
        e->Err_0@ == EditFault::Refused(r),
{
    Err(EditError::Refused(r))
}

/// The references among the items of an array.
pub(crate) fn filter_references(items: &[Object]) -> (r: Vec<ObjRef>)
    ensures
        r@ == references_in(models(items@), items@.len()),
{
    let ghost ms = models(items@);
    let mut r: Vec<ObjRef> = Vec::new();
    assert(r@ =~= seq![]);
    let mut i: usize = 0;
    while i < items.len()
        invariant
            0 <= i <= items@.len(),
            ms == models(items@),
            r@ == references_in(ms, i as nat),
        decreases items@.len() - i,
    {
        assert(ms[i as int] == items@[i as int]@);
        match &items[i] {
            Object::Reference(x) => {
                r.push(*x);
            },
            _ => {},
        }
        i += 1;
    }
    r
}

/// References as an array.
pub(crate) fn reference_array(refs: &Vec<ObjRef>) -> (r: Object)
    ensures
        r@ == ObjectModel::Array(reference_items(refs@)),
{
    let mut items: Vec<Object> = Vec::new();
    let mut i: usize = 0;
    while i < refs.len()
        invariant
            0 <= i <= refs@.len(),
            items@.len() == i,
            forall|j: int|
                0 <= j < i ==> (#[trigger] items@[j])@ == ObjectModel::Reference(refs@[j]),
        decreases refs@.len() - i,
    {
        items.push(Object::Reference(refs[i]));
        i += 1;
    }
    let r = Object::Array(items);
    assert(r@->Array_0 =~= reference_items(refs@));
    r
}

impl EditSession {
    /// Numbers in use are below the next one.
    pub open spec fn wf(&self) -> bool {
        self@.wf()
    }

    /// Opens a session on a document.
    pub fn open(data: Vec<u8>) -> (r: Result<Self, EditError>)
        ensures
            match crate::document::opened(data@, seq![]) {
                Err(e) => r is Err && r->Err_0@ == EditFault::Pdf(e),
                Ok(doc) => if doc.xref.contains_key(u32::MAX) {
                    r is Err && r->Err_0@ == EditFault::Refused(Refusal::NumbersUsedUp)
                } else {
                    &&& r is Ok
                    &&& r->Ok_0.wf()
                    &&& r->Ok_0@.doc == doc
                    &&& r->Ok_0@.pending == Map::<u32, ObjectModel>::empty()
                    &&& r->Ok_0@.undo == Seq::<OpModel>::empty()
                    &&& r->Ok_0@.redo == Seq::<OpModel>::empty()
                    &&& r->Ok_0@.tree is None
                    &&& crate::table::is_greatest(doc.xref, (r->Ok_0@.next - 1) as u32)
                },
            },
    {
        let doc = match Document::open(data) {
            Ok(d) => d,
            Err(e) => {
                return Err(EditError::Pdf(e));
            },
        };
        if !doc.has_free_object_num() {
            return refused(Refusal::NumbersUsedUp);
        }
        let next_num: u32 = doc.next_free_object_num();
        let r = EditSession {
            doc,
            pending: empty_table(),
            next_num,
            undo_stack: Vec::new(),
            redo_stack: Vec::new(),
            page_tree: None,
        };
        proof {
            assert(r@.pending =~= Map::empty());
            assert(r@.undo =~= Seq::empty());
            assert(r@.redo =~= Seq::empty());
            assert forall|n: u32| #[trigger] r@.doc.xref.contains_key(n) implies n < r@.next by {}
        }
        Ok(r)
    }

    /// The document that the session was opened on.
    pub fn document(&self) -> (r: &Document)
        ensures
            r@ == self@.doc,
    {
        &self.doc
    }

    /// An object as it is now.
    pub fn current(&self, num: u32) -> (r: Result<Object, PdfError>)
        ensures
            returns_object(r, self@.current(num)),
    {
        match lookup(&self.pending, num) {
            Some(o) => Ok(o.clone()),
            None => self.doc.resolve(ObjRef::new(num, 0)),
        }
    }

    pub fn can_undo(&self) -> (r: bool)
        ensures
            r == (self@.undo.len() > 0),
    {
        self.undo_stack.len() > 0
    }

    pub fn can_redo(&self) -> (r: bool)
        ensures
            r == (self@.redo.len() > 0),
    {
        self.redo_stack.len() > 0
    }

    /// Takes the order of the pages from the node that they hang from.
    fn refresh_page_tree_order(&mut self)
        ensures
            final(self)@ == old(self)@.refreshed(),
    {
        let node: ObjRef = match &self.page_tree {
            Some(t) => t.pages_node_ref,
            None => {
                return;
            },
        };
        let found: Option<Vec<ObjRef>> = match self.current(node.num) {
            Ok(o) => match o.as_dict() {
                Some(d) => match d.get("Kids") {
                    Some(k) => match k.as_array() {
                        Some(items) => Some(filter_references(items)),
                        None => None,
                    },
                    None => None,
                },
                None => None,
            },
            Err(_) => None,
        };
        match found {
            Some(order) => {
                self.page_tree = Some(PageTreeState { pages_node_ref: node, order });
            },
            None => {},
        }
    }

    /// Takes back the last edit; `false` where there is none.
    pub fn undo(&mut self) -> (r: bool)
        requires
            old(self).wf(),
        ensures
            final(self).wf(),
            r == (old(self)@.undo.len() > 0),
            final(self)@ == old(self)@.undone(),
    {
        let op = match self.undo_stack.pop() {
            Some(op) => op,
            None => {
                return false;
            },
        };
        let ghost start = old(self)@;
        let ghost changes = change_models(op.modified@);
        proof {
            assert(start.undo.last() == op_model(op));
            assert(op_models(self.undo_stack@) =~= start.undo.drop_last());
        }
        let mut i: usize = 0;
        while i < op.modified.len()
            invariant
                0 <= i <= op.modified@.len(),
                changes == change_models(op.modified@),
                self.doc == old(self).doc,
                self.next_num == old(self).next_num,
                self.undo_stack@ == old(self).undo_stack@.drop_last(),
                self.redo_stack@ == old(self).redo_stack@,
                self.page_tree == old(self).page_tree,
                pending_model(self.pending@) == restored(
                    pending_model(old(self).pending@),
                    changes,
                    i as nat,
                ),
            decreases op.modified@.len() - i,
        {
            let c = &op.modified[i];
            let before = c.1.clone();
            proof {
                assert(changes[i as int] == change_model(*c));
                pending_insert(self.pending@, c.0, before);
            }
            put(&mut self.pending, c.0, before);
            i += 1;
        }
        if op.flattened.is_some() {
            self.page_tree = None;
        }
        self.redo_stack.push(op);
        proof {
            assert(op_models(self.undo_stack@) =~= start.undo.drop_last());
            assert(op_models(self.redo_stack@) =~= start.redo.push(op_model(op)));
        }
        self.refresh_page_tree_order();
        proof {
            start.undone_wf();
        }
        true
    }

    /// Makes the edit again that was taken back last; `false` where there is none.
    pub fn redo(&mut self) -> (r: bool)
        requires
            old(self).wf(),
        ensures
            final(self).wf(),
            r == (old(self)@.redo.len() > 0),
            final(self)@ == old(self)@.redone(),
    {
        let op = match self.redo_stack.pop() {
            Some(op) => op,
            None => {
                return false;
            },
        };
        let ghost start = old(self)@;
        let ghost changes = change_models(op.modified@);
        proof {
            assert(start.redo.last() == op_model(op));
            assert(op_models(self.redo_stack@) =~= start.redo.drop_last());
        }
        let mut i: usize = 0;
        while i < op.modified.len()
            invariant
                0 <= i <= op.modified@.len(),
                changes == change_models(op.modified@),
                self.doc == old(self).doc,
                self.next_num == old(self).next_num,
                self.redo_stack@ == old(self).redo_stack@.drop_last(),
                self.undo_stack@ == old(self).undo_stack@,
                self.page_tree == old(self).page_tree,
                pending_model(self.pending@) == applied(
                    pending_model(old(self).pending@),
                    changes,
                    i as nat,
                ),
            decreases op.modified@.len() - i,
        {
            let c = &op.modified[i];
            let after = c.2.clone();
            proof {
                assert(changes[i as int] == change_model(*c));
                pending_insert(self.pending@, c.0, after);
            }
            put(&mut self.pending, c.0, after);
            i += 1;
        }
        match op.flattened {
            Some(node) => {
                let order: Vec<ObjRef> = Vec::new();
                assert(order@ =~= seq![]);
                self.page_tree = Some(PageTreeState { pages_node_ref: node, order });
            },
            None => {},
        }
        self.undo_stack.push(op);
        proof {
            assert(op_models(self.redo_stack@) =~= start.redo.drop_last());
            assert(op_models(self.undo_stack@) =~= start.undo.push(op_model(op)));
        }
        self.refresh_page_tree_order();
        proof {
            start.redone_wf();
        }
        true
    }
}

fn name_object(name: &str) -> (r: Object)
    ensures
        r@ == crate::edit_model::name_of(name@),
{
    Object::Name(name.to_owned())
}

/// A number of millionths.
fn micro_object(n: i128) -> (r: Object)
    requires
        n > i128::MIN,
    ensures
        r@ == micro(n as int),
{
    Object::Real(Real::from_scaled(n, 6))
}

/// An array of objects.
pub(crate) fn array_object(items: Vec<Object>) -> (r: Object)
    ensures
        r@ == ObjectModel::Array(models(items@)),
{
    let r = Object::Array(items);
    assert(r@->Array_0 =~= models(items@));
    r
}

/// Numbers of millionths.
fn micro_array(s: &[i64]) -> (r: Object)
    ensures
        r@ == micros(s@),
{
    let mut items: Vec<Object> = Vec::new();
    let mut i: usize = 0;
    while i < s.len()
        invariant
            0 <= i <= s@.len(),
            items@.len() == i,
            forall|j: int| 0 <= j < i ==> (#[trigger] items@[j])@ == micro(s@[j] as int),
        decreases s@.len() - i,
    {
        items.push(micro_object(s[i] as i128));
        i += 1;
    }
    proof {
        reveal(micros);
        assert(models(items@) =~= s@.map_values(|n: i64| micro(n as int)));
    }
    array_object(items)
}

pub(crate) fn ref_object(num: u32) -> (r: Object)
    ensures
        r@ == crate::edit_model::ref_to(num as int),
{
    Object::Reference(ObjRef::new(num, 0))
}

/// A form with a content and resources.
pub(crate) fn form_object(resources: Dictionary, width: i128, height: i128, content: Vec<u8>) -> (r: Object)
    requires
        width > i128::MIN,
        height > i128::MIN,
    ensures
        r@ == form(resources@, width as int, height as int, content@),
{
    let mut dict = Dictionary::new();
    dict.insert("Type", name_object("XObject"));
    dict.insert("Subtype", name_object("Form"));
    dict.insert("Resources", Object::Dictionary(resources));
    let mut items: Vec<Object> = Vec::new();
    items.push(Object::Integer(0));
    items.push(Object::Integer(0));
    items.push(micro_object(width));
    items.push(micro_object(height));
    proof {
        reveal(form);
        assert(models(items@) =~= seq![
            ObjectModel::Integer(0),
            ObjectModel::Integer(0),
            micro(width as int),
            micro(height as int),
        ]);
    }
    dict.insert("BBox", array_object(items));
    Object::Stream(Stream { dict, raw_data: content })
}

fn highlight_state_object() -> (r: Object)
    ensures
        r@ == highlight_state(),
{
    proof {
        reveal(highlight_state);
    }
    let mut dict = Dictionary::new();
    dict.insert("Type", name_object("ExtGState"));
    dict.insert("ca", micro_object(400_000));
    Object::Dictionary(dict)
}

fn highlight_resources_dict(state: u32) -> (r: Dictionary)
    ensures
        r@ == highlight_resources(state as int),
{
    proof {
        reveal(highlight_resources);
    }
    let mut states = Dictionary::new();
    states.insert("GS0", ref_object(state));
    let mut dict = Dictionary::new();
    dict.insert("ExtGState", Object::Dictionary(states));
    dict
}

pub(crate) fn font_resources_dict(font: u32) -> (r: Dictionary)
    ensures
        r@ == font_resources(font as int),
{
    proof {
        reveal(font_resources);
    }
    let mut fonts = Dictionary::new();
    fonts.insert("Helv", ref_object(font));
    let mut dict = Dictionary::new();
    dict.insert("Font", Object::Dictionary(fonts));
    dict
}

pub(crate) fn helvetica_object() -> (r: Object)
    ensures
        r@ == helvetica(),
{
    proof {
        reveal(helvetica);
    }
    let mut dict = Dictionary::new();
    dict.insert("Type", name_object("Font"));
    dict.insert("Subtype", name_object("Type1"));
    dict.insert("BaseFont", name_object("Helvetica"));
    dict.insert("Encoding", name_object("WinAnsiEncoding"));
    Object::Dictionary(dict)
}

pub(crate) fn appearance_object(form_num: u32) -> (r: Object)
    ensures
        r@ == appearance(form_num as int),
{
    proof {
        reveal(appearance);
    }
    let mut dict = Dictionary::new();
    dict.insert("N", ref_object(form_num));
    Object::Dictionary(dict)
}

/// What all annotations have.
fn annotation_dict(kind: &str, c: (i64, i64, i64, i64), form_num: u32) -> (r: Dictionary)
    ensures
        r@ == annotation(kind@, c, form_num as int),
{
    proof {
        reveal(annotation);
    }
    let mut dict = Dictionary::new();
    dict.insert("Type", name_object("Annot"));
    dict.insert("Subtype", name_object(kind));
    let rect: [i64; 4] = [c.0, c.1, c.2, c.3];
    assert(rect@ =~= seq![c.0, c.1, c.2, c.3]);
    dict.insert("Rect", micro_array(rect.as_slice()));
    dict.insert("AP", appearance_object(form_num));
    dict
}

/// An annotation that marks text.
fn markup_object(
    kind: &str,
    c: (i64, i64, i64, i64),
    quad: &[i64],
    color: &[i64; 3],
    form_num: u32,
) -> (r: Object)
    ensures
        r@ == text_markup(kind@, c, quad@, *color, form_num as int),
{
    proof {
        reveal(text_markup);
    }
    let mut dict = annotation_dict(kind, c, form_num);
    dict.insert("QuadPoints", micro_array(quad));
    dict.insert("C", micro_array(color.as_slice()));
    Object::Dictionary(dict)
}

fn corners_of(rect: &[i64; 4]) -> (c: (i64, i64, i64, i64))
    ensures
        c == corners(*rect),
{
    let (x0, x1) = min_max(rect[0], rect[2]);
    let (y0, y1) = min_max(rect[1], rect[3]);
    (x0, y0, x1, y1)
}

impl EditSession {
    /// Adds a new object under the next number.
    fn add_new(&mut self, o: Object)
        requires
            old(self)@.has_room(1),
        ensures
            final(self)@ == old(self)@.with_new(o@),
    {
        let num: u32 = self.next_num;
        proof {
            pending_insert(self.pending@, num, o);
        }
        put(&mut self.pending, num, o);
        self.next_num = num + 1;
    }

    /// Adds new objects one after the other.
    pub(crate) fn add_all_new(&mut self, news: Vec<Object>)
        requires
            old(self)@.has_room(news@.len() as int),
        ensures
            final(self)@ == with_all_new(old(self)@, models(news@), news@.len()),
    {
        let ghost start = self@;
        let ghost ms = models(news@);
        let mut news = news;
        let mut i: usize = 0;
        let n: usize = news.len();
        let ghost all = news@;
        while i < n
            invariant
                0 <= i <= n,
                n == all.len(),
                news@.len() == n - i,
                forall|j: int| 0 <= j < n - i ==> #[trigger] news@[j] == all[i + j],
                ms == models(all),
                start.has_room(n as int),
                self@ == with_all_new(start, ms, i as nat),
                self@.next == start.next + i,
            decreases n - i,
        {
            let o = news.remove(0);
            assert(o == all[i as int]);
            assert(ms[i as int] == o@);
            self.add_new(o);
            i += 1;
        }
    }

    /// Makes the changes of an edit.
    fn commit(&mut self, op: EditOp)
        ensures
            final(self)@ == old(self)@.committed(op_model(op)),
    {
        let ghost start = self@;
        let ghost changes = change_models(op.modified@);
        let mut i: usize = 0;
        while i < op.modified.len()
            invariant
                0 <= i <= op.modified@.len(),
                changes == change_models(op.modified@),
                self.doc == old(self).doc,
                self.next_num == old(self).next_num,
                self.undo_stack@ == old(self).undo_stack@,
                self.redo_stack@ == old(self).redo_stack@,
                self.page_tree == old(self).page_tree,
                pending_model(self.pending@) == applied(
                    pending_model(old(self).pending@),
                    changes,
                    i as nat,
                ),
            decreases op.modified@.len() - i,
        {
            let c = &op.modified[i];
            let after = c.2.clone();
            proof {
                assert(changes[i as int] == change_model(*c));
                pending_insert(self.pending@, c.0, after);
            }
            put(&mut self.pending, c.0, after);
            i += 1;
        }
        self.undo_stack.push(op);
        self.redo_stack = Vec::new();
        proof {
            assert(op_models(self.undo_stack@) =~= start.undo.push(op_model(op)));
            assert(op_models(self.redo_stack@) =~= seq![]);
        }
    }

    /// The reference of a page of the document.
    fn page_ref(&self, index: usize) -> (r: Result<ObjRef, EditError>)
        ensures
            match page_ref_at(self@.doc, index as int) {
                Ok(p) => r is Ok && r->Ok_0 == p,
                Err(e) => r is Err && r->Err_0@ == e,
            },
    {
        match self.doc.page(index) {
            Err(e) => Err(EditError::Pdf(e)),
            Ok(page) => match page.object_ref {
                Some(p) => Ok(p),
                None => refused(Refusal::PageHasNoReference),
            },
        }
    }

    /// The change that puts an annotation on a page.
    fn plan_annotation(&self, page: ObjRef, annot: ObjRef) -> (r: Result<
        (u32, Object, Object),
        EditError,
    >)
        ensures
            match annotation_added(self@, page, annot) {
                Ok(c) => r is Ok && change_model(r->Ok_0) == c,
                Err(e) => r is Err && r->Err_0@ == e,
            },
    {
        let object = match self.current(page.num) {
            Ok(o) => o,
            Err(e) => {
                return Err(EditError::Pdf(e));
            },
        };
        let mut dict = match object.as_dict() {
            Some(d) => d.clone(),
            None => {
                return refused(Refusal::PageIsNotADictionary);
            },
        };
        let shared: Option<u32> = match dict.get("Annots") {
            Some(Object::Reference(r)) => Some(r.num),
            _ => None,
        };
        match shared {
            Some(num) => {
                let before = match self.current(num) {
                    Ok(o) => o,
                    Err(e) => {
                        return Err(EditError::Pdf(e));
                    },
                };
                let after = extended(&before, annot);
                Ok((num, before, after))
            },
            None => {
                let list = match dict.get("Annots") {
                    Some(o) => extended(o, annot),
                    None => extended(&Object::Null, annot),
                };
                dict.insert("Annots", list);
                Ok((page.num, object, Object::Dictionary(dict)))
            },
        }
    }

    /// Puts the last of some new objects on a page as an annotation.
    fn annotate(&mut self, page: ObjRef, news: Vec<Object>) -> (r: Result<(), EditError>)
        requires
            old(self).wf(),
            0 < news@.len() <= 3,
        ensures
            final(self).wf(),
            match annotated(old(self)@, page, models(news@)) {
                Ok(s) => r is Ok && final(self)@ == s,
                Err(e) => r is Err && r->Err_0@ == e && final(self)@ == old(self)@,
            },
    {
        let n: u32 = news.len() as u32;
        if self.next_num > u32::MAX - n {
            return refused(Refusal::NumbersUsedUp);
        }
        let annot = ObjRef::new(self.next_num + (n - 1), 0);
        let change = match self.plan_annotation(page, annot) {
            Ok(c) => c,
            Err(e) => {
                return Err(e);
            },
        };
        self.make_change(news, change);
        Ok(())
    }

    /// Adds new objects and changes one that is there.
    pub(crate) fn make_change(&mut self, news: Vec<Object>, change: (u32, Object, Object))
        requires
            old(self).wf(),
            old(self)@.has_room(news@.len() as int),
            old(self)@.current(change.0) is Ok,
        ensures
            final(self).wf(),
            final(self)@ == with_all_new(old(self)@, models(news@), news@.len()).committed(
                one_change(change_model(change)),
            ),
    {
        let ghost start = self@;
        proof {
            let c = change_model(change);
            start.current_number(c.num);
            all_new_wf(start, models(news@), news@.len());
            let after = with_all_new(start, models(news@), news@.len());
            assert(after.holds(one_change(c)));
            after.committed_wf(one_change(c));
        }
        self.add_all_new(news);
        let mut modified: Vec<(u32, Object, Object)> = Vec::new();
        modified.push(change);
        let op = EditOp { modified, flattened: None };
        assert(op_model(op).changes =~= seq![change_model(change)]);
        self.commit(op);
    }

    /// Adds new objects, makes changes, and sets the node and the order of the pages.
    pub(crate) fn arrange(
        &mut self,
        news: Vec<Object>,
        changes: Vec<(u32, Object, Object)>,
        flattened: Option<ObjRef>,
        node: ObjRef,
        order: Vec<ObjRef>,
    )
        requires
            old(self)@.has_room(news@.len() as int),
        ensures
            final(self)@ == (SessionModel {
                tree: Some(TreeModel { node, order: order@ }),
                ..with_all_new(old(self)@, models(news@), news@.len())
            }).committed(OpModel { changes: change_models(changes@), flattened }),
    {
        self.add_all_new(news);
        self.page_tree = Some(PageTreeState { pages_node_ref: node, order });
        self.commit(EditOp { modified: changes, flattened });
    }

    /// The node that all pages hang from, and the pages in order.
    pub(crate) fn tree(&self) -> (r: Option<(ObjRef, &Vec<ObjRef>)>)
        ensures
            match r {
                Some((node, order)) => self@.tree == Some(TreeModel { node, order: order@ }),
                None => self@.tree is None,
            },
    {
        match &self.page_tree {
            Some(t) => Some((t.pages_node_ref, &t.order)),
            None => None,
        }
    }

    /// Adds the objects of a copy.
    pub(crate) fn take_copies(&mut self, made: &BTreeMap<u32, Object>, next: u32)
        ensures
            final(self)@ == (SessionModel {
                pending: old(self)@.pending.union_prefer_right(made_model(made@)),
                next: next as int,
                ..old(self)@
            }),
    {
        let nums = numbers(made);
        let ghost start = pending_model(self.pending@);
        let ghost more = made_model(made@);
        let mut i: usize = 0;
        while i < nums.len()
            invariant
                0 <= i <= nums@.len(),
                lists_numbers(made@, nums@),
                more == made_model(made@),
                start == pending_model(old(self).pending@),
                self.doc == old(self).doc,
                self.undo_stack == old(self).undo_stack,
                self.redo_stack == old(self).redo_stack,
                self.page_tree == old(self).page_tree,
                forall|k: u32|
                    #[trigger] pending_model(self.pending@).contains_key(k) <==> start.contains_key(k)
                        || exists|j: int| 0 <= j < i && #[trigger] nums@[j] == k,
                forall|k: u32|
                    (exists|j: int| 0 <= j < i && #[trigger] nums@[j] == k) ==> #[trigger] pending_model(
                        self.pending@,
                    )[k] == more[k],
                forall|k: u32|
                    start.contains_key(k) && !(exists|j: int| 0 <= j < i && #[trigger] nums@[j] == k)
                        ==> #[trigger] pending_model(self.pending@)[k] == start[k],
            decreases nums@.len() - i,
        {
            let n: u32 = nums[i];
            let ghost before = pending_model(self.pending@);
            assert(nums@.contains(n));
            match lookup(made, n) {
                Some(o) => {
                    let o = o.clone();
                    proof {
                        pending_insert(self.pending@, n, o);
                    }
                    put(&mut self.pending, n, o);
                    proof {
                        let after = pending_model(self.pending@);
                        assert forall|k: u32|
                            #[trigger] after.contains_key(k) <==> start.contains_key(k) || exists|j: int|
                                0 <= j < i + 1 && #[trigger] nums@[j] == k by {
                            if k == n {
                                assert(nums@[i as int] == k);
                            }
                            if exists|j: int| 0 <= j < i + 1 && #[trigger] nums@[j] == k {
                                let j = choose|j: int| 0 <= j < i + 1 && #[trigger] nums@[j] == k;
                                if j < i {
                                    assert(nums@[j] == k);
                                    assert(before.contains_key(k));
                                }
                            }
                        }
                        assert forall|k: u32|
                            (exists|j: int| 0 <= j < i + 1 && #[trigger] nums@[j] == k) implies #[trigger] after[k]
                            == more[k] by {
                            let j = choose|j: int| 0 <= j < i + 1 && #[trigger] nums@[j] == k;
                            if k != n {
                                assert(j < i);
                                assert(nums@[j] == k);
                                assert(before[k] == more[k]);
                            }
                        }
                        assert forall|k: u32|
                            start.contains_key(k) && !(exists|j: int|
                                0 <= j < i + 1 && #[trigger] nums@[j] == k) implies #[trigger] after[k]
                            == start[k] by {
                            if k == n {
                                assert(nums@[i as int] == k);
                            }
                            assert(!(exists|j: int| 0 <= j < i && #[trigger] nums@[j] == k));
                            assert(before[k] == start[k]);
                        }
                    }
                },
                None => {},
            }
            i += 1;
        }
        self.next_num = next;
        proof {
            let goal = start.union_prefer_right(more);
            let got = pending_model(self.pending@);
            assert forall|k: u32| got.contains_key(k) <==> goal.contains_key(k) by {
                if more.contains_key(k) {
                    assert(nums@.contains(k));
                    assert(nums@[nums@.index_of(k)] == k);
                }
                if got.contains_key(k) && !start.contains_key(k) {
                    let j = choose|j: int| 0 <= j < i && #[trigger] nums@[j] == k;
                    assert(nums@.contains(k));
                }
            }
            assert forall|k: u32| got.contains_key(k) implies got[k] == goal[k] by {
                if more.contains_key(k) {
                    assert(nums@.contains(k));
                    assert(nums@[nums@.index_of(k)] == k);
                } else {
                    assert forall|j: int| 0 <= j < i implies #[trigger] nums@[j] != k by {
                        assert(nums@.contains(nums@[j]));
                    }
                }
            }
            assert(got =~= goal);
        }
    }

    /// The file with all that the session has changed saved behind it.
    pub fn to_bytes(&self) -> (r: Result<Vec<u8>, EditError>)
        ensures
            match saved(self@.doc, listed(self@.pending)) {
                Ok(bytes) => r is Ok && r->Ok_0@ == bytes,
                Err(e) => r is Err && r->Err_0@ == EditFault::Pdf(e),
            },
    {
        let objects = objects_of(&self.pending);
        match self.doc.save_incremental(objects.as_slice()) {
            Ok(bytes) => Ok(bytes),
            Err(e) => Err(EditError::Pdf(e)),
        }
    }

    /// The number that the next new object gets.
    pub(crate) fn next_number(&self) -> (r: u32)
        ensures
            r == self@.next,
    {
        self.next_num
    }

    /// The annotations of a page that are references, in order.
    pub fn page_annotation_refs(&self, page_index: usize) -> (r: Result<Vec<ObjRef>, EditError>)
        ensures
            match page_ref_at(self@.doc, page_index as int) {
                Err(e) => r is Err && r->Err_0@ == e,
                Ok(page) => match annotations_of(self@, page) {
                    Ok(refs) => r is Ok && r->Ok_0@ == refs,
                    Err(e) => r is Err && r->Err_0@ == e,
                },
            },
    {
        let page: ObjRef = match self.page_ref(page_index) {
            Ok(p) => p,
            Err(e) => {
                return Err(e);
            },
        };
        let object = match self.current(page.num) {
            Ok(o) => o,
            Err(e) => {
                return Err(EditError::Pdf(e));
            },
        };
        let dict = match object.as_dict() {
            Some(d) => d,
            None => {
                return refused(Refusal::PageIsNotADictionary);
            },
        };
        let none: Vec<ObjRef> = Vec::new();
        assert(none@ =~= seq![]);
        let list = match dict.get("Annots") {
            None => {
                return Ok(none);
            },
            Some(Object::Reference(x)) => match self.current(x.num) {
                Ok(o) => o,
                Err(e) => {
                    return Err(EditError::Pdf(e));
                },
            },
            Some(o) => o.clone(),
        };
        match list.as_array() {
            Some(items) => Ok(filter_references(items)),
            None => Ok(none),
        }
    }

    /// Takes an annotation off a page. The annotation itself stays, without a reference to it.
    pub fn remove_annotation(&mut self, page_index: usize, annot_index: usize) -> (r: Result<
        (),
        EditError,
    >)
        requires
            old(self).wf(),
        ensures
            final(self).wf(),
            match unannotated(old(self)@, page_index as int, annot_index) {
                Ok(s) => r is Ok && final(self)@ == s,
                Err(e) => r is Err && r->Err_0@ == e && final(self)@ == old(self)@,
            },
    {
        let page: ObjRef = match self.page_ref(page_index) {
            Ok(p) => p,
            Err(e) => {
                return Err(e);
            },
        };
        let mut refs = match self.page_annotation_refs(page_index) {
            Ok(x) => x,
            Err(e) => {
                return Err(e);
            },
        };
        if annot_index >= refs.len() {
            return refused(
                Refusal::NoSuchAnnotation { index: annot_index, count: refs.len() },
            );
        }
        refs.remove(annot_index);
        let change = match self.plan_annotations(page, &refs) {
            Ok(c) => c,
            Err(e) => {
                return Err(e);
            },
        };
        let news: Vec<Object> = Vec::new();
        self.make_change(news, change);
        Ok(())
    }

    /// The change that leaves a page with some annotations.
    fn plan_annotations(&self, page: ObjRef, refs: &Vec<ObjRef>) -> (r: Result<
        (u32, Object, Object),
        EditError,
    >)
        ensures
            match annotations_set(self@, page, refs@) {
                Ok(c) => r is Ok && change_model(r->Ok_0) == c,
                Err(e) => r is Err && r->Err_0@ == e,
            },
    {
        let object = match self.current(page.num) {
            Ok(o) => o,
            Err(e) => {
                return Err(EditError::Pdf(e));
            },
        };
        let mut dict = match object.as_dict() {
            Some(d) => d.clone(),
            None => {
                return refused(Refusal::PageIsNotADictionary);
            },
        };
        let list = reference_array(refs);
        let shared: Option<u32> = match dict.get("Annots") {
            Some(Object::Reference(r)) => Some(r.num),
            _ => None,
        };
        match shared {
            Some(num) => match self.current(num) {
                Ok(before) => Ok((num, before, list)),
                Err(e) => Err(EditError::Pdf(e)),
            },
            None => {
                dict.insert("Annots", list);
                Ok((page.num, object, Object::Dictionary(dict)))
            },
        }
    }

    /// Highlights a rectangle of a page: a fill with an opacity of two fifths. Without eight
    /// numbers for its corners, those of the rectangle are taken. Lengths and colors are in
    /// millionths.
    pub fn add_highlight_annotation(
        &mut self,
        page_index: usize,
        rect: [i64; 4],
        color: [i64; 3],
        quad_points: Vec<i64>,
    ) -> (r: Result<(), EditError>)
        requires
            old(self).wf(),
        ensures
            final(self).wf(),
            match highlighted(old(self)@, page_index as int, rect, color, quad_points@) {
                Ok(s) => r is Ok && final(self)@ == s,
                Err(e) => r is Err && r->Err_0@ == e && final(self)@ == old(self)@,
            },
    {
        let page: ObjRef = match self.page_ref(page_index) {
            Ok(p) => p,
            Err(e) => {
                return Err(e);
            },
        };
        let c = corners_of(&rect);
        let width: i128 = span(c.0, c.2);
        let height: i128 = span(c.1, c.3);
        if self.next_num > u32::MAX - 3 {
            return refused(Refusal::NumbersUsedUp);
        }
        let state: u32 = self.next_num;
        let own: [i64; 8] = [c.0, c.3, c.2, c.3, c.0, c.1, c.2, c.1];
        assert(own@ =~= quad_of(c));
        let quad: &[i64] = if quad_points.len() == 8 {
            quad_points.as_slice()
        } else {
            own.as_slice()
        };
        let mut news: Vec<Object> = Vec::new();
        news.push(highlight_state_object());
        news.push(
            form_object(
                highlight_resources_dict(state),
                width,
                height,
                highlight_content(&color, width, height),
            ),
        );
        news.push(markup_object("Highlight", c, quad, &color, state + 1));
        proof {
            let given = seq![
                highlight_state(),
                form(
                    highlight_resources(self@.next),
                    width as int,
                    height as int,
                    crate::appearance::highlight_text(color, width as int, height as int),
                ),
                text_markup(
                    "Highlight"@,
                    c,
                    if quad_points@.len() == 8 {
                        quad_points@
                    } else {
                        quad_of(c)
                    },
                    color,
                    self@.next + 1,
                ),
            ];
            assert(models(news@) =~= given);
        }
        self.annotate(page, news)
    }

    /// Underlines a rectangle of a page.
    pub fn add_underline_annotation(
        &mut self,
        page_index: usize,
        rect: [i64; 4],
        color: [i64; 3],
    ) -> (r: Result<(), EditError>)
        requires
            old(self).wf(),
        ensures
            final(self).wf(),
            match lined(old(self)@, "Underline"@, page_index as int, rect, color, 8) {
                Ok(s) => r is Ok && final(self)@ == s,
                Err(e) => r is Err && r->Err_0@ == e && final(self)@ == old(self)@,
            },
    {
        self.add_line_markup_annotation("Underline", page_index, rect, color, 8)
    }

    /// Strikes a rectangle of a page out.
    pub fn add_strikeout_annotation(
        &mut self,
        page_index: usize,
        rect: [i64; 4],
        color: [i64; 3],
    ) -> (r: Result<(), EditError>)
        requires
            old(self).wf(),
        ensures
            final(self).wf(),
            match lined(old(self)@, "StrikeOut"@, page_index as int, rect, color, 50) {
                Ok(s) => r is Ok && final(self)@ == s,
                Err(e) => r is Err && r->Err_0@ == e && final(self)@ == old(self)@,
            },
    {
        self.add_line_markup_annotation("StrikeOut", page_index, rect, color, 50)
    }

    /// Draws a line across a rectangle of a page, at some hundredths of its height.
    fn add_line_markup_annotation(
        &mut self,
        subtype: &str,
        page_index: usize,
        rect: [i64; 4],
        color: [i64; 3],
        hundredths: i128,
    ) -> (r: Result<(), EditError>)
        requires
            old(self).wf(),
            0 <= hundredths <= 100,
        ensures
            final(self).wf(),
            match lined(
                old(self)@,
                subtype@,
                page_index as int,
                rect,
                color,
                hundredths as int,
            ) {
                Ok(s) => r is Ok && final(self)@ == s,
                Err(e) => r is Err && r->Err_0@ == e && final(self)@ == old(self)@,
            },
    {
        let page: ObjRef = match self.page_ref(page_index) {
            Ok(p) => p,
            Err(e) => {
                return Err(e);
            },
        };
        let c = corners_of(&rect);
        let width: i128 = span(c.0, c.2);
        let height: i128 = span(c.1, c.3);
        let first: u32 = self.next_num;
        let own: [i64; 8] = [c.0, c.3, c.2, c.3, c.0, c.1, c.2, c.1];
        assert(own@ =~= quad_of(c));
        let mut news: Vec<Object> = Vec::new();
        news.push(
            form_object(
                Dictionary::new(),
                width,
                height,
                line_content(&color, width, height, hundredths),
            ),
        );
        news.push(markup_object(subtype, c, own.as_slice(), &color, first));
        proof {
            let given = seq![
                form(
                    Map::empty(),
                    width as int,
                    height as int,
                    crate::appearance::line_text(
                        color,
                        width as int,
                        height as int,
                        hundredths as int,
                    ),
                ),
                text_markup(subtype@, c, quad_of(c), color, self@.next),
            ];
            assert(models(news@) =~= given);
        }
        self.annotate(page, news)
    }

    /// Puts a text on a page.
    pub fn add_free_text_annotation(
        &mut self,
        page_index: usize,
        rect: [i64; 4],
        text: &str,
        font_size: i64,
        text_color: [i64; 3],
    ) -> (r: Result<(), EditError>)
        requires
            old(self).wf(),
        ensures
            final(self).wf(),
            match overlaid(
                old(self)@,
                page_index as int,
                rect,
                text@,
                font_size,
                text_color,
                None,
            ) {
                Ok(s) => r is Ok && final(self)@ == s,
                Err(e) => r is Err && r->Err_0@ == e && final(self)@ == old(self)@,
            },
    {
        self.add_text_overlay_annotation(page_index, rect, text, font_size, text_color, None)
    }

    /// Puts a text over a filled rectangle on a page, so that it covers what is there. The
    /// content of the page is not changed.
    pub fn replace_text_with_overlay(
        &mut self,
        page_index: usize,
        rect: [i64; 4],
        text: &str,
        font_size: i64,
        text_color: [i64; 3],
        background: [i64; 3],
    ) -> (r: Result<(), EditError>)
        requires
            old(self).wf(),
        ensures
            final(self).wf(),
            match overlaid(
                old(self)@,
                page_index as int,
                rect,
                text@,
                font_size,
                text_color,
                Some(background),
            ) {
                Ok(s) => r is Ok && final(self)@ == s,
                Err(e) => r is Err && r->Err_0@ == e && final(self)@ == old(self)@,
            },
    {
        self.add_text_overlay_annotation(
            page_index,
            rect,
            text,
            font_size,
            text_color,
            Some(background),
        )
    }

    fn add_text_overlay_annotation(
        &mut self,
        page_index: usize,
        rect: [i64; 4],
        text: &str,
        font_size: i64,
        text_color: [i64; 3],
        background: Option<[i64; 3]>,
    ) -> (r: Result<(), EditError>)
        requires
            old(self).wf(),
        ensures
            final(self).wf(),
            match overlaid(
                old(self)@,
                page_index as int,
                rect,
                text@,
                font_size,
                text_color,
                background,
            ) {
                Ok(s) => r is Ok && final(self)@ == s,
                Err(e) => r is Err && r->Err_0@ == e && final(self)@ == old(self)@,
            },
    {
        let page: ObjRef = match self.page_ref(page_index) {
            Ok(p) => p,
            Err(e) => {
                return Err(e);
            },
        };
        let c = corners_of(&rect);
        let width: i128 = span(c.0, c.2);
        let height: i128 = span(c.1, c.3);
        if self.next_num > u32::MAX - 3 {
            return refused(Refusal::NumbersUsedUp);
        }
        let font: u32 = self.next_num;
        let content = build_text_appearance_content(
            width,
            height,
            text,
            font_size,
            &text_color,
            &background,
        );
        let mut news: Vec<Object> = Vec::new();
        news.push(helvetica_object());
        news.push(form_object(font_resources_dict(font), width, height, content));
        let mut dict = annotation_dict("FreeText", c, font + 1);
        dict.insert(
            "Contents",
            Object::String(crate::object::clone_bytes(text.as_bytes())),
        );
        dict.insert("DA", Object::String(make_default_appearance(font_size)));
        news.push(Object::Dictionary(dict));
        proof {
            let given = seq![
                helvetica(),
                form(
                    font_resources(self@.next),
                    width as int,
                    height as int,
                    crate::appearance::overlay_text(
                        width as int,
                        height as int,
                        text@,
                        font_size as int,
                        text_color,
                        background,
                    ),
                ),
                ObjectModel::Dictionary(
                    annotation("FreeText"@, c, self@.next + 1).insert(
                        "Contents"@,
                        ObjectModel::String(vstd::utf8::encode_utf8(text@)),
                    ).insert(
                        "DA"@,
                        ObjectModel::String(
                            crate::appearance::default_appearance(font_size as int),
                        ),
                    ),
                ),
            ];
            assert(models(news@) =~= given);
        }
        self.annotate(page, news)
    }
}

/// The items of an array again.
fn clone_items(items: &Vec<Object>) -> (r: Vec<Object>)
    ensures
        models(r@) == models(items@),
{
    let mut r: Vec<Object> = Vec::new();
    let mut i: usize = 0;
    while i < items.len()
        invariant
            0 <= i <= items@.len(),
            r@.len() == i,
            forall|j: int| 0 <= j < i ==> (#[trigger] r@[j])@ == items@[j]@,
        decreases items@.len() - i,
    {
        r.push(items[i].clone());
        i += 1;
    }
    assert(models(r@) =~= models(items@));
    r
}

/// An array with a reference more.
fn extended(o: &Object, x: ObjRef) -> (r: Object)
    ensures
        r@ == array_with(o@, ObjectModel::Reference(x)),
{
    let mut items: Vec<Object> = match o {
        Object::Array(list) => {
            assert(o@->Array_0 =~= models(list@));
            clone_items(list)
        },
        _ => {
            let none: Vec<Object> = Vec::new();
            assert(models(none@) =~= seq![]);
            none
        },
    };
    let ghost before = models(items@);
    items.push(Object::Reference(x));
    assert(models(items@) =~= before.push(ObjectModel::Reference(x)));
    array_object(items)
}

pub proof fn all_new_wf(s: SessionModel, news: Seq<ObjectModel>, n: nat)
    requires
        s.wf(),
        s.has_room(n as int),
    ensures
        with_all_new(s, news, n).wf(),
        with_all_new(s, news, n).next == s.next + n,
    decreases n,
{
    if n > 0 {
        all_new_wf(s, news, (n - 1) as nat);
        with_all_new(s, news, (n - 1) as nat).with_new_wf(news[n - 1]);
    }
}

} // verus!
