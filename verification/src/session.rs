//! A document that is open: the page that is looked at, and edits that show at once.
//!
//! Edits go to an editing session. Behind each of them the document that is shown is opened anew
//! from the bytes that the session would save, so that no file need be written for an edit to
//! show.
use vstd::prelude::*;
use crate::annots::{annotation_infos, annotation_models, annots_in, infos_of, read_annots, AnnotationInfo};
use crate::canvas::{DisplayList, ItemModel};
use crate::document::{opened, DocModel, Document};
use crate::edit::{filter_references, EditSession};
use crate::edit_model::{highlighted, lined, overlaid, references_in, unannotated, EditError, EditFault, SessionModel};
use crate::error::{ErrorModel, PdfError, Problem};
use crate::extract::{exported, extracted, export_optimized, extract_pages};
use crate::form::{field_models, field_set, fields_of, FieldModel, FormFieldInfo};
use crate::interp::{page_and_annots, Interpreter};
use crate::number::{real_of_int, Real, RealModel};
use crate::object::ObjRef;
use crate::outline::{outline_models, outline_of, OutlineItem};
use crate::page::{content_of, pages_in, Page, PageModel};
use crate::page_text::{extract_page_text, found, text_of_items, GlyphRect, PageText, TextModel};
use crate::page_edit::four_numbers;
use crate::page_tree::{blank_inserted, image_inserted, merged, page_deleted, page_moved, page_rotated};
use crate::save::{listed, saved};
use crate::search::{contains_text, text_contains};
use crate::selection::{nearest, part_end, part_start, selected, selected_rects, within};

verus! {

/// A document that is open: what is shown, how many pages that has, the page that is looked at,
/// and the editing session behind it.
pub ghost struct ViewerModel {
    pub doc: DocModel,
    pub count: nat,
    pub index: int,
    pub edit: SessionModel,
}

/// A document that is open.
pub struct Session {
    doc: Document,
    page_count: usize,
    page_index: usize,
    edit: EditSession,
}

impl View for Session {
    type V = ViewerModel;

    closed spec fn view(&self) -> ViewerModel {
        ViewerModel {
            doc: self.doc@,
            count: self.page_count as nat,
            index: self.page_index as int,
            edit: self.edit@,
        }
    }
}

impl ViewerModel {
    /// The page that is looked at is there, where there is one at all.
    pub open spec fn wf(self) -> bool {
        &&& self.edit.wf()
        &&& 0 <= self.index
        &&& self.index < self.count || self.index == 0
        &&& pages_in(self.doc) is Ok
        &&& pages_in(self.doc)->Ok_0.len() == self.count
    }
}

/// What is shown of an editing session, the page that is looked at held inside the document.
pub open spec fn refreshed(v: ViewerModel, s: SessionModel) -> Result<ViewerModel, EditFault> {
    match saved(s.doc, listed(s.pending)) {
        Err(e) => Err(EditFault::Pdf(e)),
        Ok(bytes) => match opened(bytes, seq![]) {
            Err(e) => Err(EditFault::Pdf(e)),
            Ok(doc) => match pages_in(doc) {
                Err(e) => Err(EditFault::Pdf(e)),
                Ok(pages) => Ok(
                    ViewerModel {
                        doc,
                        count: pages.len(),
                        index: if v.index < pages.len() {
                            v.index
                        } else if pages.len() > 0 {
                            pages.len() - 1
                        } else {
                            0
                        },
                        edit: s,
                    },
                ),
            },
        },
    }
}

/// What an edit leaves, and what it says. One that is refused leaves everything as it was; one
/// whose outcome cannot be shown is kept, and the document that was shown stays.
pub open spec fn edited(v: ViewerModel, r: Result<SessionModel, EditFault>) -> (ViewerModel, Result<
    (),
    EditFault,
>) {
    match r {
        Err(e) => (v, Err(e)),
        Ok(s) => match refreshed(v, s) {
            Ok(w) => (w, Ok(())),
            Err(e) => (ViewerModel { edit: s, ..v }, Err(e)),
        },
    }
}

/// A result by what it says.
pub open spec fn said(r: Result<(), EditError>) -> Result<(), EditFault> {
    match r {
        Ok(_) => Ok(()),
        Err(e) => Err(e@),
    }
}

/// A page of a document.
pub open spec fn page_at(doc: DocModel, index: int) -> Result<PageModel, ErrorModel> {
    match pages_in(doc) {
        Err(e) => Err(e),
        Ok(pages) => if index < pages.len() {
            Ok(pages[index])
        } else {
            Err(ErrorModel::InvalidObject(0, Problem::NoSuchPage))
        },
    }
}

/// What a page of a document shows, with its annotations.
#[verifier::opaque]
pub open spec fn page_shown(doc: DocModel, index: int) -> Result<Seq<ItemModel>, ErrorModel> {
    match page_at(doc, index) {
        Err(e) => Err(e),
        Ok(page) => match content_of(doc, page.dict) {
            Err(e) => Err(e),
            Ok(content) => page_and_annots(doc, page, content),
        },
    }
}

/// The text of a page of a document.
#[verifier::opaque]
pub open spec fn text_at(doc: DocModel, index: int) -> Result<TextModel, ErrorModel> {
    match page_shown(doc, index) {
        Err(e) => Err(e),
        Ok(items) => Ok(text_of_items(items, items.len())),
    }
}

/// The text of the first `n` pages, each behind a page break.
pub open spec fn text_of_pages(doc: DocModel, n: nat) -> Result<Seq<char>, ErrorModel>
    decreases n,
{
    if n == 0 {
        Ok(seq![])
    } else {
        match text_of_pages(doc, (n - 1) as nat) {
            Err(e) => Err(e),
            Ok(before) => match text_at(doc, n - 1) {
                Err(e) => Err(e),
                Ok(t) => if n == 1 {
                    Ok(t.chars)
                } else {
                    Ok(before + seq!['\x0c', '\n'] + t.chars)
                },
            },
        }
    }
}

/// Those of the first `n` pages whose text contains a query.
pub open spec fn pages_with(doc: DocModel, query: Seq<char>, n: nat) -> Result<Seq<usize>, ErrorModel>
    decreases n,
{
    if n == 0 {
        Ok(seq![])
    } else {
        match pages_with(doc, query, (n - 1) as nat) {
            Err(e) => Err(e),
            Ok(before) => match text_at(doc, n - 1) {
                Err(e) => Err(e),
                Ok(t) => if contains_text(t.chars, query) {
                    Ok(before.push((n - 1) as usize))
                } else {
                    Ok(before)
                },
            },
        }
    }
}

/// Those of the first `n` fields whose objects are among some references.
pub open spec fn fields_among(fields: Seq<FieldModel>, refs: Seq<ObjRef>, n: nat) -> Seq<FieldModel>
    decreases n,
{
    if n == 0 {
        seq![]
    } else {
        let before = fields_among(fields, refs, (n - 1) as nat);
        if exists|i: int| 0 <= i < refs.len() && (#[trigger] refs[i]).num == fields[n - 1].obj_ref.num {
            before.push(fields[n - 1])
        } else {
            before
        }
    }
}

/// The text fields on a page.
pub open spec fn page_fields(v: ViewerModel) -> Result<Seq<FieldModel>, EditFault> {
    match page_at(v.doc, v.index) {
        Err(e) => Err(EditFault::Pdf(e)),
        Ok(page) => match annots_in(v.doc, page.dict) {
            Err(e) => Err(EditFault::Pdf(e)),
            Ok(items) => match fields_of(v.edit) {
                Err(e) => Err(e),
                Ok(fields) => Ok(
                    fields_among(fields, references_in(items, items.len()), fields.len()),
                ),
            },
        },
    }
}

/// The bounds of a page that is put in: those of the page that is looked at, or those of a letter.
#[verifier::opaque]
pub open spec fn new_bounds(v: ViewerModel) -> Seq<RealModel> {
    match page_at(v.doc, v.index) {
        Ok(page) => seq![
            real_of_int(page.media_box[0] as int),
            real_of_int(page.media_box[1] as int),
            real_of_int(page.media_box[2] as int),
            real_of_int(page.media_box[3] as int),
        ],
        Err(_) => seq![real_of_int(0), real_of_int(0), real_of_int(612), real_of_int(792)],
    }
}

impl Session {
    /// The page that is looked at is there.
    pub open spec fn wf(&self) -> bool {
        self@.wf()
    }

    /// Opens a document and looks at its first page.
    pub fn open(data: &[u8]) -> (r: Result<Self, EditError>)
        ensures
            match opened(data@, seq![]) {
                Err(e) => r is Err && r->Err_0@ == EditFault::Pdf(e),
                Ok(doc) => match pages_in(doc) {
                    Err(e) => r is Err && r->Err_0@ == EditFault::Pdf(e),
                    Ok(pages) => r is Ok <==> !doc.xref.contains_key(u32::MAX),
                },
            },
            r is Ok ==> r->Ok_0.wf() && r->Ok_0@.doc == opened(data@, seq![])->Ok_0 && r->Ok_0@.index == 0
                && r->Ok_0@.edit.doc == r->Ok_0@.doc && r->Ok_0@.edit.undo.len() == 0
                && r->Ok_0@.edit.redo.len() == 0 && r->Ok_0@.edit.pending.dom().len() == 0,
    {
        let doc = match Document::open(crate::object::clone_bytes(data)) {
            Ok(d) => d,
            Err(e) => {
                return Err(EditError::Pdf(e));
            },
        };
        let page_count: usize = match doc.page_count() {
            Ok(n) => n,
            Err(e) => {
                return Err(EditError::Pdf(e));
            },
        };
        let edit = match EditSession::open(crate::object::clone_bytes(data)) {
            Ok(s) => s,
            Err(e) => {
                return Err(e);
            },
        };
        Ok(Session { doc, page_count, page_index: 0, edit })
    }

    /// The document that is shown.
    pub fn document(&self) -> (r: &Document)
        ensures
            r@ == self@.doc,
    {
        &self.doc
    }

    pub fn page_count(&self) -> (r: usize)
        ensures
            r == self@.count,
    {
        self.page_count
    }

    pub fn page_index(&self) -> (r: usize)
        ensures
            r == self@.index,
    {
        self.page_index
    }

    /// Looks at another page; nothing happens where there is no such page.
    pub fn goto_page(&mut self, index: usize)
        requires
            old(self).wf(),
        ensures
            final(self).wf(),
            final(self)@ == (if index < old(self)@.count {
                ViewerModel { index: index as int, ..old(self)@ }
            } else {
                old(self)@
            }),
    {
        if index < self.page_count {
            self.page_index = index;
        }
    }

    /// Looks at the next page, where there is one.
    pub fn next_page(&mut self)
        requires
            old(self).wf(),
        ensures
            final(self).wf(),
            final(self)@ == (if old(self)@.index + 1 < old(self)@.count {
                ViewerModel { index: old(self)@.index + 1, ..old(self)@ }
            } else {
                old(self)@
            }),
    {
        if self.page_index < self.page_count && self.page_count - self.page_index > 1 {
            self.page_index += 1;
        }
    }

    /// Looks at the page before, where there is one.
    pub fn prev_page(&mut self)
        requires
            old(self).wf(),
        ensures
            final(self).wf(),
            final(self)@ == (if old(self)@.index > 0 {
                ViewerModel { index: old(self)@.index - 1, ..old(self)@ }
            } else {
                old(self)@
            }),
    {
        if self.page_index > 0 {
            self.page_index -= 1;
        }
    }

    /// The bounds of a page.
    pub fn page_media_box(&self, index: usize) -> (r: Result<[i64; 4], PdfError>)
        ensures
            match page_at(self@.doc, index as int) {
                Ok(page) => r is Ok && r->Ok_0@ == page.media_box,
                Err(e) => r is Err && r->Err_0@ == e,
            },
    {
        match self.doc.page(index) {
            Ok(page) => Ok(page.media_box),
            Err(e) => Err(e),
        }
    }

    /// The bounds of the page that is looked at.
    pub fn current_page_media_box(&self) -> (r: Result<[i64; 4], PdfError>)
        ensures
            match page_at(self@.doc, self@.index) {
                Ok(page) => r is Ok && r->Ok_0@ == page.media_box,
                Err(e) => r is Err && r->Err_0@ == e,
            },
    {
        self.page_media_box(self.page_index)
    }

    /// The table of contents.
    pub fn outline(&self) -> (r: Result<Vec<OutlineItem>, PdfError>)
        ensures
            match outline_of(self@.doc) {
                Ok(items) => r is Ok && outline_models(r->Ok_0@) == items,
                Err(e) => r is Err && r->Err_0@ == e,
            },
    {
        self.doc.outline()
    }

    /// What a page shows, and the page itself.
    pub fn page_display(&self, index: usize) -> (r: Result<(Page, DisplayList), PdfError>)
        ensures
            match page_shown(self@.doc, index as int) {
                Ok(items) => {
                    &&& r is Ok
                    &&& Ok::<PageModel, ErrorModel>(r->Ok_0.0@) == page_at(self@.doc, index as int)
                    &&& r->Ok_0.1.wf()
                    &&& r->Ok_0.1@ == items
                },
                Err(e) => r is Err && r->Err_0@ == e,
            },
    {
        proof {
            reveal(page_shown);
        }
        let page = match self.doc.page(index) {
            Ok(p) => p,
            Err(e) => {
                return Err(e);
            },
        };
        let content = match self.doc.page_content(&page) {
            Ok(c) => c,
            Err(e) => {
                return Err(e);
            },
        };
        match Interpreter::run_page_with_annotations(&self.doc, &page, content.as_slice()) {
            Ok(d) => Ok((page, d)),
            Err(e) => Err(e),
        }
    }

    /// The text of a page, with the place of each character.
    pub fn page_text(&self, index: usize) -> (r: Result<PageText, PdfError>)
        ensures
            match text_at(self@.doc, index as int) {
                Ok(t) => r is Ok && r->Ok_0@ == t,
                Err(e) => r is Err && r->Err_0@ == e,
            },
    {
        proof {
            reveal(text_at);
        }
        match self.page_display(index) {
            Ok((_, d)) => Ok(extract_page_text(&d)),
            Err(e) => Err(e),
        }
    }

    /// The text of the page that is looked at.
    pub fn extract_current_page_text(&self) -> (r: Result<String, PdfError>)
        ensures
            match text_at(self@.doc, self@.index) {
                Ok(t) => r is Ok && r->Ok_0@ == t.chars,
                Err(e) => r is Err && r->Err_0@ == e,
            },
    {
        match self.page_text(self.page_index) {
            Ok(t) => Ok(t.text()),
            Err(e) => Err(e),
        }
    }

    /// The text of all pages, with a page break between two.
    pub fn extract_all_text(&self) -> (r: Result<String, PdfError>)
        ensures
            match text_of_pages(self@.doc, self@.count) {
                Ok(t) => r is Ok && r->Ok_0@ == t,
                Err(e) => r is Err && r->Err_0@ == e,
            },
    {
        let mut out: String = String::new();
        proof {
            reveal_strlit("");
            assert(out@ =~= seq![]);
        }
        let mut i: usize = 0;
        while i < self.page_count
            invariant
                0 <= i <= self.page_count,
                text_of_pages(self@.doc, i as nat) == Ok::<Seq<char>, ErrorModel>(out@),
            decreases self.page_count - i,
        {
            let ghost before = out@;
            let t = match self.page_text(i) {
                Ok(t) => t,
                Err(e) => {
                    proof {
                        failed_text_stays(self@.doc, (i + 1) as nat, self@.count);
                    }
                    return Err(e);
                },
            };
            if i > 0 {
                out.push('\x0c');
                out.push('\n');
            }
            let text = t.text();
            out.append(text.as_str());
            proof {
                if i > 0 {
                    assert(out@ =~= before + seq!['\x0c', '\n'] + text@);
                } else {
                    assert(before =~= seq![]);
                    assert(out@ =~= text@);
                }
            }
            i += 1;
        }
        Ok(out)
    }

    /// The pages whose text contains a query, without regard to case and accents; an empty query
    /// is in none.
    pub fn find_pages_containing(&self, query: &str) -> (r: Result<Vec<usize>, PdfError>)
        ensures
            if query@.len() == 0 {
                r is Ok && r->Ok_0@.len() == 0
            } else {
                match pages_with(self@.doc, query@, self@.count) {
                    Ok(list) => r is Ok && r->Ok_0@ == list,
                    Err(e) => r is Err && r->Err_0@ == e,
                }
            },
    {
        let mut out: Vec<usize> = Vec::new();
        if query.as_bytes().len() == 0 {
            proof {
                vstd::utf8::encode_utf8_decode_utf8(query@);
                assert(vstd::utf8::encode_utf8(query@) =~= seq![]);
                crate::text::encode_utf8_injective(query@, seq![]);
            }
            return Ok(out);
        }
        proof {
            assert(out@ =~= seq![]);
            if query@.len() == 0 {
                assert(query@ =~= seq![]);
            }
        }
        let mut i: usize = 0;
        while i < self.page_count
            invariant
                0 <= i <= self.page_count,
                query@.len() > 0,
                pages_with(self@.doc, query@, i as nat) == Ok::<Seq<usize>, ErrorModel>(out@),
            decreases self.page_count - i,
        {
            let t = match self.page_text(i) {
                Ok(t) => t,
                Err(e) => {
                    proof {
                        failed_search_stays(self@.doc, query@, (i + 1) as nat, self@.count);
                    }
                    return Err(e);
                },
            };
            if text_contains(t.text().as_str(), query) {
                out.push(i);
            }
            i += 1;
        }
        Ok(out)
    }

    /// The rectangles of all places where a query stands on the page that is looked at.
    pub fn find_matches_on_current_page(&self, query: &str) -> (r: Result<Vec<GlyphRect>, PdfError>)
        ensures
            match text_at(self@.doc, self@.index) {
                Ok(t) => {
                    &&& r is Ok
                    &&& r->Ok_0@.len() == found(t, query@).len()
                    &&& forall|i: int|
                        0 <= i < r->Ok_0@.len() ==> (#[trigger] r->Ok_0@[i])@ == found(t, query@)[i]
                },
                Err(e) => r is Err && r->Err_0@ == e,
            },
    {
        match self.page_text(self.page_index) {
            Ok(t) => Ok(t.find_matches(query)),
            Err(e) => Err(e),
        }
    }

    /// The character of the page that is looked at nearest to a point.
    pub fn char_index_at_on_current_page(&self, point: &(Real, Real)) -> (r: Result<
        Option<usize>,
        PdfError,
    >)
        ensures
            match text_at(self@.doc, self@.index) {
                Ok(t) => {
                    &&& r is Ok
                    &&& match nearest(t.rects, t.rects.len(), point.0@, point.1@) {
                        Some(k) => r->Ok_0 is Some && r->Ok_0->0 == k,
                        None => r->Ok_0 is None,
                    }
                },
                Err(e) => r is Err && r->Err_0@ == e,
            },
    {
        match self.page_text(self.page_index) {
            Ok(t) => Ok(t.char_index_at(point)),
            Err(e) => Err(e),
        }
    }

    /// The word of the page that is looked at around an index.
    pub fn word_range_at_on_current_page(&self, index: usize) -> (r: Result<
        std::ops::Range<usize>,
        PdfError,
    >)
        ensures
            match text_at(self@.doc, self@.index) {
                Ok(t) => {
                    let i = within(index as int, t.chars.len());
                    &&& r is Ok
                    &&& r->Ok_0.start == part_start(t.chars, i, true)
                    &&& r->Ok_0.end == part_end(t.chars, i, true)
                },
                Err(e) => r is Err && r->Err_0@ == e,
            },
    {
        match self.page_text(self.page_index) {
            Ok(t) => Ok(t.word_range_at(index)),
            Err(e) => Err(e),
        }
    }

    /// The line of the page that is looked at around an index.
    pub fn line_range_at_on_current_page(&self, index: usize) -> (r: Result<
        std::ops::Range<usize>,
        PdfError,
    >)
        ensures
            match text_at(self@.doc, self@.index) {
                Ok(t) => {
                    let i = within(index as int, t.chars.len());
                    &&& r is Ok
                    &&& r->Ok_0.start == part_start(t.chars, i, false)
                    &&& r->Ok_0.end == part_end(t.chars, i, false)
                },
                Err(e) => r is Err && r->Err_0@ == e,
            },
    {
        match self.page_text(self.page_index) {
            Ok(t) => Ok(t.line_range_at(index)),
            Err(e) => Err(e),
        }
    }

    /// The text in a range on the page that is looked at, and the rectangles of its characters.
    pub fn selection_on_current_page(&self, range: &std::ops::Range<usize>) -> (r: Result<
        (String, Vec<GlyphRect>),
        PdfError,
    >)
        ensures
            match text_at(self@.doc, self@.index) {
                Ok(t) => {
                    let end = within(range.end as int, t.rects.len());
                    let list = selected_rects(t.rects, range.start as int, end);
                    &&& r is Ok
                    &&& r->Ok_0.0@ == selected(t.chars, range.start as int, range.end as int)
                    &&& r->Ok_0.1@.len() == list.len()
                    &&& forall|i: int|
                        0 <= i < list.len() ==> (#[trigger] r->Ok_0.1@[i])@ == list[i]
                },
                Err(e) => r is Err && r->Err_0@ == e,
            },
    {
        match self.page_text(self.page_index) {
            Ok(t) => Ok((t.text_in_range(range), t.rects_in_range(range))),
            Err(e) => Err(e),
        }
    }

    /// The annotations of the page that is looked at that are shown.
    pub fn annotations_on_current_page(&self) -> (r: Result<Vec<AnnotationInfo>, PdfError>)
        ensures
            match page_at(self@.doc, self@.index) {
                Err(e) => r is Err && r->Err_0@ == e,
                Ok(page) => match infos_of(self@.doc, page) {
                    Ok(list) => r is Ok && annotation_models(r->Ok_0@) == list,
                    Err(e) => r is Err && r->Err_0@ == e,
                },
            },
    {
        match self.doc.page(self.page_index) {
            Ok(page) => annotation_infos(&self.doc, &page),
            Err(e) => Err(e),
        }
    }

    /// The text fields on the page that is looked at, with the values that they have now.
    pub fn form_fields_on_current_page(&self) -> (r: Result<Vec<FormFieldInfo>, EditError>)
        ensures
            match page_fields(self@) {
                Ok(list) => r is Ok && field_models(r->Ok_0@) == list,
                Err(e) => r is Err && r->Err_0@ == e,
            },
    {
        let page = match self.doc.page(self.page_index) {
            Ok(p) => p,
            Err(e) => {
                return Err(EditError::Pdf(e));
            },
        };
        let items = match read_annots(&self.doc, &page.dict) {
            Ok(x) => x,
            Err(e) => {
                return Err(EditError::Pdf(e));
            },
        };
        let refs = filter_references(items.as_slice());
        let fields = match self.edit.form_fields() {
            Ok(x) => x,
            Err(e) => {
                return Err(e);
            },
        };
        Ok(keep_fields(fields, &refs))
    }

    pub fn can_undo_edit(&self) -> (r: bool)
        ensures
            r == (self@.edit.undo.len() > 0),
    {
        self.edit.can_undo()
    }

    pub fn can_redo_edit(&self) -> (r: bool)
        ensures
            r == (self@.edit.redo.len() > 0),
    {
        self.edit.can_redo()
    }

    /// The bytes of the document with all edits.
    pub fn current_bytes(&self) -> (r: Result<Vec<u8>, EditError>)
        ensures
            match saved(self@.edit.doc, listed(self@.edit.pending)) {
                Ok(bytes) => r is Ok && r->Ok_0@ == bytes,
                Err(e) => r is Err && r->Err_0@ == EditFault::Pdf(e),
            },
    {
        self.edit.to_bytes()
    }

    /// A new file made of all pages of what is shown, without what no page refers to.
    pub fn export_optimized(&self) -> (r: Result<Vec<u8>, EditError>)
        ensures
            match exported(self@.doc) {
                Ok(bytes) => r is Ok && r->Ok_0@ == bytes,
                Err(e) => r is Err && r->Err_0@ == e,
            },
    {
        export_optimized(&self.doc)
    }

    /// A new file made of some pages of what is shown.
    pub fn extract_pages(&self, indices: &[usize]) -> (r: Result<Vec<u8>, EditError>)
        ensures
            match extracted(self@.doc, indices@) {
                Ok(bytes) => r is Ok && r->Ok_0@ == bytes,
                Err(e) => r is Err && r->Err_0@ == e,
            },
    {
        extract_pages(&self.doc, indices)
    }

    /// Shows what the editing session holds now.
    fn refresh_after_edit(&mut self) -> (r: Result<(), EditError>)
        requires
            old(self).wf(),
        ensures
            final(self).wf(),
            match refreshed(old(self)@, old(self)@.edit) {
                Ok(v) => r is Ok && final(self)@ == v,
                Err(e) => r is Err && r->Err_0@ == e && final(self)@ == old(self)@,
            },
    {
        let bytes = match self.edit.to_bytes() {
            Ok(b) => b,
            Err(e) => {
                return Err(e);
            },
        };
        let doc = match Document::open(bytes) {
            Ok(d) => d,
            Err(e) => {
                return Err(EditError::Pdf(e));
            },
        };
        let count: usize = match doc.page_count() {
            Ok(n) => n,
            Err(e) => {
                return Err(EditError::Pdf(e));
            },
        };
        self.doc = doc;
        self.page_count = count;
        if self.page_index >= count {
            self.page_index = if count > 0 {
                count - 1
            } else {
                0
            };
        }
        Ok(())
    }

    /// Shows an edit that was made, or hands on why it was not.
    fn after_edit(&mut self, r: Result<(), EditError>) -> (out: Result<(), EditError>)
        requires
            old(self).wf(),
        ensures
            final(self).wf(),
            match r {
                Err(e) => out == r && final(self)@ == old(self)@,
                Ok(_) => match refreshed(old(self)@, old(self)@.edit) {
                    Ok(v) => out is Ok && final(self)@ == v,
                    Err(e) => out is Err && out->Err_0@ == e && final(self)@ == old(self)@,
                },
            },
    {
        match r {
            Ok(_) => self.refresh_after_edit(),
            Err(e) => Err(e),
        }
    }

    /// Highlights a rectangle of the page that is looked at.
    pub fn add_highlight_on_current_page(&mut self, rect: [i64; 4], color: [i64; 3]) -> (r: Result<
        (),
        EditError,
    >)
        requires
            old(self).wf(),
        ensures
            final(self).wf(),
            (final(self)@, said(r)) == edited(
                old(self)@,
                highlighted(old(self)@.edit, old(self)@.index, rect, color, seq![]),
            ),
    {
        let none: Vec<i64> = Vec::new();
        assert(none@ =~= seq![]);
        let r = self.edit.add_highlight_annotation(self.page_index, rect, color, none);
        self.after_edit(r)
    }

    /// Puts a text on the page that is looked at.
    pub fn add_free_text_on_current_page(
        &mut self,
        rect: [i64; 4],
        text: &str,
        font_size: i64,
        color: [i64; 3],
    ) -> (r: Result<(), EditError>)
        requires
            old(self).wf(),
        ensures
            final(self).wf(),
            (final(self)@, said(r)) == edited(
                old(self)@,
                overlaid(old(self)@.edit, old(self)@.index, rect, text@, font_size, color, None),
            ),
    {
        let r = self.edit.add_free_text_annotation(self.page_index, rect, text, font_size, color);
        self.after_edit(r)
    }

    /// Underlines a rectangle of the page that is looked at.
    pub fn add_underline_on_current_page(&mut self, rect: [i64; 4], color: [i64; 3]) -> (r: Result<
        (),
        EditError,
    >)
        requires
            old(self).wf(),
        ensures
            final(self).wf(),
            (final(self)@, said(r)) == edited(
                old(self)@,
                lined(old(self)@.edit, "Underline"@, old(self)@.index, rect, color, 8),
            ),
    {
        let r = self.edit.add_underline_annotation(self.page_index, rect, color);
        self.after_edit(r)
    }

    /// Strikes out a rectangle of the page that is looked at.
    pub fn add_strikeout_on_current_page(&mut self, rect: [i64; 4], color: [i64; 3]) -> (r: Result<
        (),
        EditError,
    >)
        requires
            old(self).wf(),
        ensures
            final(self).wf(),
            (final(self)@, said(r)) == edited(
                old(self)@,
                lined(old(self)@.edit, "StrikeOut"@, old(self)@.index, rect, color, 50),
            ),
    {
        let r = self.edit.add_strikeout_annotation(self.page_index, rect, color);
        self.after_edit(r)
    }

    /// Puts a text over what is in a rectangle of the page that is looked at.
    pub fn replace_text_on_current_page(
        &mut self,
        rect: [i64; 4],
        text: &str,
        font_size: i64,
        text_color: [i64; 3],
        background: [i64; 3],
    ) -> (r: Result<(), EditError>)
        requires
            old(self).wf(),
        ensures
            final(self).wf(),
            (final(self)@, said(r)) == edited(
                old(self)@,
                overlaid(
                    old(self)@.edit,
                    old(self)@.index,
                    rect,
                    text@,
                    font_size,
                    text_color,
                    Some(background),
                ),
            ),
    {
        let r = self.edit.replace_text_with_overlay(
            self.page_index,
            rect,
            text,
            font_size,
            text_color,
            background,
        );
        self.after_edit(r)
    }

    /// Takes an annotation off the page that is looked at.
    pub fn remove_annotation_on_current_page(&mut self, annot_index: usize) -> (r: Result<
        (),
        EditError,
    >)
        requires
            old(self).wf(),
        ensures
            final(self).wf(),
            (final(self)@, said(r)) == edited(
                old(self)@,
                unannotated(old(self)@.edit, old(self)@.index, annot_index),
            ),
    {
        let r = self.edit.remove_annotation(self.page_index, annot_index);
        self.after_edit(r)
    }

    /// Gives a text field a value.
    pub fn set_form_field_value_on_current_page(&mut self, field_name: &str, value: &str) -> (r: Result<
        (),
        EditError,
    >)
        requires
            old(self).wf(),
        ensures
            final(self).wf(),
            (final(self)@, said(r)) == edited(
                old(self)@,
                field_set(old(self)@.edit, field_name@, value@),
            ),
    {
        let r = self.edit.set_form_field_value(field_name, value);
        self.after_edit(r)
    }

    /// The bounds of a new page: those of the page that is looked at.
    fn bounds_of_new_page(&self) -> (r: [Real; 4])
        ensures
            four_numbers(r) == new_bounds(self@),
    {
        let bounds: [i64; 4] = match self.current_page_media_box() {
            Ok(b) => b,
            Err(_) => [0, 0, 612, 792],
        };
        let r: [Real; 4] = [
            Real::from_int(bounds[0]),
            Real::from_int(bounds[1]),
            Real::from_int(bounds[2]),
            Real::from_int(bounds[3]),
        ];
        proof {
            reveal(new_bounds);
            reveal(four_numbers);
            assert(four_numbers(r) =~= new_bounds(self@));
        }
        r
    }

    /// Puts in an empty page with some bounds.
    fn insert_bounded_page(&mut self, at_index: usize, media_box: [Real; 4]) -> (r: Result<
        (),
        EditError,
    >)
        requires
            old(self).wf(),
        ensures
            final(self).wf(),
            (final(self)@, said(r)) == edited(
                old(self)@,
                blank_inserted(old(self)@.edit, at_index as int, four_numbers(media_box)),
            ),
    {
        let r = self.edit.insert_blank_page(at_index, media_box);
        self.after_edit(r)
    }

    /// Puts in an empty page as large as the page that is looked at.
    pub fn insert_blank_page_at(&mut self, at_index: usize) -> (r: Result<(), EditError>)
        requires
            old(self).wf(),
        ensures
            final(self).wf(),
            (final(self)@, said(r)) == edited(
                old(self)@,
                blank_inserted(old(self)@.edit, at_index as int, new_bounds(old(self)@)),
            ),
    {
        let media_box = self.bounds_of_new_page();
        self.insert_bounded_page(at_index, media_box)
    }

    /// Puts in a page that a JPEG image fills.
    pub fn insert_image_page_at(&mut self, at_index: usize, jpeg_bytes: &[u8]) -> (r: Result<
        (),
        EditError,
    >)
        requires
            old(self).wf(),
        ensures
            final(self).wf(),
            (final(self)@, said(r)) == edited(
                old(self)@,
                image_inserted(old(self)@.edit, at_index as int, jpeg_bytes@),
            ),
    {
        let r = self.edit.insert_image_page(at_index, jpeg_bytes);
        self.after_edit(r)
    }

    /// Takes a page out.
    pub fn delete_page_at(&mut self, index: usize) -> (r: Result<(), EditError>)
        requires
            old(self).wf(),
        ensures
            final(self).wf(),
            (final(self)@, said(r)) == edited(old(self)@, page_deleted(old(self)@.edit, index)),
    {
        let r = self.edit.delete_page(index);
        self.after_edit(r)
    }

    /// Moves a page.
    pub fn move_page(&mut self, from: usize, to: usize) -> (r: Result<(), EditError>)
        requires
            old(self).wf(),
        ensures
            final(self).wf(),
            (final(self)@, said(r)) == edited(old(self)@, page_moved(old(self)@.edit, from, to)),
    {
        let r = self.edit.move_page(from, to);
        self.after_edit(r)
    }

    /// Turns a page.
    pub fn rotate_page_at(&mut self, index: usize, delta: i32) -> (r: Result<(), EditError>)
        requires
            old(self).wf(),
        ensures
            final(self).wf(),
            (final(self)@, said(r)) == edited(
                old(self)@,
                page_rotated(old(self)@.edit, index, delta),
            ),
    {
        let r = self.edit.rotate_page(index, delta);
        self.after_edit(r)
    }

    /// Puts copies of all pages of another document behind those of this one.
    pub fn merge_document(&mut self, source: &Document) -> (r: Result<(), EditError>)
        requires
            old(self).wf(),
        ensures
            final(self).wf(),
            (final(self)@, said(r)) == edited(old(self)@, merged(old(self)@.edit, source@)),
    {
        let r = self.edit.merge_document(source);
        self.after_edit(r)
    }

    /// Takes back the last edit; `false` where there is none.
    pub fn undo_edit(&mut self) -> (r: Result<bool, EditError>)
        requires
            old(self).wf(),
        ensures
            final(self).wf(),
            if old(self)@.edit.undo.len() == 0 {
                r is Ok && !r->Ok_0 && final(self)@ == old(self)@
            } else {
                let (v, said) = edited(
                    old(self)@,
                    Ok::<SessionModel, EditFault>(old(self)@.edit.undone()),
                );
                &&& final(self)@ == v
                &&& match said {
                    Ok(_) => r is Ok && r->Ok_0,
                    Err(e) => r is Err && r->Err_0@ == e,
                }
            },
    {
        if !self.edit.undo() {
            return Ok(false);
        }
        match self.refresh_after_edit() {
            Ok(_) => Ok(true),
            Err(e) => Err(e),
        }
    }

    /// Makes the edit again that was taken back last; `false` where there is none.
    pub fn redo_edit(&mut self) -> (r: Result<bool, EditError>)
        requires
            old(self).wf(),
        ensures
            final(self).wf(),
            if old(self)@.edit.redo.len() == 0 {
                r is Ok && !r->Ok_0 && final(self)@ == old(self)@
            } else {
                let (v, said) = edited(
                    old(self)@,
                    Ok::<SessionModel, EditFault>(old(self)@.edit.redone()),
                );
                &&& final(self)@ == v
                &&& match said {
                    Ok(_) => r is Ok && r->Ok_0,
                    Err(e) => r is Err && r->Err_0@ == e,
                }
            },
    {
        if !self.edit.redo() {
            return Ok(false);
        }
        match self.refresh_after_edit() {
            Ok(_) => Ok(true),
            Err(e) => Err(e),
        }
    }
}

proof fn failed_text_stays(doc: DocModel, i: nat, n: nat)
    requires
        text_of_pages(doc, i) is Err,
        i <= n,
    ensures
        text_of_pages(doc, n) == text_of_pages(doc, i),
    decreases n,
{
    if i < n {
        failed_text_stays(doc, i, (n - 1) as nat);
    }
}

proof fn failed_search_stays(doc: DocModel, query: Seq<char>, i: nat, n: nat)
    requires
        pages_with(doc, query, i) is Err,
        i <= n,
    ensures
        pages_with(doc, query, n) == pages_with(doc, query, i),
    decreases n,
{
    if i < n {
        failed_search_stays(doc, query, i, (n - 1) as nat);
    }
}

/// The fields whose objects are among some references.
fn keep_fields(fields: Vec<FormFieldInfo>, refs: &Vec<ObjRef>) -> (r: Vec<FormFieldInfo>)
    ensures
        field_models(r@) == fields_among(field_models(fields@), refs@, fields@.len()),
{
    let ghost all = fields@;
    let ghost ms = field_models(fields@);
    let mut rest = fields;
    let mut out: Vec<FormFieldInfo> = Vec::new();
    assert(field_models(out@) =~= seq![]);
    let n: usize = rest.len();
    let mut i: usize = 0;
    while i < n
        invariant
            0 <= i <= n,
            n == all.len(),
            ms == field_models(all),
            rest@.len() == n - i,
            forall|j: int| 0 <= j < n - i ==> #[trigger] rest@[j] == all[i + j],
            field_models(out@) == fields_among(ms, refs@, i as nat),
        decreases n - i,
    {
        let f = rest.remove(0);
        assert(f == all[i as int]);
        assert(ms[i as int] == f@);
        let mut on_page = false;
        let mut k: usize = 0;
        while k < refs.len()
            invariant
                0 <= k <= refs@.len(),
                on_page == exists|j: int| 0 <= j < k && (#[trigger] refs@[j]).num == f.obj_ref.num,
            decreases refs@.len() - k,
        {
            if refs[k].num == f.obj_ref.num {
                assert(refs@[k as int].num == f.obj_ref.num);
                on_page = true;
            }
            k += 1;
        }
        if on_page {
            let ghost before = field_models(out@);
            out.push(f);
            assert(field_models(out@) =~= before.push(f@));
        }
        i += 1;
    }
    out
}

} // verus!
