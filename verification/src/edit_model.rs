//! What an editing session holds, and what each edit makes of it.
use vstd::prelude::*;
use crate::appearance::{corners, default_appearance, extent, highlight_text, line_text, overlay_text};
use crate::document::{DocModel, Outcome};
use crate::error::{ErrorModel, PdfError, Problem};
use crate::number::scaled;
use crate::object::{entry, DictModel, ObjRef, ObjectModel};
use crate::page::pages_in;
use vstd::utf8::encode_utf8;

verus! {

/// Why an edit was refused.
#[derive(Debug, Clone, Copy, PartialEq, Eq, Structural)]
pub enum Refusal {
    PageHasNoReference,
    PageIsNotADictionary,
    NoSuchAnnotation { index: usize, count: usize },
    NoSuchPage { index: usize, count: usize },
    NoAcroForm,
    AcroFormIsNotADictionary,
    NoFields,
    FieldsAreNotAnArray,
    NoSuchField,
    FieldIsNotADictionary,
    FieldHasNoRect,
    RootIsNotAReference,
    RootIsNotADictionary,
    PagesNodeIsNotADictionary,
    CopyIsNotADictionary,
    NumbersUsedUp,
}

/// An edit that failed: the document could not be read, or the edit was refused.
#[derive(Debug, PartialEq, Eq)]
pub enum EditError {
    Pdf(PdfError),
    Refused(Refusal),
}

/// A failure by what it says.
pub ghost enum EditFault {
    Pdf(ErrorModel),
    Refused(Refusal),
}

impl View for EditError {
    type V = EditFault;

    open spec fn view(&self) -> EditFault {
        match *self {
            EditError::Pdf(e) => EditFault::Pdf(e@),
            EditError::Refused(r) => EditFault::Refused(r),
        }
    }
}

/// What an edit changed of an object that was there.
pub ghost struct Change {
    pub num: u32,
    pub before: ObjectModel,
    pub after: ObjectModel,
}

/// An edit that can be undone. With `flattened` it put all pages below one node.
pub ghost struct OpModel {
    pub changes: Seq<Change>,
    pub flattened: Option<ObjRef>,
}

/// The one node that all pages hang from, and the pages in order.
pub ghost struct TreeModel {
    pub node: ObjRef,
    pub order: Seq<ObjRef>,
}

/// An editing session: a document that is only read, and objects that are not saved yet, new
/// ones or new versions of old ones.
pub ghost struct SessionModel {
    pub doc: DocModel,
    pub pending: Map<u32, ObjectModel>,
    pub next: int,
    pub undo: Seq<OpModel>,
    pub redo: Seq<OpModel>,
    pub tree: Option<TreeModel>,
}

/// The objects with the first `n` changes made.
pub open spec fn applied(pending: Map<u32, ObjectModel>, changes: Seq<Change>, n: nat) -> Map<
    u32,
    ObjectModel,
>
    decreases n,
{
    if n == 0 {
        pending
    } else {
        applied(pending, changes, (n - 1) as nat).insert(changes[n - 1].num, changes[n - 1].after)
    }
}

/// The objects with the first `n` changes taken back.
pub open spec fn restored(pending: Map<u32, ObjectModel>, changes: Seq<Change>, n: nat) -> Map<
    u32,
    ObjectModel,
>
    decreases n,
{
    if n == 0 {
        pending
    } else {
        restored(pending, changes, (n - 1) as nat).insert(changes[n - 1].num, changes[n - 1].before)
    }
}

/// Changes put in the objects that they change, and no others.
pub proof fn applied_numbers(pending: Map<u32, ObjectModel>, changes: Seq<Change>, n: nat)
    requires
        n <= changes.len(),
    ensures
        forall|k: u32|
            #[trigger] applied(pending, changes, n).contains_key(k) <==> pending.contains_key(k)
                || exists|i: int| 0 <= i < n && (#[trigger] changes[i]).num == k,
        forall|k: u32|
            (forall|i: int| 0 <= i < n ==> (#[trigger] changes[i]).num != k) && pending.contains_key(k)
                ==> #[trigger] applied(pending, changes, n)[k] == pending[k],
    decreases n,
{
    if n > 0 {
        applied_numbers(pending, changes, (n - 1) as nat);
        let before = applied(pending, changes, (n - 1) as nat);
        assert forall|k: u32|
            #[trigger] applied(pending, changes, n).contains_key(k) <==> pending.contains_key(k)
                || exists|i: int| 0 <= i < n && (#[trigger] changes[i]).num == k by {
            if changes[n - 1].num == k {
                assert(changes[n - 1].num == k);
            }
            if exists|i: int| 0 <= i < n && (#[trigger] changes[i]).num == k {
                let i = choose|i: int| 0 <= i < n && (#[trigger] changes[i]).num == k;
                if i < n - 1 {
                    assert(changes[i].num == k);
                    assert(before.contains_key(k));
                }
            }
        }
        assert forall|k: u32|
            (forall|i: int| 0 <= i < n ==> (#[trigger] changes[i]).num != k) && pending.contains_key(k)
                implies #[trigger] applied(pending, changes, n)[k] == pending[k] by {
            assert(changes[n - 1].num != k);
            assert(before[k] == pending[k]);
        }
    }
}

/// Changes taken back put in the objects that they changed, and no others.
pub proof fn restored_numbers(pending: Map<u32, ObjectModel>, changes: Seq<Change>, n: nat)
    requires
        n <= changes.len(),
    ensures
        forall|k: u32|
            #[trigger] restored(pending, changes, n).contains_key(k) <==> pending.contains_key(k)
                || exists|i: int| 0 <= i < n && (#[trigger] changes[i]).num == k,
        forall|k: u32|
            (forall|i: int| 0 <= i < n ==> (#[trigger] changes[i]).num != k) && pending.contains_key(k)
                ==> #[trigger] restored(pending, changes, n)[k] == pending[k],
    decreases n,
{
    if n > 0 {
        restored_numbers(pending, changes, (n - 1) as nat);
        let before = restored(pending, changes, (n - 1) as nat);
        assert forall|k: u32|
            #[trigger] restored(pending, changes, n).contains_key(k) <==> pending.contains_key(k)
                || exists|i: int| 0 <= i < n && (#[trigger] changes[i]).num == k by {
            if changes[n - 1].num == k {
                assert(changes[n - 1].num == k);
            }
            if exists|i: int| 0 <= i < n && (#[trigger] changes[i]).num == k {
                let i = choose|i: int| 0 <= i < n && (#[trigger] changes[i]).num == k;
                if i < n - 1 {
                    assert(changes[i].num == k);
                    assert(before.contains_key(k));
                }
            }
        }
        assert forall|k: u32|
            (forall|i: int| 0 <= i < n ==> (#[trigger] changes[i]).num != k) && pending.contains_key(k)
                implies #[trigger] restored(pending, changes, n)[k] == pending[k] by {
            assert(changes[n - 1].num != k);
            assert(before[k] == pending[k]);
        }
    }
}

/// The references among the first `n` items.
pub open spec fn references_in(items: Seq<ObjectModel>, n: nat) -> Seq<ObjRef>
    decreases n,
{
    if n == 0 {
        seq![]
    } else {
        let before = references_in(items, (n - 1) as nat);
        match items[n - 1] {
            ObjectModel::Reference(r) => before.push(r),
            _ => before,
        }
    }
}

/// References as the items of an array.
pub open spec fn reference_items(refs: Seq<ObjRef>) -> Seq<ObjectModel> {
    refs.map_values(|r: ObjRef| ObjectModel::Reference(r))
}

/// The kids of a node that are references.
pub open spec fn kids_of(o: Outcome) -> Option<Seq<ObjRef>> {
    match o {
        Ok(m) => match m.dict() {
            Some(d) => match entry(d, "Kids"@) {
                Some(ObjectModel::Array(items)) => Some(references_in(items, items.len())),
                _ => None,
            },
            None => None,
        },
        Err(_) => None,
    }
}

impl SessionModel {
    /// An object as it is now.
    pub open spec fn current(self, num: u32) -> Outcome {
        if self.pending.contains_key(num) {
            Ok(self.pending[num])
        } else {
            self.doc.resolved(ObjRef { num, gen: 0 })
        }
    }

    /// The session with a new object, under the next number.
    pub open spec fn with_new(self, o: ObjectModel) -> SessionModel {
        SessionModel {
            pending: self.pending.insert(self.next as u32, o),
            next: self.next + 1,
            ..self
        }
    }

    /// The session with the changes of an edit made.
    pub open spec fn committed(self, op: OpModel) -> SessionModel {
        SessionModel {
            pending: applied(self.pending, op.changes, op.changes.len()),
            undo: self.undo.push(op),
            redo: seq![],
            ..self
        }
    }

    /// The session with the order of its pages as the node has it.
    pub open spec fn refreshed(self) -> SessionModel {
        match self.tree {
            None => self,
            Some(t) => match kids_of(self.current(t.node.num)) {
                Some(order) => SessionModel {
                    tree: Some(TreeModel { node: t.node, order }),
                    ..self
                },
                None => self,
            },
        }
    }

    /// The session with its last edit taken back.
    pub open spec fn undone(self) -> SessionModel {
        if self.undo.len() == 0 {
            self
        } else {
            let op = self.undo.last();
            SessionModel {
                pending: restored(self.pending, op.changes, op.changes.len()),
                undo: self.undo.drop_last(),
                redo: self.redo.push(op),
                tree: if op.flattened is Some {
                    None
                } else {
                    self.tree
                },
                ..self
            }.refreshed()
        }
    }

    /// The session with the edit that was taken back last made again.
    pub open spec fn redone(self) -> SessionModel {
        if self.redo.len() == 0 {
            self
        } else {
            let op = self.redo.last();
            SessionModel {
                pending: applied(self.pending, op.changes, op.changes.len()),
                undo: self.undo.push(op),
                redo: self.redo.drop_last(),
                tree: match op.flattened {
                    Some(node) => Some(TreeModel { node, order: seq![] }),
                    None => self.tree,
                },
                ..self
            }.refreshed()
        }
    }

    /// The changes of an edit are of objects with numbers in use.
    pub open spec fn holds(self, op: OpModel) -> bool {
        forall|i: int| 0 <= i < op.changes.len() ==> (#[trigger] op.changes[i]).num < self.next
    }

    /// The numbers that are in use are below the next one.
    pub open spec fn wf(self) -> bool {
        &&& 0 < self.next <= u32::MAX
        &&& forall|n: u32| #[trigger] self.pending.contains_key(n) ==> n < self.next
        &&& forall|n: u32| #[trigger] self.doc.xref.contains_key(n) ==> n < self.next
        &&& forall|i: int| 0 <= i < self.undo.len() ==> self.holds(#[trigger] self.undo[i])
        &&& forall|i: int| 0 <= i < self.redo.len() ==> self.holds(#[trigger] self.redo[i])
    }

    /// An object that is there has a number in use.
    pub proof fn current_number(self, num: u32)
        requires
            self.wf(),
            self.current(num) is Ok,
        ensures
            num < self.next,
    {
        if !self.pending.contains_key(num) {
            assert(self.doc.xref.contains_key(num));
        }
    }

    pub proof fn committed_wf(self, op: OpModel)
        requires
            self.wf(),
            self.holds(op),
        ensures
            self.committed(op).wf(),
    {
        applied_numbers(self.pending, op.changes, op.changes.len());
        let s = self.committed(op);
        assert forall|n: u32| #[trigger] s.pending.contains_key(n) implies n < self.next by {
            if !self.pending.contains_key(n) {
                let i = choose|i: int|
                    0 <= i < op.changes.len() && (#[trigger] op.changes[i]).num == n;
                assert(op.changes[i].num == n);
            }
        }
        assert forall|i: int| 0 <= i < s.undo.len() implies s.holds(#[trigger] s.undo[i]) by {
            if i < self.undo.len() {
                assert(s.undo[i] == self.undo[i]);
                assert(self.holds(self.undo[i]));
            }
        }
    }

    pub proof fn undone_wf(self)
        requires
            self.wf(),
        ensures
            self.undone().wf(),
    {
        if self.undo.len() > 0 {
            let op = self.undo.last();
            assert(self.holds(self.undo[self.undo.len() - 1]));
            restored_numbers(self.pending, op.changes, op.changes.len());
            let s = self.undone();
            assert forall|n: u32| #[trigger] s.pending.contains_key(n) implies n < self.next by {
                if !self.pending.contains_key(n) {
                    let i = choose|i: int|
                        0 <= i < op.changes.len() && (#[trigger] op.changes[i]).num == n;
                    assert(op.changes[i].num == n);
                }
            }
            assert forall|i: int| 0 <= i < s.undo.len() implies s.holds(#[trigger] s.undo[i]) by {
                assert(self.holds(self.undo[i]));
            }
            assert forall|i: int| 0 <= i < s.redo.len() implies s.holds(#[trigger] s.redo[i]) by {
                if i < self.redo.len() {
                    assert(self.holds(self.redo[i]));
                }
            }
        }
    }

    pub proof fn redone_wf(self)
        requires
            self.wf(),
        ensures
            self.redone().wf(),
    {
        if self.redo.len() > 0 {
            let op = self.redo.last();
            assert(self.holds(self.redo[self.redo.len() - 1]));
            applied_numbers(self.pending, op.changes, op.changes.len());
            let s = self.redone();
            assert forall|n: u32| #[trigger] s.pending.contains_key(n) implies n < self.next by {
                if !self.pending.contains_key(n) {
                    let i = choose|i: int|
                        0 <= i < op.changes.len() && (#[trigger] op.changes[i]).num == n;
                    assert(op.changes[i].num == n);
                }
            }
            assert forall|i: int| 0 <= i < s.redo.len() implies s.holds(#[trigger] s.redo[i]) by {
                assert(self.holds(self.redo[i]));
            }
            assert forall|i: int| 0 <= i < s.undo.len() implies s.holds(#[trigger] s.undo[i]) by {
                if i < self.undo.len() {
                    assert(self.holds(self.undo[i]));
                }
            }
        }
    }

    pub proof fn with_new_wf(self, o: ObjectModel)
        requires
            self.wf(),
            self.has_room(1),
        ensures
            self.with_new(o).wf(),
    {
        let s = self.with_new(o);
        assert forall|i: int| 0 <= i < s.undo.len() implies s.holds(#[trigger] s.undo[i]) by {
            assert(self.holds(self.undo[i]));
        }
        assert forall|i: int| 0 <= i < s.redo.len() implies s.holds(#[trigger] s.redo[i]) by {
            assert(self.holds(self.redo[i]));
        }
    }

    /// There are `count` numbers left.
    pub open spec fn has_room(self, count: int) -> bool {
        self.next + count <= u32::MAX
    }
}

/// The reference of a page of the document.
pub open spec fn page_ref_at(doc: DocModel, index: int) -> Result<ObjRef, EditFault> {
    match pages_in(doc) {
        Err(e) => Err(EditFault::Pdf(e)),
        Ok(pages) => if index >= pages.len() {
            Err(EditFault::Pdf(ErrorModel::InvalidObject(0, Problem::NoSuchPage)))
        } else {
            match pages[index].object_ref {
                Some(r) => Ok(r),
                None => Err(EditFault::Refused(Refusal::PageHasNoReference)),
            }
        },
    }
}

/// An object with a dictionary as it is now.
pub open spec fn current_dict(s: SessionModel, num: u32, other: Refusal) -> Result<
    (ObjectModel, DictModel),
    EditFault,
> {
    match s.current(num) {
        Err(e) => Err(EditFault::Pdf(e)),
        Ok(o) => match o.dict() {
            Some(d) => Ok((o, d)),
            None => Err(EditFault::Refused(other)),
        },
    }
}

/// An array with an item more; what is no array counts as empty.
pub open spec fn array_with(o: ObjectModel, item: ObjectModel) -> ObjectModel {
    ObjectModel::Array(
        (match o.array() {
            Some(items) => items,
            None => seq![],
        }).push(item),
    )
}

/// The change that puts an annotation on a page: in its own array, or in the one that it refers
/// to.
pub open spec fn annotation_added(s: SessionModel, page: ObjRef, annot: ObjRef) -> Result<
    Change,
    EditFault,
> {
    match current_dict(s, page.num, Refusal::PageIsNotADictionary) {
        Err(e) => Err(e),
        Ok((o, d)) => match entry(d, "Annots"@) {
            Some(ObjectModel::Reference(r)) => match s.current(r.num) {
                Err(e) => Err(EditFault::Pdf(e)),
                Ok(before) => Ok(
                    Change {
                        num: r.num,
                        before,
                        after: array_with(before, ObjectModel::Reference(annot)),
                    },
                ),
            },
            own => Ok(
                Change {
                    num: page.num,
                    before: o,
                    after: ObjectModel::Dictionary(
                        d.insert(
                            "Annots"@,
                            array_with(
                                match own {
                                    Some(list) => list,
                                    None => ObjectModel::Null,
                                },
                                ObjectModel::Reference(annot),
                            ),
                        ),
                    ),
                },
            ),
        },
    }
}

/// An edit of one object.
pub open spec fn one_change(c: Change) -> OpModel {
    OpModel { changes: seq![c], flattened: None }
}

pub open spec fn name_of(text: Seq<char>) -> ObjectModel {
    ObjectModel::Name(text)
}

/// A number of millionths.
pub open spec fn micro(n: int) -> ObjectModel {
    ObjectModel::Real(scaled(n, 6))
}

pub open spec fn ref_to(num: int) -> ObjectModel {
    ObjectModel::Reference(ObjRef { num: num as u32, gen: 0 })
}

pub open spec fn no_names() -> DictModel {
    Map::empty()
}

/// A graphics state with an opacity of two fifths.
#[verifier::opaque]
pub open spec fn highlight_state() -> ObjectModel {
    ObjectModel::Dictionary(
        no_names().insert("Type"@, name_of("ExtGState"@)).insert("ca"@, micro(400_000)),
    )
}

/// A form with a content and resources.
#[verifier::opaque]
pub open spec fn form(resources: DictModel, width: int, height: int, content: Seq<u8>) -> ObjectModel {
    ObjectModel::Stream(
        no_names().insert("Type"@, name_of("XObject"@)).insert("Subtype"@, name_of("Form"@)).insert(
            "Resources"@,
            ObjectModel::Dictionary(resources),
        ).insert(
            "BBox"@,
            ObjectModel::Array(
                seq![
                    ObjectModel::Integer(0),
                    ObjectModel::Integer(0),
                    micro(width),
                    micro(height),
                ],
            ),
        ),
        content,
    )
}

/// The resources of a highlight: its graphics state.
#[verifier::opaque]
pub open spec fn highlight_resources(state: int) -> DictModel {
    no_names().insert(
        "ExtGState"@,
        ObjectModel::Dictionary(no_names().insert("GS0"@, ref_to(state))),
    )
}

/// The corners of a rectangle, the upper ones first.
pub open spec fn quad_of(c: (i64, i64, i64, i64)) -> Seq<i64> {
    seq![c.0, c.3, c.2, c.3, c.0, c.1, c.2, c.1]
}

#[verifier::opaque]
pub open spec fn micros(s: Seq<i64>) -> ObjectModel {
    ObjectModel::Array(s.map_values(|n: i64| micro(n as int)))
}

/// The appearance of an annotation.
#[verifier::opaque]
pub open spec fn appearance(form_num: int) -> ObjectModel {
    ObjectModel::Dictionary(no_names().insert("N"@, ref_to(form_num)))
}

/// What all annotations have: a kind, a place and an appearance.
#[verifier::opaque]
pub open spec fn annotation(kind: Seq<char>, c: (i64, i64, i64, i64), form_num: int) -> DictModel {
    no_names().insert("Type"@, name_of("Annot"@)).insert("Subtype"@, name_of(kind)).insert(
        "Rect"@,
        micros(seq![c.0, c.1, c.2, c.3]),
    ).insert("AP"@, appearance(form_num))
}

/// An annotation that marks text.
#[verifier::opaque]
pub open spec fn text_markup(
    kind: Seq<char>,
    c: (i64, i64, i64, i64),
    quad: Seq<i64>,
    color: [i64; 3],
    form_num: int,
) -> ObjectModel {
    ObjectModel::Dictionary(
        annotation(kind, c, form_num).insert("QuadPoints"@, micros(quad)).insert(
            "C"@,
            micros(color@),
        ),
    )
}

/// The session with an annotation on a page, behind the new objects that it needs.
pub open spec fn annotated(s: SessionModel, page: ObjRef, news: Seq<ObjectModel>) -> Result<
    SessionModel,
    EditFault,
> {
    if !s.has_room(news.len() as int) {
        Err(EditFault::Refused(Refusal::NumbersUsedUp))
    } else {
        match annotation_added(
            s,
            page,
            ObjRef { num: (s.next + news.len() - 1) as u32, gen: 0 },
        ) {
            Err(e) => Err(e),
            Ok(c) => Ok(with_all_new(s, news, news.len()).committed(one_change(c))),
        }
    }
}

/// The session with the first `n` new objects.
pub open spec fn with_all_new(s: SessionModel, news: Seq<ObjectModel>, n: nat) -> SessionModel
    decreases n,
{
    if n == 0 {
        s
    } else {
        with_all_new(s, news, (n - 1) as nat).with_new(news[n - 1])
    }
}

/// The session with a rectangle of a page highlighted.
pub open spec fn highlighted(
    s: SessionModel,
    index: int,
    rect: [i64; 4],
    color: [i64; 3],
    quad: Seq<i64>,
) -> Result<SessionModel, EditFault> {
    let c = corners(rect);
    let width = extent(c.0 as int, c.2 as int);
    let height = extent(c.1 as int, c.3 as int);
    match page_ref_at(s.doc, index) {
        Err(e) => Err(e),
        Ok(page) => annotated(
            s,
            page,
            seq![
                highlight_state(),
                form(
                    highlight_resources(s.next),
                    width,
                    height,
                    highlight_text(color, width, height),
                ),
                text_markup(
                    "Highlight"@,
                    c,
                    if quad.len() == 8 {
                        quad
                    } else {
                        quad_of(c)
                    },
                    color,
                    s.next + 1,
                ),
            ],
        ),
    }
}

/// The session with a line across a rectangle of a page, at some hundredths of its height.
pub open spec fn lined(
    s: SessionModel,
    kind: Seq<char>,
    index: int,
    rect: [i64; 4],
    color: [i64; 3],
    hundredths: int,
) -> Result<SessionModel, EditFault> {
    let c = corners(rect);
    let width = extent(c.0 as int, c.2 as int);
    let height = extent(c.1 as int, c.3 as int);
    match page_ref_at(s.doc, index) {
        Err(e) => Err(e),
        Ok(page) => annotated(
            s,
            page,
            seq![
                form(no_names(), width, height, line_text(color, width, height, hundredths)),
                text_markup(kind, c, quad_of(c), color, s.next),
            ],
        ),
    }
}

/// Helvetica, which a document need not hold.
#[verifier::opaque]
pub open spec fn helvetica() -> ObjectModel {
    ObjectModel::Dictionary(
        no_names().insert("Type"@, name_of("Font"@)).insert("Subtype"@, name_of("Type1"@)).insert(
            "BaseFont"@,
            name_of("Helvetica"@),
        ).insert("Encoding"@, name_of("WinAnsiEncoding"@)),
    )
}

/// The resources of a text: its font.
#[verifier::opaque]
pub open spec fn font_resources(font: int) -> DictModel {
    no_names().insert("Font"@, ObjectModel::Dictionary(no_names().insert("Helv"@, ref_to(font))))
}

/// The session with a text on a page, over a background where there is one.
pub open spec fn overlaid(
    s: SessionModel,
    index: int,
    rect: [i64; 4],
    text: Seq<char>,
    size: i64,
    color: [i64; 3],
    background: Option<[i64; 3]>,
) -> Result<SessionModel, EditFault> {
    let c = corners(rect);
    let width = extent(c.0 as int, c.2 as int);
    let height = extent(c.1 as int, c.3 as int);
    match page_ref_at(s.doc, index) {
        Err(e) => Err(e),
        Ok(page) => annotated(
            s,
            page,
            seq![
                helvetica(),
                form(
                    font_resources(s.next),
                    width,
                    height,
                    overlay_text(width, height, text, size as int, color, background),
                ),
                ObjectModel::Dictionary(
                    annotation("FreeText"@, c, s.next + 1).insert(
                        "Contents"@,
                        ObjectModel::String(encode_utf8(text)),
                    ).insert("DA"@, ObjectModel::String(default_appearance(size as int))),
                ),
            ],
        ),
    }
}

/// The annotations of a page that are references.
pub open spec fn annotations_of(s: SessionModel, page: ObjRef) -> Result<Seq<ObjRef>, EditFault> {
    match current_dict(s, page.num, Refusal::PageIsNotADictionary) {
        Err(e) => Err(e),
        Ok((_, d)) => match entry(d, "Annots"@) {
            None => Ok(seq![]),
            Some(o) => {
                let list = match o {
                    ObjectModel::Reference(r) => s.current(r.num),
                    _ => Ok(o),
                };
                match list {
                    Err(e) => Err(EditFault::Pdf(e)),
                    Ok(m) => match m.array() {
                        Some(items) => Ok(references_in(items, items.len())),
                        None => Ok(seq![]),
                    },
                }
            },
        },
    }
}

/// The change that leaves a page with some annotations.
pub open spec fn annotations_set(s: SessionModel, page: ObjRef, refs: Seq<ObjRef>) -> Result<
    Change,
    EditFault,
> {
    let list = ObjectModel::Array(reference_items(refs));
    match current_dict(s, page.num, Refusal::PageIsNotADictionary) {
        Err(e) => Err(e),
        Ok((o, d)) => match entry(d, "Annots"@) {
            Some(ObjectModel::Reference(r)) => match s.current(r.num) {
                Err(e) => Err(EditFault::Pdf(e)),
                Ok(before) => Ok(Change { num: r.num, before, after: list }),
            },
            _ => Ok(
                Change {
                    num: page.num,
                    before: o,
                    after: ObjectModel::Dictionary(d.insert("Annots"@, list)),
                },
            ),
        },
    }
}

/// The session with an annotation taken off a page.
pub open spec fn unannotated(s: SessionModel, page_index: int, index: usize) -> Result<
    SessionModel,
    EditFault,
> {
    match page_ref_at(s.doc, page_index) {
        Err(e) => Err(e),
        Ok(page) => match annotations_of(s, page) {
            Err(e) => Err(e),
            Ok(refs) => if index >= refs.len() {
                Err(
                    EditFault::Refused(
                        Refusal::NoSuchAnnotation { index, count: refs.len() as usize },
                    ),
                )
            } else {
                match annotations_set(s, page, refs.remove(index as int)) {
                    Err(e) => Err(e),
                    Ok(c) => Ok(s.committed(one_change(c))),
                }
            },
        },
    }
}

} // verus!
