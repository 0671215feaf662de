//! What edits leave behind: annotations, values of fields, and pages.
use vstd::prelude::*;
use vstd::utf8::{encode_utf8, encode_utf8_valid_utf8};
use crate::appearance::{baseline, corners, extent, field_size};
use crate::copying::{box_array, standing};
use crate::edit_model::{annotated, annotation, annotation_added, annotations_of, annotations_set, appearance, applied, font_resources, form, highlight_resources, highlight_state, highlighted, lined, micros, one_change, overlaid, page_ref_at, quad_of, reference_items, references_in, text_markup, unannotated, with_all_new, Change, EditFault, SessionModel};
use crate::form::{field_of, field_set, filled, named_field, rect_of, text_under};
use crate::image::named_space;
use crate::number::{real_of_int, scaled};
use crate::object::{entry, string_text, DictModel, ObjRef, ObjectModel};
use crate::page::PageModel;
use crate::page_order::references_read_back;
use crate::page_tree::{image_bounds, image_resources, jpeg_object, page_rotated, plain_page, put_at, turned};
use crate::text::text_of_encoded;

verus! {

/// The one change of an edit is what holds behind it.
proof fn change_holds(s: SessionModel, c: Change, num: u32)
    ensures
        s.committed(one_change(c)).current(c.num) == Ok::<ObjectModel, crate::error::ErrorModel>(c.after),
        num != c.num ==> s.committed(one_change(c)).current(num) == s.current(num),
{
    reveal_with_fuel(applied, 2);
}

/// New objects stand under the next numbers, in their order, and those that were there stay.
proof fn new_objects_stand(s: SessionModel, news: Seq<ObjectModel>, n: nat)
    requires
        s.wf(),
        s.has_room(news.len() as int),
        n <= news.len(),
    ensures
        with_all_new(s, news, n).next == s.next + n,
        with_all_new(s, news, n).doc == s.doc,
        forall|k: int|
            0 <= k < n ==> #[trigger] with_all_new(s, news, n).current((s.next + k) as u32) == Ok::<
                ObjectModel,
                crate::error::ErrorModel,
            >(news[k]),
        forall|num: u32|
            num < s.next ==> #[trigger] with_all_new(s, news, n).current(num) == s.current(num),
    decreases n,
{
    if n > 0 {
        new_objects_stand(s, news, (n - 1) as nat);
        let before = with_all_new(s, news, (n - 1) as nat);
        let after = with_all_new(s, news, n);
        let last = before.next as u32;
        assert(last == s.next + (n - 1));
        assert(after.pending == before.pending.insert(last, news[n - 1]));
        assert forall|k: int| 0 <= k < n implies #[trigger] after.current((s.next + k) as u32) == Ok::<
            ObjectModel,
            crate::error::ErrorModel,
        >(news[k]) by {
            let num = (s.next + k) as u32;
            if k < n - 1 {
                assert(before.current(num) == Ok::<ObjectModel, crate::error::ErrorModel>(news[k]));
                assert(num != last);
            }
        }
        assert forall|num: u32| num < s.next implies #[trigger] after.current(num) == s.current(num) by {
            assert(before.current(num) == s.current(num));
            assert(num != last);
        }
    }
}

/// The annotations are those of a list that the page has or refers to; it does not refer to
/// itself for them.
pub open spec fn list_is_apart(s: SessionModel, page: ObjRef) -> bool {
    match s.current(page.num) {
        Ok(o) => match o.dict() {
            Some(d) => match entry(d, "Annots"@) {
                Some(ObjectModel::Reference(r)) => r.num != page.num && match s.current(r.num) {
                    Ok(list) => !(list is Reference),
                    Err(_) => true,
                },
                _ => true,
            },
            None => true,
        },
        Err(_) => true,
    }
}

proof fn references_behind(items: Seq<ObjectModel>, r: ObjRef, n: nat)
    requires
        n <= items.len(),
    ensures
        references_in(items.push(ObjectModel::Reference(r)), n) == references_in(items, n),
    decreases n,
{
    if n > 0 {
        assert(items.push(ObjectModel::Reference(r))[n - 1] == items[n - 1]);
        references_behind(items, r, (n - 1) as nat);
    }
}

/// An annotation that is put on a page stands behind all that were there.
#[verifier::rlimit(50)]
pub proof fn added_annotation_is_the_last(s: SessionModel, page: ObjRef, annot: ObjRef, c: Change)
    requires
        annotation_added(s, page, annot) == Ok::<Change, EditFault>(c),
        list_is_apart(s, page),
    ensures
        annotations_of(s, page) is Ok,
        annotations_of(s.committed(one_change(c)), page) == Ok::<Seq<ObjRef>, EditFault>(
            annotations_of(s, page)->Ok_0.push(annot),
        ),
{
    let t = s.committed(one_change(c));
    let o = s.current(page.num)->Ok_0;
    let d = o.dict()->0;
    change_holds(s, c, page.num);
    let list = match entry(d, "Annots"@) {
        Some(ObjectModel::Reference(r)) => s.current(r.num)->Ok_0,
        Some(own) => own,
        None => ObjectModel::Null,
    };
    let items = match list.array() {
        Some(x) => x,
        None => seq![],
    };
    references_behind(items, annot, items.len());
    let more = items.push(ObjectModel::Reference(annot));
    assert(more.len() == items.len() + 1);
    assert(references_in(more, more.len()) == references_in(items, items.len()).push(annot));
    assert(references_in(Seq::<ObjectModel>::empty(), 0) =~= seq![]);
}

/// A page that is left with some annotations has these.
proof fn set_annotations_are_had(s: SessionModel, page: ObjRef, refs: Seq<ObjRef>, c: Change)
    requires
        annotations_set(s, page, refs) == Ok::<Change, EditFault>(c),
        list_is_apart(s, page),
    ensures
        annotations_of(s.committed(one_change(c)), page) == Ok::<Seq<ObjRef>, EditFault>(refs),
{
    change_holds(s, c, page.num);
    references_read_back(refs, refs.len());
    assert(refs.take(refs.len() as int) =~= refs);
    assert(reference_items(refs).len() == refs.len());
}

/// An annotation that is taken off is gone from the list, and the others stay in their order.
#[verifier::rlimit(50)]
pub proof fn removed_annotation_is_gone(s: SessionModel, page_index: int, page: ObjRef, index: usize, t: SessionModel)
    requires
        page_ref_at(s.doc, page_index) == Ok::<ObjRef, EditFault>(page),
        unannotated(s, page_index, index) == Ok::<SessionModel, EditFault>(t),
        list_is_apart(s, page),
    ensures
        ({
            let before = annotations_of(s, page)->Ok_0;
            let behind = annotations_of(t, page)->Ok_0;
            &&& annotations_of(s, page) is Ok
            &&& annotations_of(t, page) is Ok
            &&& index < before.len()
            &&& behind.len() == before.len() - 1
            &&& forall|k: int| 0 <= k < index ==> #[trigger] behind[k] == before[k]
            &&& forall|k: int| index <= k < behind.len() ==> #[trigger] behind[k] == before[k + 1]
        }),
{
    let refs = annotations_of(s, page)->Ok_0;
    let left = refs.remove(index as int);
    let c = annotations_set(s, page, left)->Ok_0;
    set_annotations_are_had(s, page, left, c);
    assert(t == s.committed(one_change(c)));
}

/// An annotation with what it needs: the new objects stand under the next numbers, and the last of
/// them is on the page behind all others.
#[verifier::rlimit(50)]
proof fn annotated_page(s: SessionModel, page: ObjRef, news: Seq<ObjectModel>, t: SessionModel)
    requires
        s.wf(),
        news.len() > 0,
        annotated(s, page, news) == Ok::<SessionModel, EditFault>(t),
        list_is_apart(s, page),
    ensures
        forall|k: int|
            0 <= k < news.len() ==> #[trigger] t.current((s.next + k) as u32) == Ok::<
                ObjectModel,
                crate::error::ErrorModel,
            >(news[k]),
        annotations_of(s, page) is Ok,
        annotations_of(t, page) == Ok::<Seq<ObjRef>, EditFault>(
            annotations_of(s, page)->Ok_0.push(ObjRef { num: (s.next + news.len() - 1) as u32, gen: 0 }),
        ),
{
    let annot = ObjRef { num: (s.next + news.len() - 1) as u32, gen: 0 };
    let c = annotation_added(s, page, annot)->Ok_0;
    let u = with_all_new(s, news, news.len());
    new_objects_stand(s, news, news.len());
    let o = s.current(page.num)->Ok_0;
    let d = o.dict()->0;
    s.current_number(page.num);
    match entry(d, "Annots"@) {
        Some(ObjectModel::Reference(r)) => {
            s.current_number(r.num);
            assert(u.current(r.num) == s.current(r.num));
        },
        _ => {},
    }
    assert(u.current(page.num) == s.current(page.num));
    assert(annotation_added(u, page, annot) == annotation_added(s, page, annot));
    assert(annotations_of(u, page) == annotations_of(s, page));
    added_annotation_is_the_last(u, page, annot, c);
    assert forall|k: int| 0 <= k < news.len() implies #[trigger] t.current((s.next + k) as u32) == Ok::<
        ObjectModel,
        crate::error::ErrorModel,
    >(news[k]) by {
        assert(c.num < s.next);
        change_holds(u, c, (s.next + k) as u32);
        assert(u.current((s.next + k) as u32) == Ok::<ObjectModel, crate::error::ErrorModel>(news[k]));
    }
}

/// The names of the entries differ.
proof fn names_differ()
    ensures
        "Type"@ != "Subtype"@ && "Type"@ != "Rect"@ && "Type"@ != "AP"@ && "Type"@ != "QuadPoints"@
            && "Type"@ != "C"@,
        "Subtype"@ != "Rect"@ && "Subtype"@ != "AP"@ && "Subtype"@ != "QuadPoints"@ && "Subtype"@
            != "C"@,
        "Rect"@ != "AP"@ && "Rect"@ != "QuadPoints"@ && "Rect"@ != "C"@,
        "AP"@ != "QuadPoints"@ && "AP"@ != "C"@ && "QuadPoints"@ != "C"@,
        "Contents"@ != "DA"@ && "Contents"@ != "AP"@ && "Contents"@ != "Rect"@ && "Contents"@
            != "Subtype"@,
        "DA"@ != "AP"@ && "DA"@ != "Rect"@ && "DA"@ != "Subtype"@,
        "V"@ != "AP"@ && "V"@ != "T"@ && "V"@ != "FT"@ && "V"@ != "Rect"@,
        "AP"@ != "T"@ && "AP"@ != "FT"@,
        "BBox"@ != "Type"@ && "BBox"@ != "Subtype"@ && "BBox"@ != "Resources"@ && "Resources"@
            != "Subtype"@ && "Resources"@ != "Type"@,
{
    reveal_strlit("Type");
    reveal_strlit("Subtype");
    reveal_strlit("Rect");
    reveal_strlit("AP");
    reveal_strlit("QuadPoints");
    reveal_strlit("C");
    reveal_strlit("Contents");
    reveal_strlit("DA");
    reveal_strlit("V");
    reveal_strlit("T");
    reveal_strlit("FT");
    reveal_strlit("BBox");
    reveal_strlit("Resources");
    assert("Type"@.len() == 4 && "Rect"@.len() == 4 && "BBox"@.len() == 4);
    assert("Type"@[0] == 'T' && "Rect"@[0] == 'R' && "BBox"@[0] == 'B');
    assert("AP"@.len() == 2 && "DA"@.len() == 2 && "FT"@.len() == 2);
    assert("AP"@[0] == 'A' && "DA"@[0] == 'D' && "FT"@[0] == 'F');
    assert("V"@.len() == 1 && "T"@.len() == 1 && "C"@.len() == 1);
    assert("V"@[0] == 'V' && "T"@[0] == 'T' && "C"@[0] == 'C');
    assert("Subtype"@.len() == 7 && "QuadPoints"@.len() == 10 && "Contents"@.len() == 8);
    assert("Resources"@.len() == 9);
}

/// The items are numbers of millionths.
pub open spec fn holds_millionths(o: Option<ObjectModel>, s: Seq<i64>) -> bool {
    &&& o is Some
    &&& o->0 is Array
    &&& o->0->Array_0.len() == s.len()
    &&& forall|k: int|
        0 <= k < s.len() ==> #[trigger] o->0->Array_0[k] == ObjectModel::Real(scaled(s[k] as int, 6))
}

/// The dictionary is that of an annotation of a kind in a rectangle, whose appearance is an object.
pub open spec fn is_annotation_of(
    d: DictModel,
    kind: Seq<char>,
    left: i64,
    bottom: i64,
    right: i64,
    top: i64,
    look: int,
) -> bool {
    &&& entry(d, "Type"@) == Some(ObjectModel::Name("Annot"@))
    &&& entry(d, "Subtype"@) == Some(ObjectModel::Name(kind))
    &&& holds_millionths(entry(d, "Rect"@), seq![left, bottom, right, top])
    &&& entry(d, "AP"@) is Some
    &&& entry(d, "AP"@)->0 is Dictionary
    &&& entry(entry(d, "AP"@)->0->Dictionary_0, "N"@) == Some(
        ObjectModel::Reference(ObjRef { num: look as u32, gen: 0 }),
    )
}

/// A length is at least a point.
pub proof fn lengths_are_at_least_a_point(a: int, b: int)
    ensures
        b - a >= 1_000_000 ==> extent(a, b) == b - a,
        b - a < 1_000_000 ==> extent(a, b) == 1_000_000,
{
}

/// A rectangle by two corners is in order, whichever two they are.
pub proof fn corners_are_in_order(rect: [i64; 4])
    ensures
        ({
            let c = corners(rect);
            &&& c.0 <= c.2 && c.1 <= c.3
            &&& (c.0 == rect[0] && c.2 == rect[2]) || (c.0 == rect[2] && c.2 == rect[0])
            &&& (c.1 == rect[1] && c.3 == rect[3]) || (c.1 == rect[3] && c.3 == rect[1])
        }),
{
}

proof fn annotation_says(kind: Seq<char>, c: (i64, i64, i64, i64), look: int)
    ensures
        is_annotation_of(annotation(kind, c, look), kind, c.0, c.1, c.2, c.3, look),
{
    reveal(annotation);
    reveal(micros);
    reveal(appearance);
    names_differ();
}

/// The object is an annotation that marks text with a color: its corners are those of a rectangle
/// in order, and those of the text are given two by two.
#[verifier::opaque]
pub open spec fn is_markup(
    o: ObjectModel,
    kind: Seq<char>,
    c: (i64, i64, i64, i64),
    quad: Seq<i64>,
    color: Seq<i64>,
    look: int,
) -> bool {
    &&& o is Dictionary
    &&& is_annotation_of(o->Dictionary_0, kind, c.0, c.1, c.2, c.3, look)
    &&& holds_millionths(entry(o->Dictionary_0, "QuadPoints"@), quad)
    &&& holds_millionths(entry(o->Dictionary_0, "C"@), color)
}

proof fn markup_says(
    kind: Seq<char>,
    c: (i64, i64, i64, i64),
    quad: Seq<i64>,
    color: [i64; 3],
    look: int,
)
    ensures
        is_markup(text_markup(kind, c, quad, color, look), kind, c, quad, color@, look),
{
    reveal(is_markup);
    reveal(text_markup);
    reveal(micros);
    names_differ();
    annotation_says(kind, c, look);
}

/// The object is a form of a size with resources and a content.
#[verifier::opaque]
pub open spec fn is_form_of(o: ObjectModel, resources: DictModel, width: int, height: int, content: Seq<u8>) -> bool {
    &&& o is Stream
    &&& o->Stream_1 == content
    &&& entry(o->Stream_0, "Subtype"@) == Some(ObjectModel::Name("Form"@))
    &&& entry(o->Stream_0, "Resources"@) == Some(ObjectModel::Dictionary(resources))
    &&& entry(o->Stream_0, "BBox"@) is Some
    &&& entry(o->Stream_0, "BBox"@)->0 == ObjectModel::Array(
        seq![
            ObjectModel::Integer(0),
            ObjectModel::Integer(0),
            ObjectModel::Real(scaled(width, 6)),
            ObjectModel::Real(scaled(height, 6)),
        ],
    )
}

proof fn form_says(resources: DictModel, width: int, height: int, content: Seq<u8>)
    ensures
        is_form_of(form(resources, width, height, content), resources, width, height, content),
{
    reveal(is_form_of);
    reveal(form);
    names_differ();
}

/// A highlight stands on its page behind all other annotations: it has the place, the corners of
/// the marked text and the color that were asked for, and looks like its form, which is as large
/// as its place, at least a point each way.
#[verifier::rlimit(50)]
pub proof fn highlight_is_on_the_page(
    s: SessionModel,
    index: int,
    page: ObjRef,
    rect: [i64; 4],
    color: [i64; 3],
    quad: Seq<i64>,
    t: SessionModel,
)
    requires
        s.wf(),
        page_ref_at(s.doc, index) == Ok::<ObjRef, EditFault>(page),
        highlighted(s, index, rect, color, quad) == Ok::<SessionModel, EditFault>(t),
        list_is_apart(s, page),
    ensures
        ({
            let c = corners(rect);
            let mark = t.current((s.next + 2) as u32);
            let look = t.current((s.next + 1) as u32);
            let width = if c.2 - c.0 > 1_000_000 {
                c.2 - c.0
            } else {
                1_000_000
            };
            let height = if c.3 - c.1 > 1_000_000 {
                c.3 - c.1
            } else {
                1_000_000
            };
            &&& annotations_of(t, page) == Ok::<Seq<ObjRef>, EditFault>(
                annotations_of(s, page)->Ok_0.push(ObjRef { num: (s.next + 2) as u32, gen: 0 }),
            )
            &&& mark is Ok && is_markup(
                mark->Ok_0,
                "Highlight"@,
                c,
                if quad.len() == 8 {
                    quad
                } else {
                    seq![c.0, c.3, c.2, c.3, c.0, c.1, c.2, c.1]
                },
                color@,
                s.next + 1,
            )
            &&& look is Ok && is_form_of(
                look->Ok_0,
                highlight_resources(s.next),
                width,
                height,
                crate::appearance::highlight_text(color, width, height),
            )
            &&& t.current(s.next as u32) == Ok::<ObjectModel, crate::error::ErrorModel>(
                highlight_state(),
            )
        }),
{
    let c = corners(rect);
    let width = extent(c.0 as int, c.2 as int);
    let height = extent(c.1 as int, c.3 as int);
    let content = crate::appearance::highlight_text(color, width, height);
    let q = if quad.len() == 8 {
        quad
    } else {
        quad_of(c)
    };
    let news = seq![
        highlight_state(),
        form(highlight_resources(s.next), width, height, content),
        text_markup("Highlight"@, c, q, color, s.next + 1),
    ];
    annotated_page(s, page, news, t);
    assert(t.current((s.next + 0) as u32) == Ok::<ObjectModel, crate::error::ErrorModel>(news[0]));
    assert(t.current((s.next + 1) as u32) == Ok::<ObjectModel, crate::error::ErrorModel>(news[1]));
    assert(t.current((s.next + 2) as u32) == Ok::<ObjectModel, crate::error::ErrorModel>(news[2]));
    markup_says("Highlight"@, c, q, color, s.next + 1);
    form_says(highlight_resources(s.next), width, height, content);
}

/// The state of a highlight lets two fifths of its color through, and its form finds that state.
pub proof fn highlight_lets_the_text_through(state: int)
    ensures
        highlight_state() is Dictionary,
        entry(highlight_state()->Dictionary_0, "ca"@) == Some(ObjectModel::Real(scaled(400_000, 6))),
        ({
            let states = entry(highlight_resources(state), "ExtGState"@);
            &&& states is Some && states->0 is Dictionary
            &&& entry(states->0->Dictionary_0, "GS0"@) == Some(
                ObjectModel::Reference(ObjRef { num: state as u32, gen: 0 }),
            )
        }),
{
    reveal(highlight_state);
    reveal(highlight_resources);
}

/// A line across a text is an annotation of its kind, with the place and the color that were asked
/// for.
#[verifier::rlimit(50)]
pub proof fn line_is_on_the_page(
    s: SessionModel,
    kind: Seq<char>,
    index: int,
    page: ObjRef,
    rect: [i64; 4],
    color: [i64; 3],
    hundredths: int,
    t: SessionModel,
)
    requires
        s.wf(),
        page_ref_at(s.doc, index) == Ok::<ObjRef, EditFault>(page),
        lined(s, kind, index, rect, color, hundredths) == Ok::<SessionModel, EditFault>(t),
        list_is_apart(s, page),
    ensures
        ({
            let c = corners(rect);
            let mark = t.current((s.next + 1) as u32);
            let look = t.current(s.next as u32);
            &&& annotations_of(t, page) == Ok::<Seq<ObjRef>, EditFault>(
                annotations_of(s, page)->Ok_0.push(ObjRef { num: (s.next + 1) as u32, gen: 0 }),
            )
            &&& mark is Ok && is_markup(
                mark->Ok_0,
                kind,
                c,
                seq![c.0, c.3, c.2, c.3, c.0, c.1, c.2, c.1],
                color@,
                s.next,
            )
            &&& look is Ok && is_form_of(
                look->Ok_0,
                crate::edit_model::no_names(),
                extent(c.0 as int, c.2 as int),
                extent(c.1 as int, c.3 as int),
                crate::appearance::line_text(
                    color,
                    extent(c.0 as int, c.2 as int),
                    extent(c.1 as int, c.3 as int),
                    hundredths,
                ),
            )
        }),
{
    let c = corners(rect);
    let width = extent(c.0 as int, c.2 as int);
    let height = extent(c.1 as int, c.3 as int);
    let content = crate::appearance::line_text(color, width, height, hundredths);
    let none = crate::edit_model::no_names();
    let news = seq![
        form(none, width, height, content),
        text_markup(kind, c, quad_of(c), color, s.next),
    ];
    annotated_page(s, page, news, t);
    assert(t.current((s.next + 0) as u32) == Ok::<ObjectModel, crate::error::ErrorModel>(news[0]));
    assert(t.current((s.next + 1) as u32) == Ok::<ObjectModel, crate::error::ErrorModel>(news[1]));
    markup_says(kind, c, quad_of(c), color, s.next);
    form_says(none, width, height, content);
}

/// A text put over a page is an annotation with that text for its contents, in the place that was
/// asked for.
#[verifier::rlimit(50)]
pub proof fn overlay_is_on_the_page(
    s: SessionModel,
    index: int,
    page: ObjRef,
    rect: [i64; 4],
    text: Seq<char>,
    size: i64,
    color: [i64; 3],
    background: Option<[i64; 3]>,
    t: SessionModel,
)
    requires
        s.wf(),
        page_ref_at(s.doc, index) == Ok::<ObjRef, EditFault>(page),
        overlaid(s, index, rect, text, size, color, background) == Ok::<SessionModel, EditFault>(t),
        list_is_apart(s, page),
    ensures
        ({
            let c = corners(rect);
            let mark = t.current((s.next + 2) as u32);
            let look = t.current((s.next + 1) as u32);
            &&& annotations_of(t, page) == Ok::<Seq<ObjRef>, EditFault>(
                annotations_of(s, page)->Ok_0.push(ObjRef { num: (s.next + 2) as u32, gen: 0 }),
            )
            &&& mark is Ok && mark->Ok_0 is Dictionary
            &&& is_annotation_of(
                mark->Ok_0->Dictionary_0,
                "FreeText"@,
                c.0,
                c.1,
                c.2,
                c.3,
                s.next + 1,
            )
            &&& text_under(mark->Ok_0->Dictionary_0, "Contents"@) == Some(text)
            &&& look is Ok && is_form_of(
                look->Ok_0,
                font_resources(s.next),
                extent(c.0 as int, c.2 as int),
                extent(c.1 as int, c.3 as int),
                crate::appearance::overlay_text(
                    extent(c.0 as int, c.2 as int),
                    extent(c.1 as int, c.3 as int),
                    text,
                    size as int,
                    color,
                    background,
                ),
            )
        }),
{
    let c = corners(rect);
    let width = extent(c.0 as int, c.2 as int);
    let height = extent(c.1 as int, c.3 as int);
    let content = crate::appearance::overlay_text(width, height, text, size as int, color, background);
    let d = annotation("FreeText"@, c, s.next + 1).insert(
        "Contents"@,
        ObjectModel::String(encode_utf8(text)),
    ).insert("DA"@, ObjectModel::String(crate::appearance::default_appearance(size as int)));
    let news = seq![
        crate::edit_model::helvetica(),
        form(font_resources(s.next), width, height, content),
        ObjectModel::Dictionary(d),
    ];
    annotated_page(s, page, news, t);
    assert(t.current((s.next + 1) as u32) == Ok::<ObjectModel, crate::error::ErrorModel>(news[1]));
    assert(t.current((s.next + 2) as u32) == Ok::<ObjectModel, crate::error::ErrorModel>(news[2]));
    form_says(font_resources(s.next), width, height, content);
    annotation_says("FreeText"@, c, s.next + 1);
    names_differ();
    reveal_strlit("Type");
    reveal_strlit("Contents");
    reveal_strlit("DA");
    assert("Type"@.len() == 4 && "Contents"@.len() == 8 && "DA"@.len() == 2);
    written_text_is_itself(text);
}

/// A text written as a string is read back.
pub proof fn written_text_is_itself(text: Seq<char>)
    ensures
        string_text(encode_utf8(text)) == text,
{
    text_of_encoded(text);
    encode_utf8_valid_utf8(text);
    let bytes = encode_utf8(text);
    if bytes.len() > 0 {
        assert(vstd::utf8::valid_first_scalar(bytes));
        assert(bytes[0] <= 0xF7);
    }
}

/// A value that is set is the value of its field from then on; its name, its place and all other
/// objects stay.
#[verifier::rlimit(50)]
pub proof fn value_is_set(s: SessionModel, name: Seq<char>, value: Seq<char>, r: ObjRef, d: DictModel, t: SessionModel, num: u32)
    requires
        s.wf(),
        named_field(s.doc, name) == Ok::<ObjRef, EditFault>(r),
        s.current(r.num) == Ok::<ObjectModel, crate::error::ErrorModel>(ObjectModel::Dictionary(d)),
        field_set(s, name, value) == Ok::<SessionModel, EditFault>(t),
    ensures
        ({
            let now = t.current(r.num);
            &&& now is Ok && now->Ok_0 is Dictionary
            &&& text_under(now->Ok_0->Dictionary_0, "V"@) == Some(value)
            &&& entry(now->Ok_0->Dictionary_0, "T"@) == entry(d, "T"@)
            &&& entry(now->Ok_0->Dictionary_0, "FT"@) == entry(d, "FT"@)
            &&& entry(now->Ok_0->Dictionary_0, "Rect"@) == entry(d, "Rect"@)
            &&& field_of(r, d) is Some ==> field_of(r, now->Ok_0->Dictionary_0) is Some && field_of(
                r,
                now->Ok_0->Dictionary_0,
            )->0.value == value && field_of(r, now->Ok_0->Dictionary_0)->0.name == field_of(r, d)->0.name
                && field_of(r, now->Ok_0->Dictionary_0)->0.rect == field_of(r, d)->0.rect
        }),
        num != r.num && num < s.next ==> t.current(num) == s.current(num),
{
    let rect = rect_of(d)->0;
    let height = crate::form::distance(rect[1], rect[3]);
    let news = seq![
        crate::edit_model::helvetica(),
        form(
            font_resources(s.next),
            crate::form::distance(rect[0], rect[2]),
            height,
            crate::appearance::field_text(height, value),
        ),
    ];
    let u = with_all_new(s, news, 2);
    new_objects_stand(s, news, 2);
    let c = Change {
        num: r.num,
        before: ObjectModel::Dictionary(d),
        after: filled(d, value, s.next + 1),
    };
    assert(t == u.committed(one_change(c)));
    change_holds(u, c, num);
    reveal(filled);
    names_differ();
    written_text_is_itself(value);
}

/// A page that is turned has its angle raised by as much, held from 0 to 359, and nothing else
/// changed.
pub proof fn turn_adds_to_the_angle(d: DictModel, now: int, delta: i32)
    requires
        entry(d, "Rotate"@) == Some(ObjectModel::Integer(now)) || (entry(d, "Rotate"@) is None && now == 0),
        i64::MIN <= now <= i64::MAX,
    ensures
        turned(d, delta) is Dictionary,
        ({
            let e = turned(d, delta)->Dictionary_0;
            &&& entry(e, "Rotate"@) is Some && entry(e, "Rotate"@)->0 is Integer
            &&& 0 <= entry(e, "Rotate"@)->0->Integer_0 < 360
            &&& (entry(e, "Rotate"@)->0->Integer_0 - (now + delta)) % 360 == 0
            &&& forall|key: Seq<char>| key != "Rotate"@ ==> #[trigger] entry(e, key) == entry(d, key)
        }),
{
}

/// Turning a page changes that page, the one at the index, and leaves the order.
pub proof fn turned_page_is_the_one_meant(s: SessionModel, index: usize, delta: i32, d: DictModel, t: SessionModel)
    requires
        s.tree is Some,
        index < s.tree->0.order.len(),
        s.current(s.tree->0.order[index as int].num) == Ok::<ObjectModel, crate::error::ErrorModel>(
            ObjectModel::Dictionary(d),
        ),
        page_rotated(s, index, delta) == Ok::<SessionModel, EditFault>(t),
    ensures
        t.current(s.tree->0.order[index as int].num) == Ok::<ObjectModel, crate::error::ErrorModel>(
            turned(d, delta),
        ),
        forall|num: u32|
            num != s.tree->0.order[index as int].num ==> #[trigger] t.current(num) == s.current(num),
        t.tree == s.tree,
{
    let num = s.tree->0.order[index as int].num;
    reveal_with_fuel(applied, 2);
    reveal_with_fuel(with_all_new, 1);
    reveal_with_fuel(crate::page_tree::last_change, 1);
    let c = Change { num, before: ObjectModel::Dictionary(d), after: turned(d, delta) };
    assert(Seq::<Change>::empty().push(c).len() == 1);
}

/// Pages put in stand from the index on; those before it stay, and those behind it follow.
pub proof fn pages_are_put_in_at_the_index(order: Seq<ObjRef>, at: int, refs: Seq<ObjRef>, k: int)
    requires
        0 <= at,
    ensures
        ({
            let i = if at < order.len() {
                at
            } else {
                order.len() as int
            };
            let r = put_at(order, at, refs);
            &&& r.len() == order.len() + refs.len()
            &&& 0 <= k < i ==> r[k] == order[k]
            &&& 0 <= k < refs.len() ==> r[i + k] == refs[k]
            &&& i <= k < order.len() ==> r[k + refs.len()] == order[k]
        }),
{
}

/// A page that is hung elsewhere has what it inherited: the box, the angle and the resources.
pub proof fn hung_page_keeps_what_it_inherits(d: DictModel, page: PageModel, node: ObjRef, resources: DictModel)
    ensures
        ({
            let e = standing(d, page, node, resources);
            &&& entry(e, "Parent"@) == Some(ObjectModel::Reference(node))
            &&& entry(e, "MediaBox"@) == Some(box_array(page.media_box))
            &&& entry(e, "Rotate"@) == Some(ObjectModel::Integer(page.rotate as int))
            &&& entry(e, "Resources"@) == Some(ObjectModel::Dictionary(resources))
            &&& forall|key: Seq<char>|
                key != "Type"@ && key != "Parent"@ && key != "MediaBox"@ && key != "Rotate"@ && key
                    != "Resources"@ ==> #[trigger] entry(e, key) == entry(d, key)
        }),
        box_array(page.media_box) is Array,
        box_array(page.media_box)->Array_0.len() == page.media_box.len(),
        forall|k: int|
            0 <= k < page.media_box.len() ==> #[trigger] box_array(page.media_box)->Array_0[k]
                == ObjectModel::Real(real_of_int(page.media_box[k] as int)),
{
    reveal(standing);
    reveal_strlit("Type");
    reveal_strlit("Parent");
    reveal_strlit("MediaBox");
    reveal_strlit("Rotate");
    reveal_strlit("Resources");
    assert("Type"@.len() == 4 && "MediaBox"@.len() == 8 && "Resources"@.len() == 9);
    assert("Parent"@.len() == 6 && "Rotate"@.len() == 6 && "Parent"@[0] == 'P' && "Rotate"@[0] == 'R');
}

/// An image that fills a page says its size, and a color space of as many components as it has.
pub proof fn image_says_its_size(width: u16, height: u16, components: u8, data: Seq<u8>)
    requires
        components == 1 || components == 3 || components == 4,
    ensures
        ({
            let o = jpeg_object((width, height, components), data);
            &&& o is Stream
            &&& o->Stream_1 == data
            &&& entry(o->Stream_0, "Width"@) == Some(ObjectModel::Integer(width as int))
            &&& entry(o->Stream_0, "Height"@) == Some(ObjectModel::Integer(height as int))
            &&& entry(o->Stream_0, "Filter"@) == Some(ObjectModel::Name("DCTDecode"@))
            &&& entry(o->Stream_0, "BitsPerComponent"@) == Some(ObjectModel::Integer(8))
            &&& entry(o->Stream_0, "ColorSpace"@) is Some
            &&& entry(o->Stream_0, "ColorSpace"@)->0 is Name
            &&& named_space(entry(o->Stream_0, "ColorSpace"@)->0->Name_0) is Ok
            &&& named_space(entry(o->Stream_0, "ColorSpace"@)->0->Name_0)->Ok_0.count() == components
        }),
{
    reveal(jpeg_object);
    reveal_strlit("Type");
    reveal_strlit("Subtype");
    reveal_strlit("Width");
    reveal_strlit("Height");
    reveal_strlit("ColorSpace");
    reveal_strlit("BitsPerComponent");
    reveal_strlit("Filter");
    reveal_strlit("DeviceGray");
    reveal_strlit("CalGray");
    reveal_strlit("G");
    reveal_strlit("DeviceRGB");
    reveal_strlit("CalRGB");
    reveal_strlit("RGB");
    reveal_strlit("DeviceCMYK");
    assert("Type"@.len() == 4 && "Subtype"@.len() == 7 && "Width"@.len() == 5 && "ColorSpace"@.len() == 10);
    assert("Height"@.len() == 6 && "Filter"@.len() == 6 && "BitsPerComponent"@.len() == 16);
    assert("Height"@[0] == 'H' && "Filter"@[0] == 'F');
    assert("DeviceGray"@.len() == 10 && "DeviceCMYK"@.len() == 10 && "DeviceRGB"@.len() == 9);
    assert("DeviceGray"@[6] == 'G' && "DeviceCMYK"@[6] == 'C');
    assert("CalGray"@.len() == 7 && "G"@.len() == 1 && "CalRGB"@.len() == 6 && "RGB"@.len() == 3);
}

/// The text of a field is seven tenths of its height, held from six to eighteen points.
pub proof fn field_text_fits(height: int)
    ensures
        60_000_000 <= field_size(height) <= 180_000_000,
        60_000_000 <= 7 * height <= 180_000_000 ==> field_size(height) == 7 * height,
        7 * height < 60_000_000 ==> field_size(height) == 60_000_000,
        7 * height > 180_000_000 ==> field_size(height) == 180_000_000,
{
}

/// A line of text stands so that as much is left above it as below, but for a fifth of its size by
/// which it is raised.
pub proof fn text_stands_in_the_middle(height: int, size: int, unit: int)
    requires
        height - size >= unit,
    ensures
        ({
            let below = baseline(height, size, unit) - 2 * size;
            let above = 10 * height - (baseline(height, size, unit) - 2 * size + 10 * size);
            below == above
        }),
{
}

/// A page that is put in hangs from its node, is as large as asked for, and has its resources and
/// its content.
pub proof fn new_page_says_its_box(node: ObjRef, bounds: Seq<ObjectModel>, resources: DictModel, content: int)
    ensures
        ({
            let o = plain_page(node, bounds, resources, content);
            &&& o is Dictionary
            &&& entry(o->Dictionary_0, "Type"@) == Some(ObjectModel::Name("Page"@))
            &&& entry(o->Dictionary_0, "Parent"@) == Some(ObjectModel::Reference(node))
            &&& entry(o->Dictionary_0, "MediaBox"@) == Some(ObjectModel::Array(bounds))
            &&& entry(o->Dictionary_0, "Resources"@) == Some(ObjectModel::Dictionary(resources))
            &&& entry(o->Dictionary_0, "Contents"@) == Some(
                ObjectModel::Reference(ObjRef { num: content as u32, gen: 0 }),
            )
        }),
{
    reveal(plain_page);
    reveal_strlit("Type");
    reveal_strlit("Parent");
    reveal_strlit("MediaBox");
    reveal_strlit("Contents");
    reveal_strlit("Resources");
    assert("Type"@.len() == 4 && "Parent"@.len() == 6 && "Resources"@.len() == 9);
    assert("MediaBox"@.len() == 8 && "Contents"@.len() == 8 && "MediaBox"@[0] == 'M' && "Contents"@[0]
        == 'C');
}

/// A page that an image fills is as large as the image, one point for each pixel, and its resources
/// name the image.
pub proof fn image_page_is_as_large_as_the_image(width: u16, height: u16, components: u8, image: int)
    ensures
        image_bounds((width, height, components)) == seq![
            ObjectModel::Integer(0),
            ObjectModel::Integer(0),
            ObjectModel::Integer(width as int),
            ObjectModel::Integer(height as int),
        ],
        ({
            let images = entry(image_resources(image), "XObject"@);
            &&& images is Some && images->0 is Dictionary
            &&& entry(images->0->Dictionary_0, "Im0"@) == Some(
                ObjectModel::Reference(ObjRef { num: image as u32, gen: 0 }),
            )
        }),
{
    reveal(image_resources);
}

} // verus!
