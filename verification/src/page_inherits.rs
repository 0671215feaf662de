//! What pages inherit, and what their content is.
use vstd::prelude::*;
use crate::document::DocModel;
use crate::error::ErrorModel;
use crate::filters::stream_decoded;
use crate::object::{entry, DictModel, ObjRef, ObjectModel};
use crate::page::{all_got, content_of, handed_down, joined_streams, letter, low_i32, page_box, pages_at, pages_of, Heritage, Walk};

verus! {

/// What a node says goes before what is handed down to it; where it says nothing, that is handed
/// on.
pub proof fn own_goes_before_inherited(h: Heritage, d: DictModel, o: ObjectModel, n: int)
    ensures
        entry(d, "Resources"@) == Some(o) ==> handed_down(h, d).resources == Some(o),
        entry(d, "Resources"@) is None ==> handed_down(h, d).resources == h.resources,
        entry(d, "MediaBox"@) == Some(o) ==> handed_down(h, d).media_box == Some(o),
        entry(d, "MediaBox"@) is None ==> handed_down(h, d).media_box == h.media_box,
        entry(d, "Rotate"@) == Some(ObjectModel::Integer(n)) && i64::MIN <= n <= i64::MAX ==> handed_down(
            h,
            d,
        ).rotate == Some(n as i64),
        entry(d, "Rotate"@) is None ==> handed_down(h, d).rotate == h.rotate,
{
}

/// A node that is no list of pages is one page more, behind those before it. It has its own
/// dictionary, and of the box, the angle and the resources its own or those that it inherits.
pub proof fn leaf_is_one_page(
    doc: DocModel,
    r: ObjRef,
    d: DictModel,
    h: Heritage,
    open: Set<ObjRef>,
    w: Walk,
    resources: DictModel,
)
    requires
        !w.visited.contains(r),
        doc.resolved(r) == Ok::<ObjectModel, ErrorModel>(ObjectModel::Dictionary(d)),
        entry(d, "Type"@) != Some(ObjectModel::Name("Pages"@)),
        entry(d, "Resources"@) == Some(ObjectModel::Dictionary(resources)) || (entry(d, "Resources"@) is None
            && h.resources == Some(ObjectModel::Dictionary(resources))),
    ensures
        ({
            let out = pages_at(doc, ObjectModel::Reference(r), h, open, w);
            let page = out->Ok_0.pages.last();
            &&& out is Ok
            &&& out->Ok_0.pages.len() == w.pages.len() + 1
            &&& out->Ok_0.pages.drop_last() == w.pages
            &&& out->Ok_0.visited == w.visited.insert(r)
            &&& page.index == w.pages.len()
            &&& page.object_ref == Some(r)
            &&& page.dict == d
            &&& page.resources == resources
            &&& entry(d, "Rotate"@) is None && h.rotate is None ==> page.rotate == 0
            &&& entry(d, "Rotate"@) is None && h.rotate is Some && i32::MIN <= h.rotate->0 <= i32::MAX
                ==> page.rotate == h.rotate->0
            &&& entry(d, "MediaBox"@) is None && h.media_box is None ==> page.media_box == seq![
                0i64,
                0,
                612,
                792,
            ]
        }),
{
    let out = pages_at(doc, ObjectModel::Reference(r), h, open, w);
    assert(out->Ok_0.pages.drop_last() =~= w.pages);
}

/// A box of four whole numbers is these four in their order; a page without one that can be read
/// is as large as a letter.
pub proof fn box_is_four_numbers(doc: DocModel, h: Heritage, a: int, b: int, c: int, d: int)
    requires
        i64::MIN <= a <= i64::MAX,
        i64::MIN <= b <= i64::MAX,
        i64::MIN <= c <= i64::MAX,
        i64::MIN <= d <= i64::MAX,
        h.media_box == Some(
            ObjectModel::Array(
                seq![
                    ObjectModel::Integer(a),
                    ObjectModel::Integer(b),
                    ObjectModel::Integer(c),
                    ObjectModel::Integer(d),
                ],
            ),
        ),
    ensures
        page_box(doc, h) == seq![a as i64, b as i64, c as i64, d as i64],
{
    assert(page_box(doc, h) =~= seq![a as i64, b as i64, c as i64, d as i64]);
}

/// An angle that can be held stays as it is.
pub proof fn angle_stays(n: i64)
    ensures
        i32::MIN <= n <= i32::MAX ==> low_i32(n) == n,
        (low_i32(n) - n) % 0x1_0000_0000 == 0,
{
}

/// Kids are walked in their order: the pages of one are in front of those of the next.
pub proof fn kids_go_in_order(
    doc: DocModel,
    items: Seq<ObjectModel>,
    i: nat,
    h: Heritage,
    open: Set<ObjRef>,
    w: Walk,
    first: Walk,
)
    requires
        i < items.len(),
        pages_at(doc, items[i as int], h, open, w) == Ok::<Walk, ErrorModel>(first),
        crate::marks::unmarked(first.visited) <= crate::marks::unmarked(w.visited),
    ensures
        pages_of(doc, items, i, h, open, w) == pages_of(doc, items, i + 1, h, open, first),
        pages_of(doc, items, items.len(), h, open, w) == Ok::<Walk, ErrorModel>(w),
{
}

/// The objects of the decoded streams.
pub open spec fn all_streams(objects: Seq<ObjectModel>, data: Seq<Seq<u8>>) -> bool {
    &&& objects.len() == data.len()
    &&& forall|k: int|
        0 <= k < data.len() ==> (#[trigger] objects[k]) is Stream && stream_decoded(
            objects[k]->Stream_0,
            objects[k]->Stream_1,
        ) == Ok::<Seq<u8>, ErrorModel>(data[k])
}

/// Contents one behind the other, each with a line end.
pub open spec fn with_line_ends(data: Seq<Seq<u8>>) -> Seq<u8>
    decreases data.len(),
{
    if data.len() == 0 {
        seq![]
    } else {
        data[0].push(10) + with_line_ends(data.drop_first())
    }
}

proof fn streams_join(objects: Seq<ObjectModel>, data: Seq<Seq<u8>>, i: nat, acc: Seq<u8>)
    requires
        all_streams(objects, data),
        i <= data.len(),
    ensures
        joined_streams(objects, i, acc) == Ok::<Seq<u8>, ErrorModel>(
            acc + with_line_ends(data.skip(i as int)),
        ),
    decreases data.len() - i,
{
    let rest = data.skip(i as int);
    if i < data.len() {
        let o = objects[i as int];
        assert(o is Stream);
        let next = (acc + data[i as int]).push(10);
        streams_join(objects, data, i + 1, next);
        assert(rest.drop_first() =~= data.skip(i as int + 1));
        assert(next + with_line_ends(data.skip(i as int + 1)) =~= acc + with_line_ends(rest));
    } else {
        assert(acc + with_line_ends(rest) =~= acc);
    }
}

/// The content of a page is that of its streams in their order, each ended by a line end.
pub proof fn content_is_all_streams(doc: DocModel, d: DictModel, items: Seq<ObjectModel>, data: Seq<Seq<u8>>)
    requires
        entry(d, "Contents"@) == Some(ObjectModel::Array(items)),
        all_streams(items, data),
    ensures
        content_of(doc, d) == Ok::<Seq<u8>, ErrorModel>(with_line_ends(data)),
{
    all_are_got(doc, items, data, 0, seq![]);
    assert(Seq::<ObjectModel>::empty() + items.skip(0) =~= items);
    streams_join(items, data, 0, seq![]);
    assert(data.skip(0) =~= data);
    assert(Seq::<u8>::empty() + with_line_ends(data) =~= with_line_ends(data));
}

proof fn all_are_got(doc: DocModel, items: Seq<ObjectModel>, data: Seq<Seq<u8>>, i: nat, acc: Seq<ObjectModel>)
    requires
        all_streams(items, data),
        i <= items.len(),
    ensures
        all_got(doc, items, i, acc) == Ok::<Seq<ObjectModel>, ErrorModel>(acc + items.skip(i as int)),
    decreases items.len() - i,
{
    if i < items.len() {
        assert(items[i as int] is Stream);
        all_are_got(doc, items, data, i + 1, acc.push(items[i as int]));
        assert(acc.push(items[i as int]) + items.skip(i as int + 1) =~= acc + items.skip(i as int));
    } else {
        assert(acc + items.skip(i as int) =~= acc);
    }
}

/// One stream is the content with a line end, and a page without any has none.
pub proof fn content_is_one_stream(doc: DocModel, d: DictModel, sd: DictModel, raw: Seq<u8>, data: Seq<u8>)
    requires
        stream_decoded(sd, raw) == Ok::<Seq<u8>, ErrorModel>(data),
    ensures
        entry(d, "Contents"@) == Some(ObjectModel::Stream(sd, raw)) ==> content_of(doc, d) == Ok::<
            Seq<u8>,
            ErrorModel,
        >(data.push(10)),
        entry(d, "Contents"@) is None ==> content_of(doc, d) == Ok::<Seq<u8>, ErrorModel>(seq![]),
{
    let objects = seq![ObjectModel::Stream(sd, raw)];
    let all = seq![data];
    assert(all_streams(objects, all));
    streams_join(objects, all, 0, seq![]);
    assert(all.skip(0) =~= all);
    assert(all.drop_first() =~= seq![]);
    reveal_with_fuel(with_line_ends, 2);
    assert(Seq::<u8>::empty() + with_line_ends(all) =~= data.push(10));
}

} // verus!
