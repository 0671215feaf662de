//! What an open document shows of its pages, its fields and its objects.
use vstd::prelude::*;
use crate::number::real_of_int;
use crate::annots::annots_in;
use crate::page_text::text_of_items;
use crate::page::{content_of, PageModel};
use crate::document::{header_offset, DocModel};
use crate::edit_model::SessionModel;
use crate::error::ErrorModel;
use crate::filters::stream_decoded;
use crate::form::FieldModel;
use crate::image::image_of;
use crate::interp::{first_gfx, form_start, page_and_annots, resource, run_content, with_annots, Gfx, GsModel};
use crate::canvas::{ItemModel, MatrixModel, StepModel};
use crate::jpeg::{frame, frame_from};
use crate::object::{entry, DictModel, ObjRef, ObjectModel};
use crate::operator_names::operators_have_their_names;
use crate::operators::{six, Scene};
use crate::page::pages_in;
use crate::parser::{next_object, Parsed, Reader};
use crate::search::contains_text;
use crate::session::{fields_among, new_bounds, page_at, page_shown, pages_with, refreshed, text_at, text_of_pages, ViewerModel};
use crate::xref::low32;

verus! {

/// The pages that contain a query are listed in their order, all of them and no others.
pub proof fn pages_with_a_query_are_listed(doc: DocModel, query: Seq<char>, n: nat)
    requires
        pages_with(doc, query, n) is Ok,
        n <= usize::MAX,
    ensures
        ({
            let list = pages_with(doc, query, n)->Ok_0;
            &&& forall|i: int|
                0 <= i < n ==> (#[trigger] text_at(doc, i)) is Ok && (contains_text(
                    text_at(doc, i)->Ok_0.chars,
                    query,
                ) <==> list.contains(i as usize))
            &&& forall|k: int| 0 <= k < list.len() ==> #[trigger] list[k] < n
            &&& forall|j: int, k: int| 0 <= j < k < list.len() ==> #[trigger] list[j] < #[trigger] list[k]
        }),
    decreases n,
{
    if n > 0 {
        pages_with_a_query_are_listed(doc, query, (n - 1) as nat);
        let before = pages_with(doc, query, (n - 1) as nat)->Ok_0;
        let list = pages_with(doc, query, n)->Ok_0;
        let last = (n - 1) as usize;
        let hit = contains_text(text_at(doc, n - 1)->Ok_0.chars, query);
        assert forall|i: int| 0 <= i < n implies (#[trigger] text_at(doc, i)) is Ok && (contains_text(
            text_at(doc, i)->Ok_0.chars,
            query,
        ) <==> list.contains(i as usize)) by {
            if hit {
                assert(list[before.len() as int] == last);
                if i < n - 1 {
                    if before.contains(i as usize) {
                        let k = choose|k: int| 0 <= k < before.len() && before[k] == i as usize;
                        assert(list[k] == i as usize);
                    }
                    if list.contains(i as usize) {
                        let k = choose|k: int| 0 <= k < list.len() && list[k] == i as usize;
                        assert(k < before.len());
                        assert(before[k] == i as usize);
                    }
                }
            } else if i == n - 1 {
                if list.contains(last) {
                    let k = choose|k: int| 0 <= k < list.len() && list[k] == last;
                    assert(before[k] < n - 1);
                }
            }
        }
    }
}

/// The text of a document is that of its pages in their order, with a page break and a line end
/// between two.
pub proof fn texts_of_pages_are_joined(doc: DocModel, n: nat, before: Seq<char>)
    requires
        text_at(doc, n as int) is Ok,
        text_of_pages(doc, n) == Ok::<Seq<char>, ErrorModel>(before),
    ensures
        n == 0 ==> text_of_pages(doc, n + 1) == Ok::<Seq<char>, ErrorModel>(
            text_at(doc, 0)->Ok_0.chars,
        ),
        n > 0 ==> text_of_pages(doc, n + 1) == Ok::<Seq<char>, ErrorModel>(
            before.push('\x0c').push('\n') + text_at(doc, n as int)->Ok_0.chars,
        ),
        text_of_pages(doc, 0) == Ok::<Seq<char>, ErrorModel>(seq![]),
{
    assert(before + seq!['\x0c', '\n'] =~= before.push('\x0c').push('\n'));
}

/// How many of the first `n` fields are on a page.
pub open spec fn fields_on_page(fields: Seq<FieldModel>, refs: Seq<ObjRef>, n: int) -> int
    decreases n,
{
    if n <= 0 {
        0
    } else {
        fields_on_page(fields, refs, n - 1) + if is_on_page(fields[n - 1], refs) {
            1int
        } else {
            0
        }
    }
}

/// The object of a field is one of the annotations.
pub open spec fn is_on_page(f: FieldModel, refs: Seq<ObjRef>) -> bool {
    exists|i: int| 0 <= i < refs.len() && (#[trigger] refs[i]).num == f.obj_ref.num
}

/// The fields on a page are those of the form whose objects are among the annotations of the page,
/// in the order of the form.
pub proof fn each_field_on_the_page_is_listed(fields: Seq<FieldModel>, refs: Seq<ObjRef>, n: nat)
    requires
        n <= fields.len(),
    ensures
        fields_among(fields, refs, n).len() == fields_on_page(fields, refs, n as int),
        forall|i: int|
            0 <= i < n && is_on_page(#[trigger] fields[i], refs) ==> 0 <= fields_on_page(fields, refs, i)
                < fields_on_page(fields, refs, n as int) && fields_among(fields, refs, n)[fields_on_page(
                fields,
                refs,
                i,
            )] == fields[i],
    decreases n,
{
    if n > 0 {
        each_field_on_the_page_is_listed(fields, refs, (n - 1) as nat);
    }
}

/// The page that is looked at stays where it is still there; otherwise it is the last.
pub proof fn page_looked_at_stays(v: ViewerModel, s: SessionModel)
    requires
        v.wf(),
        refreshed(v, s) is Ok,
    ensures
        ({
            let w = refreshed(v, s)->Ok_0;
            &&& pages_in(w.doc) is Ok && w.count == pages_in(w.doc)->Ok_0.len()
            &&& v.index < w.count ==> w.index == v.index
            &&& v.index >= w.count && w.count > 0 ==> w.index == w.count - 1
            &&& w.count == 0 ==> w.index == 0
            &&& w.edit == s
        }),
{
}

/// The header of an object stream from a reader on: pairs of numbers, the second of each an offset.
pub open spec fn is_header(
    d: Seq<u8>,
    readers: Seq<Reader>,
    middles: Seq<Reader>,
    nums: Seq<ObjectModel>,
    offsets: Seq<ObjectModel>,
) -> bool {
    &&& readers.len() == offsets.len() + 1
    &&& middles.len() == offsets.len()
    &&& nums.len() == offsets.len()
    &&& forall|j: int|
        0 <= j < offsets.len() ==> next_object(d, #[trigger] readers[j]) == Parsed::Object(
            nums[j],
            middles[j],
        ) && next_object(d, middles[j]) == Parsed::Object(offsets[j], readers[j + 1])
            && nums[j].integer() is Some && offsets[j].integer() is Some
}

proof fn header_goes_on(
    d: Seq<u8>,
    readers: Seq<Reader>,
    middles: Seq<Reader>,
    nums: Seq<ObjectModel>,
    offsets: Seq<ObjectModel>,
    i: int,
    index: u32,
    found: Option<i64>,
)
    requires
        is_header(d, readers, middles, nums, offsets),
        offsets.len() <= u32::MAX,
        0 <= i <= offsets.len(),
        index < offsets.len(),
        index < i ==> found == offsets[index as int].integer(),
    ensures
        header_offset(d, readers[i], i, offsets.len() as int, index, found) == Ok::<
            Option<i64>,
            ErrorModel,
        >(offsets[index as int].integer()),
    decreases offsets.len() - i,
{
    if i < offsets.len() {
        assert(next_object(d, readers[i]) == Parsed::Object(nums[i], middles[i]));
        assert(low32(i) == i);
        header_goes_on(
            d,
            readers,
            middles,
            nums,
            offsets,
            i + 1,
            index,
            if i == index {
                offsets[i].integer()
            } else {
                found
            },
        );
    }
}

/// The offset of an object in an object stream is the second number of the pair with its index.
pub proof fn header_gives_each_its_offset(
    d: Seq<u8>,
    readers: Seq<Reader>,
    middles: Seq<Reader>,
    nums: Seq<ObjectModel>,
    offsets: Seq<ObjectModel>,
    index: u32,
)
    requires
        is_header(d, readers, middles, nums, offsets),
        offsets.len() <= u32::MAX,
        index < offsets.len(),
    ensures
        header_offset(d, readers[0], 0, offsets.len() as int, index, None) == Ok::<
            Option<i64>,
            ErrorModel,
        >(offsets[index as int].integer()),
{
    header_goes_on(d, readers, middles, nums, offsets, 0, index, None);
}

/// The header of a frame says the height before the width, and the number of components behind
/// them, each in its place; other segments are passed over by their length.
pub proof fn frame_says_the_size(d: Seq<u8>, p: int)
    requires
        0 <= p,
        p + 9 < d.len(),
        d[p] == 0xFF,
    ensures
        d[p + 1] == 0xC0 || d[p + 1] == 0xC1 || d[p + 1] == 0xC2 ==> frame_from(d, p) is Some && {
            let size = frame_from(d, p)->0;
            &&& size.1 == d[p + 5] * 256 + d[p + 6]
            &&& size.0 == d[p + 7] * 256 + d[p + 8]
            &&& size.2 == d[p + 9]
        },
        (d[p + 1] == 0xC4 || d[p + 1] == 0xDB || 0xE0 <= d[p + 1] <= 0xEF || d[p + 1] == 0xFE) && d[p + 2]
            * 256 + d[p + 3] >= 2 && p + 2 + d[p + 2] * 256 + d[p + 3] < d.len() ==> frame_from(d, p)
            == frame_from(d, p + 2 + d[p + 2] * 256 + d[p + 3]),
        d[p + 1] == 0xDA ==> frame_from(d, p) is None,
{
}

/// An image under `Do` is shown with its pixels, in the state of the graphics, and nothing else
/// changes.
#[verifier::rlimit(50)]
pub proof fn image_is_shown(s: Scene, g: Gfx, name: Seq<char>, d: DictModel, raw: Seq<u8>)
    requires
        resource(s.doc, s.res, "XObject"@, name) == Ok::<Option<ObjectModel>, ErrorModel>(
            Some(ObjectModel::Stream(d, raw)),
        ),
        entry(d, "Subtype"@) == Some(ObjectModel::Name("Image"@)),
    ensures
        ({
            let h = s.behind(g, "Do"@, seq![ObjectModel::Name(name)]);
            &&& h.items.len() == g.items.len() + 1
            &&& h.items.drop_last() == g.items
            &&& h.items.last() is Image
            &&& h.items.last()->Image_0.resource == name
            &&& h.items.last()->Image_0.ctm == g.gs.ctm
            &&& h.items.last()->Image_0.alpha == g.gs.fill_alpha
            &&& h.items.last()->Image_0.clip == g.gs.clip
            &&& image_of(s.doc, d, raw) is Ok ==> h.items.last()->Image_0.pixels == Some(
                image_of(s.doc, d, raw)->Ok_0,
            )
            &&& image_of(s.doc, d, raw) is Err ==> h.items.last()->Image_0.pixels is None
            &&& Gfx { items: g.items, ..h } == g
        }),
{
    operators_have_their_names();
    let h = s.behind(g, "Do"@, seq![ObjectModel::Name(name)]);
    assert(h.items.drop_last() =~= g.items);
}

/// A form under `Do` is carried out under its matrix and with its resources, or with those that
/// hold where it is used; behind it the state of the graphics is what it was.
#[verifier::rlimit(50)]
pub proof fn form_is_carried_out(
    s: Scene,
    g: Gfx,
    name: Seq<char>,
    d: DictModel,
    raw: Seq<u8>,
    content: Seq<u8>,
    m: MatrixModel,
    own: DictModel,
)
    requires
        s.left > 0,
        resource(s.doc, s.res, "XObject"@, name) == Ok::<Option<ObjectModel>, ErrorModel>(
            Some(ObjectModel::Stream(d, raw)),
        ),
        entry(d, "Subtype"@) == Some(ObjectModel::Name("Form"@)),
        entry(d, "Matrix"@) == Some(ObjectModel::Array(six(m))),
        stream_decoded(d, raw) == Ok::<Seq<u8>, ErrorModel>(content),
        entry(d, "Resources"@) is None || entry(d, "Resources"@) == Some(ObjectModel::Dictionary(own)),
    ensures
        ({
            let start = Gfx {
                gs: GsModel { ctm: g.gs.ctm.push(StepModel::Matrix(m)), ..g.gs },
                ..g
            };
            let res = if entry(d, "Resources"@) is None {
                s.res
            } else {
                own
            };
            let inside = run_content(s.doc, (s.left - 1) as nat, res, start, content);
            inside is Ok ==> s.behind(g, "Do"@, seq![ObjectModel::Name(name)]) == (Gfx {
                gs: g.gs,
                ..inside->Ok_0
            })
        }),
{
    operators_have_their_names();
    reveal_strlit("Form");
    reveal_strlit("Image");
    assert("Form"@.len() == 4 && "Image"@.len() == 5);
    let start = Gfx { gs: GsModel { ctm: g.gs.ctm.push(StepModel::Matrix(m)), ..g.gs }, ..g };
    assert(form_start(g, d) == start);
}

/// Forms inside forms are followed so deep and no deeper: then a form shows nothing.
#[verifier::rlimit(50)]
pub proof fn forms_end_in_the_depth(s: Scene, g: Gfx, name: Seq<char>, d: DictModel, raw: Seq<u8>)
    requires
        s.left == 0,
        resource(s.doc, s.res, "XObject"@, name) == Ok::<Option<ObjectModel>, ErrorModel>(
            Some(ObjectModel::Stream(d, raw)),
        ),
        entry(d, "Subtype"@) == Some(ObjectModel::Name("Form"@)),
    ensures
        s.behind(g, "Do"@, seq![ObjectModel::Name(name)]) == g,
{
    operators_have_their_names();
    reveal_strlit("Form");
    reveal_strlit("Image");
    assert("Form"@.len() == 4 && "Image"@.len() == 5);
}

/// What a page shows is its content and its annotations, and its text is that of what it shows.
pub proof fn page_shows_its_content(doc: DocModel, pages: Seq<PageModel>, index: int, content: Seq<u8>)
    requires
        pages_in(doc) == Ok::<Seq<PageModel>, ErrorModel>(pages),
        0 <= index < pages.len(),
        content_of(doc, pages[index].dict) == Ok::<Seq<u8>, ErrorModel>(content),
    ensures
        page_shown(doc, index) == page_and_annots(doc, pages[index], content),
        page_shown(doc, index) is Ok ==> text_at(doc, index) is Ok && text_at(doc, index)->Ok_0
            == text_of_items(page_shown(doc, index)->Ok_0, page_shown(doc, index)->Ok_0.len()),
        page_at(doc, index) == Ok::<PageModel, ErrorModel>(pages[index]),
        forall|k: int| k >= pages.len() ==> (#[trigger] page_at(doc, k)) is Err,
{
    reveal(page_shown);
    reveal(text_at);
}

/// A page starts without anything shown, its content is carried out with its resources, and its
/// annotations are shown behind that.
pub proof fn annotations_are_behind_the_content(
    doc: DocModel,
    page: PageModel,
    content: Seq<u8>,
    g: Gfx,
    annots: Seq<ObjectModel>,
)
    requires
        run_content(doc, 12, page.resources, first_gfx(), content) == Ok::<Gfx, ErrorModel>(g),
        annots_in(doc, page.dict) == Ok::<Seq<ObjectModel>, ErrorModel>(annots),
    ensures
        page_and_annots(doc, page, content) == Ok::<Seq<ItemModel>, ErrorModel>(
            with_annots(doc, page.resources, g.items, annots, annots.len()),
        ),
{
}

/// A page that is put in is as large as the one that is looked at.
pub proof fn new_page_is_as_large(v: ViewerModel, page: PageModel, k: int)
    requires
        page_at(v.doc, v.index) == Ok::<PageModel, ErrorModel>(page),
        0 <= k < 4,
    ensures
        new_bounds(v).len() == 4,
        new_bounds(v)[k] == real_of_int(page.media_box[k] as int),
{
    reveal(new_bounds);
    assert(k == 0 || k == 1 || k == 2 || k == 3);
}

} // verus!
