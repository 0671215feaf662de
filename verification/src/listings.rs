//! Which annotations and signatures are listed, and what the entries of an outline say.
use vstd::prelude::*;
use crate::affine::identity_matrix;
use crate::canvas::StepModel;
use crate::filters::stream_decoded;
use crate::annots::{annots_in, appearance_of, bbox_of, bounds_of, hidden, infos_among, infos_of, AnnotationModel};
use crate::canvas::ItemModel;
use crate::document::DocModel;
use crate::error::ErrorModel;
use crate::form::{form_items, number_of};
use crate::interp::{annot_form, annot_start, first_gfx, form_matrix, form_start, fresh_gfx, run_content, with_annot, with_annots, Gfx, GsModel, MAX_XOBJECT_DEPTH};
use crate::object::{entry, DictModel, ObjRef, ObjectModel};
use crate::outline::{entries_at, entry_page, outline_of, page_with_ref, OutlineModel};
use crate::page::{is_marked, marked, pages_in, PageModel};
use crate::edit_model::EditFault;
use crate::signature::{digest_kind_of, certificate_from, checked, checked_signer, claimed_from, content_status, covered, digest_of, digest_prefix, signature_in, signatures_among, signatures_of, signer_status, DigestKind, MAX_RSA_MODULUS_BITS, StatusModel};
use crate::cms_parts::{attribute_name_of, attribute_octets_of, certificate_of, digest_name_of, has_attributes_of};

verus! {

/// The dictionary of an item.
pub open spec fn dict_at(doc: DocModel, o: ObjectModel) -> Option<DictModel> {
    match doc.got(o) {
        Ok(m) => m.dict(),
        Err(_) => None,
    }
}

/// The item is an annotation that is not hidden and has a rectangle of four numbers or more.
pub open spec fn is_annotation(doc: DocModel, o: ObjectModel) -> bool {
    &&& dict_at(doc, o) is Some
    &&& !hidden(dict_at(doc, o)->0)
    &&& entry(dict_at(doc, o)->0, "Rect"@) is Some
    &&& entry(dict_at(doc, o)->0, "Rect"@)->0 is Array
    &&& entry(dict_at(doc, o)->0, "Rect"@)->0->Array_0.len() >= 4
}

/// How many of the first `n` items are such annotations.
pub open spec fn annotations_among(doc: DocModel, items: Seq<ObjectModel>, n: int) -> int
    decreases n,
{
    if n <= 0 {
        0
    } else {
        annotations_among(doc, items, n - 1) + if is_annotation(doc, items[n - 1]) {
            1int
        } else {
            0
        }
    }
}

/// What is listed of an annotation: its index among all, the first four numbers of its rectangle,
/// and its kind.
pub open spec fn says_annotation(doc: DocModel, items: Seq<ObjectModel>, i: int, a: AnnotationModel) -> bool {
    let d = dict_at(doc, items[i])->0;
    &&& a.index == i
    &&& a.rect.len() == 4
    &&& forall|k: int|
        0 <= k < 4 ==> #[trigger] a.rect[k] == number_of(entry(d, "Rect"@)->0->Array_0[k])
    &&& entry(d, "Subtype"@) is Some && entry(d, "Subtype"@)->0 is Name ==> a.subtype == entry(
        d,
        "Subtype"@,
    )->0->Name_0
}

proof fn annotations_are_counted(doc: DocModel, items: Seq<ObjectModel>, n: nat)
    requires
        n <= items.len(),
    ensures
        infos_among(doc, items, n).len() == annotations_among(doc, items, n as int),
        forall|i: int|
            0 <= i < n && is_annotation(doc, #[trigger] items[i]) ==> 0 <= annotations_among(doc, items, i)
                < annotations_among(doc, items, n as int) && says_annotation(
                doc,
                items,
                i,
                infos_among(doc, items, n)[annotations_among(doc, items, i)],
            ),
    decreases n,
{
    if n > 0 {
        annotations_are_counted(doc, items, (n - 1) as nat);
    }
}

/// The annotations of a page are listed once each, in their order, without those that are hidden
/// or have no rectangle.
pub proof fn each_annotation_is_listed(doc: DocModel, page: PageModel, items: Seq<ObjectModel>)
    requires
        annots_in(doc, page.dict) == Ok::<Seq<ObjectModel>, ErrorModel>(items),
    ensures
        infos_of(doc, page) is Ok,
        infos_of(doc, page)->Ok_0.len() == annotations_among(doc, items, items.len() as int),
        forall|i: int|
            0 <= i < items.len() && is_annotation(doc, #[trigger] items[i]) ==> 0 <= annotations_among(
                doc,
                items,
                i,
            ) < infos_of(doc, page)->Ok_0.len() && says_annotation(
                doc,
                items,
                i,
                infos_of(doc, page)->Ok_0[annotations_among(doc, items, i)],
            ),
{
    annotations_are_counted(doc, items, items.len());
}

/// An annotation is hidden by the second or the sixth of its flags, and by no other.
pub proof fn flags_hide(d: DictModel, flags: i64)
    requires
        entry(d, "F"@) == Some(ObjectModel::Integer(flags as int)),
        0 <= flags,
    ensures
        hidden(d) <==> flags / 2 % 2 == 1 || flags / 32 % 2 == 1,
{
    assert((flags & 0x2 != 0) == (flags / 2 % 2 == 1)) by (bit_vector)
        requires
            0 <= flags,
    ;
    assert((flags & 0x20 != 0) == (flags / 32 % 2 == 1)) by (bit_vector)
        requires
            0 <= flags,
    ;
}

/// An annotation without flags is shown.
pub proof fn no_flags_show(d: DictModel)
    requires
        entry(d, "F"@) is None,
    ensures
        !hidden(d),
{
}

/// The appearance of an annotation is the stream under `N`, or the one that its state names among
/// those there.
pub proof fn appearance_is_under_n(
    doc: DocModel,
    d: DictModel,
    ap: DictModel,
    states: DictModel,
    state: Seq<char>,
    form: DictModel,
    raw: Seq<u8>,
)
    requires
        entry(d, "AP"@) == Some(ObjectModel::Dictionary(ap)),
    ensures
        entry(ap, "N"@) == Some(ObjectModel::Stream(form, raw)) ==> appearance_of(doc, d) == Some(
            (form, raw),
        ),
        entry(ap, "N"@) == Some(ObjectModel::Dictionary(states)) && entry(d, "AS"@) == Some(
            ObjectModel::Name(state),
        ) && entry(states, state) == Some(ObjectModel::Stream(form, raw)) ==> appearance_of(doc, d)
            == Some((form, raw)),
        entry(ap, "N"@) is None ==> appearance_of(doc, d) is None,
{
}

/// The box of a form and the rectangle of an annotation are four numbers: left, bottom, right and
/// top.
pub proof fn boxes_are_four_numbers(d: DictModel, items: Seq<ObjectModel>)
    requires
        entry(d, "BBox"@) == Some(ObjectModel::Array(items)),
        items.len() >= 4,
    ensures
        ({
            let b = bbox_of(d)->0;
            &&& bbox_of(d) is Some
            &&& b.x0 == number_of(items[0]) && b.y0 == number_of(items[1])
            &&& b.x1 == number_of(items[2]) && b.y1 == number_of(items[3])
            &&& b == bounds_of(items.map_values(|o: ObjectModel| number_of(o)))
        }),
{
}

proof fn annots_before(doc: DocModel, res: DictModel, items: Seq<ItemModel>, a: Seq<ObjectModel>, b: Seq<ObjectModel>, n: nat)
    requires
        n <= a.len(),
    ensures
        with_annots(doc, res, items, a + b, n) == with_annots(doc, res, items, a, n),
    decreases n,
{
    if n > 0 {
        assert((a + b)[n - 1] == a[n - 1]);
        annots_before(doc, res, items, a, b, (n - 1) as nat);
    }
}

proof fn annots_join(doc: DocModel, res: DictModel, items: Seq<ItemModel>, a: Seq<ObjectModel>, b: Seq<ObjectModel>, n: nat)
    requires
        n <= b.len(),
    ensures
        with_annots(doc, res, items, a + b, a.len() + n) == with_annots(
            doc,
            res,
            with_annots(doc, res, items, a, a.len()),
            b,
            n,
        ),
    decreases n,
{
    if n > 0 {
        assert((a + b)[a.len() + n - 1] == b[n - 1]);
        annots_join(doc, res, items, a, b, (n - 1) as nat);
    } else {
        annots_before(doc, res, items, a, b, a.len());
    }
}

/// Annotations are shown in their order, all of them, and one that is hidden shows nothing.
pub proof fn annotations_are_shown_in_order(
    doc: DocModel,
    res: DictModel,
    items: Seq<ItemModel>,
    a: Seq<ObjectModel>,
    b: Seq<ObjectModel>,
    o: ObjectModel,
)
    ensures
        with_annots(doc, res, items, a + b, (a + b).len()) == with_annots(
            doc,
            res,
            with_annots(doc, res, items, a, a.len()),
            b,
            b.len(),
        ),
        with_annots(doc, res, items, seq![o], 1) == with_annot(doc, res, items, o),
        dict_at(doc, o) is None || hidden(dict_at(doc, o)->0) ==> with_annot(doc, res, items, o)
            == items,
{
    annots_join(doc, res, items, a, b, b.len());
    reveal_with_fuel(with_annots, 2);
}

/// The item is a field that is signed.
pub open spec fn is_signed(doc: DocModel, o: ObjectModel) -> bool {
    dict_at(doc, o) is Some && signature_in(doc, dict_at(doc, o)->0) is Some
}

/// How many of the first `n` items are signed fields.
pub open spec fn signed_among(doc: DocModel, items: Seq<ObjectModel>, n: int) -> int
    decreases n,
{
    if n <= 0 {
        0
    } else {
        signed_among(doc, items, n - 1) + if is_signed(doc, items[n - 1]) {
            1int
        } else {
            0
        }
    }
}

proof fn signatures_are_counted(doc: DocModel, items: Seq<ObjectModel>, n: nat)
    requires
        n <= items.len(),
    ensures
        signatures_among(doc, items, n).len() == signed_among(doc, items, n as int),
        forall|i: int|
            0 <= i < n && is_signed(doc, #[trigger] items[i]) ==> 0 <= signed_among(doc, items, i)
                < signed_among(doc, items, n as int) && Some(
                signatures_among(doc, items, n)[signed_among(doc, items, i)],
            ) == signature_in(doc, dict_at(doc, items[i])->0),
    decreases n,
{
    if n > 0 {
        signatures_are_counted(doc, items, (n - 1) as nat);
    }
}

/// Each signed field of a form has its signature listed, in the order of the fields, and nothing
/// else is.
pub proof fn each_signature_is_listed(doc: DocModel, items: Seq<ObjectModel>)
    requires
        form_items(doc) == Ok::<Seq<ObjectModel>, EditFault>(items),
        doc.root() is Ok,
    ensures
        signatures_of(doc) is Ok,
        signatures_of(doc)->Ok_0.len() == signed_among(doc, items, items.len() as int),
        forall|i: int|
            0 <= i < items.len() && is_signed(doc, #[trigger] items[i]) ==> 0 <= signed_among(doc, items, i)
                < signatures_of(doc)->Ok_0.len() && Some(
                signatures_of(doc)->Ok_0[signed_among(doc, items, i)],
            ) == signature_in(doc, dict_at(doc, items[i])->0),
{
    signatures_are_counted(doc, items, items.len());
}

/// A field of the kind for signatures whose value has contents and four numbers that are not
/// negative is signed, and its signature says what stands there.
pub proof fn signature_is_what_its_entries_say(
    doc: DocModel,
    d: DictModel,
    s: DictModel,
    contents: Seq<u8>,
    a: int,
    b: int,
    c: int,
    e: int,
)
    requires
        entry(d, "FT"@) == Some(ObjectModel::Name("Sig"@)),
        entry(d, "V"@) == Some(ObjectModel::Dictionary(s)),
        entry(s, "Contents"@) == Some(ObjectModel::String(contents)),
        entry(s, "ByteRange"@) == Some(
            ObjectModel::Array(
                seq![
                    ObjectModel::Integer(a),
                    ObjectModel::Integer(b),
                    ObjectModel::Integer(c),
                    ObjectModel::Integer(e),
                ],
            ),
        ),
        0 <= a <= 0xFFFF_FFFF && 0 <= b <= 0xFFFF_FFFF && 0 <= c <= 0xFFFF_FFFF && 0 <= e <= 0xFFFF_FFFF,
    ensures
        signature_in(doc, d) is Some,
        ({
            let f = signature_in(doc, d)->0;
            &&& f.contents == contents
            &&& f.byte_range == seq![(a as usize, b as usize), (c as usize, e as usize)]
            &&& entry(d, "T"@) is Some && entry(d, "T"@)->0 is String ==> Some(f.field_name) == entry(
                d,
                "T"@,
            )->0.text()
            &&& entry(s, "Name"@) is Some ==> f.signer_name == entry(s, "Name"@)->0.text()
            &&& entry(s, "Reason"@) is Some ==> f.reason == entry(s, "Reason"@)->0.text()
            &&& entry(s, "Location"@) is Some ==> f.location == entry(s, "Location"@)->0.text()
            &&& entry(s, "M"@) is Some ==> f.signing_time == entry(s, "M"@)->0.text()
            &&& entry(s, "Name"@) is None ==> f.signer_name is None
            &&& entry(s, "Reason"@) is None ==> f.reason is None
            &&& entry(s, "Location"@) is None ==> f.location is None
            &&& entry(s, "M"@) is None ==> f.signing_time is None
        }),
{
    let items = seq![
        ObjectModel::Integer(a),
        ObjectModel::Integer(b),
        ObjectModel::Integer(c),
        ObjectModel::Integer(e),
    ];
    assert forall|i: int| 0 <= i < 4 implies (#[trigger] items[i]).integer() is Some
        && items[i].integer()->0 >= 0 by {
        assert(i == 0 || i == 1 || i == 2 || i == 3);
    }
}

/// What a signature covers is the bytes of its two ranges, one behind the other.
pub proof fn ranges_cover_their_bytes(d: Seq<u8>, a: usize, n: usize, b: usize, m: usize, k: int)
    requires
        a + n <= d.len(),
        b + m <= d.len(),
    ensures
        ({
            let c = covered(d, seq![(a, n), (b, m)])->0;
            &&& covered(d, seq![(a, n), (b, m)]) is Some
            &&& c.len() == n + m
            &&& 0 <= k < n ==> c[k] == d[a + k]
            &&& n <= k < n + m ==> c[k] == d[b + (k - n)]
        }),
{
}

/// A range that is not inside the file covers nothing.
pub proof fn ranges_outside_cover_nothing(d: Seq<u8>, a: usize, n: usize, b: usize, m: usize)
    requires
        a + n > d.len() || b + m > d.len(),
    ensures
        covered(d, seq![(a, n), (b, m)]) is None,
{
}

/// The digest that is claimed is that of the first attribute with its name.
pub proof fn first_digest_is_claimed(message: Seq<u8>, i: int, k: int)
    requires
        0 <= i <= k < usize::MAX,
        attribute_name_of(message, k as usize) == Some("1.2.840.113549.1.9.4"@),
        forall|j: int|
            i <= j < k ==> (#[trigger] attribute_name_of(message, j as usize)) is Some
                && attribute_name_of(message, j as usize) != Some("1.2.840.113549.1.9.4"@),
    ensures
        claimed_from(message, i) == attribute_octets_of(message, k as usize),
    decreases k - i,
{
    if i < k {
        assert(attribute_name_of(message, i as usize) is Some);
        first_digest_is_claimed(message, i + 1, k);
    }
}

/// The certificate is the first that can be read.
pub proof fn first_certificate_is_taken(message: Seq<u8>, i: int, k: int)
    requires
        0 <= i <= k < usize::MAX,
        certificate_of(message, k as usize) == Some(true),
        forall|j: int| i <= j < k ==> #[trigger] certificate_of(message, j as usize) == Some(false),
    ensures
        certificate_from(message, i) == Some(k as usize),
    decreases k - i,
{
    if i < k {
        assert(certificate_of(message, i as usize) == Some(false));
        first_certificate_is_taken(message, i + 1, k);
    }
}

/// A content passes where its digest is the claimed one, byte for byte; another one was changed.
pub proof fn changed_content_is_told(claimed: Seq<u8>, digest: Seq<u8>)
    ensures
        content_status(Some(claimed), digest) is None <==> claimed == digest,
        claimed != digest ==> content_status(Some(claimed), digest) == Some(StatusModel::ContentModified),
        content_status(None, digest) == Some(StatusModel::Malformed),
{
}

/// A signer is valid only with a subject, a key that is not too large, attributes, and a signature
/// that is theirs.
pub proof fn valid_signers_are_verified(
    subject: Option<Seq<char>>,
    bits: Option<usize>,
    has_key: bool,
    has_attributes: bool,
    verified: Option<bool>,
)
    ensures
        signer_status(subject, bits, has_key, has_attributes, verified) is Valid <==> subject is Some
            && has_key && bits is Some && bits->0 <= MAX_RSA_MODULUS_BITS
            && has_attributes && verified == Some(true),
        signer_status(subject, bits, has_key, has_attributes, verified) is InvalidSignature
            <==> subject is Some && has_key && bits is Some && bits->0
            <= MAX_RSA_MODULUS_BITS && has_attributes && verified != Some(true),
{
}

/// The page with a reference is the first that has it.
pub proof fn first_page_with_the_reference(pages: Seq<PageModel>, r: ObjRef, i: int, k: int)
    requires
        0 <= i <= k < pages.len(),
        pages[k].object_ref == Some(r),
        forall|j: int| i <= j < k ==> (#[trigger] pages[j]).object_ref != Some(r),
    ensures
        page_with_ref(pages, r, i) == Some(pages[k].index),
    decreases k - i,
{
    if i < k {
        assert(pages[i].object_ref != Some(r));
        first_page_with_the_reference(pages, r, i + 1, k);
    }
}

/// No page is meant by a reference that none has.
pub proof fn no_page_with_the_reference(pages: Seq<PageModel>, r: ObjRef, i: int)
    requires
        0 <= i,
        forall|j: int| i <= j < pages.len() ==> (#[trigger] pages[j]).object_ref != Some(r),
    ensures
        page_with_ref(pages, r, i) is None,
    decreases pages.len() - i,
{
    if i < pages.len() {
        assert(pages[i].object_ref != Some(r));
        no_page_with_the_reference(pages, r, i + 1);
    }
}

/// The entry says its title and leads to the page that its destination names first.
pub open spec fn says_entry(d: DictModel, pages: Seq<PageModel>, item: OutlineModel) -> bool {
    &&& entry(d, "Title"@) is Some && entry(d, "Title"@)->0.text() is Some ==> Some(item.title)
        == entry(d, "Title"@)->0.text()
    &&& entry(d, "Title"@) is None ==> item.title.len() == 0
    &&& entry(d, "Dest"@) is Some && entry(d, "Dest"@)->0 is Array ==> {
        let items = entry(d, "Dest"@)->0->Array_0;
        items.len() > 0 && items[0] is Reference ==> item.page_index == page_with_ref(
            pages,
            items[0]->Reference_0,
            0,
        )
    }
    &&& entry(d, "Dest"@) is None ==> item.page_index is None
}

/// An entry that was not met before, with nothing below it: it stands behind those before it, and
/// the entry under `Next` behind it.
pub proof fn entry_stands_in_its_row(
    doc: DocModel,
    pages: Seq<PageModel>,
    current: ObjectModel,
    visited: Set<ObjRef>,
    acc: Seq<OutlineModel>,
    d: DictModel,
)
    requires
        !is_marked(visited, current),
        doc.got(current) == Ok::<ObjectModel, ErrorModel>(ObjectModel::Dictionary(d)),
        d.dom().finite(),
        entry(d, "First"@) is None,
    ensures
        exists|item: OutlineModel|
            #![trigger acc.push(item)]
            says_entry(d, pages, item) && item.children.len() == 0 && entries_at(
                doc,
                pages,
                current,
                visited,
                acc,
            ) == match entry(d, "Next"@) {
                Some(next) => entries_at(doc, pages, next, marked(visited, current), acc.push(item)),
                None => Ok((acc.push(item), marked(visited, current))),
            },
{
    let item = OutlineModel {
        title: crate::outline::entry_title(d),
        page_index: entry_page(d, pages),
        children: seq![],
    };
    assert(says_entry(d, pages, item));
    assert(acc.push(item) == acc.push(item));
}

/// What hangs below an entry under `First` is its children, and the last of a row ends it.
pub proof fn entries_below_are_children(
    doc: DocModel,
    pages: Seq<PageModel>,
    current: ObjectModel,
    visited: Set<ObjRef>,
    acc: Seq<OutlineModel>,
    d: DictModel,
    first: ObjectModel,
)
    requires
        !is_marked(visited, current),
        doc.got(current) == Ok::<ObjectModel, ErrorModel>(ObjectModel::Dictionary(d)),
        d.dom().finite(),
        entry(d, "First"@) == Some(first),
        entry(d, "Next"@) is None,
        entries_at(doc, pages, first, marked(visited, current), seq![]) is Ok,
    ensures
        exists|item: OutlineModel|
            #![trigger acc.push(item)]
            says_entry(d, pages, item) && item.children == entries_at(
                doc,
                pages,
                first,
                marked(visited, current),
                seq![],
            )->Ok_0.0 && entries_at(doc, pages, current, visited, acc) is Ok && entries_at(
                doc,
                pages,
                current,
                visited,
                acc,
            )->Ok_0.0 == acc.push(item),
{
    let item = OutlineModel {
        title: crate::outline::entry_title(d),
        page_index: entry_page(d, pages),
        children: entries_at(doc, pages, first, marked(visited, current), seq![])->Ok_0.0,
    };
    assert(says_entry(d, pages, item));
    assert(acc.push(item) == acc.push(item));
}

/// The outline of a document is what hangs from the first entry of its list; without a list, or
/// where that has no entry, it is empty.
pub proof fn outline_starts_at_the_first(doc: DocModel, root: DictModel, list: DictModel, first: ObjectModel, pages: Seq<PageModel>)
    requires
        doc.root() == Ok::<DictModel, ErrorModel>(root),
        pages_in(doc) == Ok::<Seq<PageModel>, ErrorModel>(pages),
        entries_at(doc, pages, first, Set::empty(), seq![]) is Ok,
    ensures
        entry(root, "Outlines"@) is None ==> outline_of(doc) == Ok::<Seq<OutlineModel>, ErrorModel>(
            seq![],
        ),
        entry(root, "Outlines"@) == Some(ObjectModel::Dictionary(list)) && entry(list, "First"@) is None
            ==> outline_of(doc) == Ok::<Seq<OutlineModel>, ErrorModel>(seq![]),
        entry(root, "Outlines"@) == Some(ObjectModel::Dictionary(list)) && entry(list, "First"@) == Some(
            first,
        ) ==> outline_of(doc) == Ok::<Seq<OutlineModel>, ErrorModel>(
            entries_at(doc, pages, first, Set::empty(), seq![])->Ok_0.0,
        ),
{
}

/// The digests by their identifiers.
pub proof fn digests_have_their_identifiers(oid: Seq<char>)
    ensures
        digest_kind_of(oid) == Some(DigestKind::Sha1) <==> oid == "1.3.14.3.2.26"@,
        digest_kind_of(oid) == Some(DigestKind::Sha256) <==> oid == "2.16.840.1.101.3.4.2.1"@,
        digest_kind_of(oid) == Some(DigestKind::Sha384) <==> oid == "2.16.840.1.101.3.4.2.2"@,
        digest_kind_of(oid) == Some(DigestKind::Sha512) <==> oid == "2.16.840.1.101.3.4.2.3"@,
{
    reveal_strlit("1.3.14.3.2.26");
    reveal_strlit("2.16.840.1.101.3.4.2.1");
    reveal_strlit("2.16.840.1.101.3.4.2.2");
    reveal_strlit("2.16.840.1.101.3.4.2.3");
    assert("1.3.14.3.2.26"@.len() == 13 && "2.16.840.1.101.3.4.2.1"@.len() == 22);
    assert("2.16.840.1.101.3.4.2.2"@.len() == 22 && "2.16.840.1.101.3.4.2.3"@.len() == 22);
    assert("2.16.840.1.101.3.4.2.1"@[21] == '1');
    assert("2.16.840.1.101.3.4.2.2"@[21] == '2');
    assert("2.16.840.1.101.3.4.2.3"@[21] == '3');
}

/// What stands before a digest says how long the digest is, and how long both are together.
pub proof fn prefix_says_the_length(kind: DigestKind)
    ensures
        ({
            let p = digest_prefix(kind);
            let size = match kind {
                DigestKind::Sha1 => 20int,
                DigestKind::Sha256 => 32,
                DigestKind::Sha384 => 48,
                DigestKind::Sha512 => 64,
            };
            &&& p.len() == if kind == DigestKind::Sha1 {
                15int
            } else {
                19
            }
            &&& p[0] == 0x30 && p[1] == p.len() - 2 + size
            &&& p[2] == 0x30 && p[3] == p.len() - 6
            &&& p[p.len() - 2] == 4 && p[p.len() - 1] == size
        }),
{
}

/// A signature over ranges of a file is judged by the digest of the bytes that they cover: where it
/// is not the claimed one the content was changed, and otherwise the signer is checked.
pub proof fn covered_bytes_are_judged(
    contents: Seq<u8>,
    d: Seq<u8>,
    ranges: Seq<(usize, usize)>,
    n: int,
    kind: DigestKind,
    oid: Seq<char>,
    claimed: Seq<u8>,
    bytes: Seq<u8>,
)
    requires
        crate::sign_text::object_length(contents) == Some(n),
        0 <= n <= contents.len(),
        digest_name_of(contents.take(n)) == Some(oid),
        has_attributes_of(contents.take(n)) == Some(true),
        digest_kind_of(oid) == Some(kind),
        covered(d, ranges) == Some(bytes),
        claimed_from(contents.take(n), 0) == Some(claimed),
    ensures
        claimed != digest_of(kind, bytes) ==> checked(contents, d, ranges) == StatusModel::ContentModified,
        claimed == digest_of(kind, bytes) ==> checked(contents, d, ranges) == checked_signer(
            contents.take(n),
            kind,
        ),
{
}

/// A signature whose ranges are not inside the file, or that has no signed attributes, is not valid.
pub proof fn uncovered_is_not_valid(contents: Seq<u8>, d: Seq<u8>, ranges: Seq<(usize, usize)>)
    ensures
        covered(d, ranges) is None ==> !(checked(contents, d, ranges) is Valid),
        checked(contents, d, ranges) is Valid ==> {
            let message = contents.take(crate::sign_text::object_length(contents)->0);
            &&& digest_name_of(message) is Some
            &&& digest_kind_of(digest_name_of(message)->0) is Some
            &&& claimed_from(message, 0) == Some(
                digest_of(digest_kind_of(digest_name_of(message)->0)->0, covered(d, ranges)->0),
            )
        },
{
}

/// An annotation is shown as its appearance says, in a state of its own behind what is shown, with
/// its box brought into its rectangle.
#[verifier::rlimit(50)]
pub proof fn annotation_looks_like_its_appearance(
    doc: DocModel,
    res: DictModel,
    items: Seq<ItemModel>,
    o: ObjectModel,
    d: DictModel,
    form: DictModel,
    raw: Seq<u8>,
    own: DictModel,
    rect: Seq<ObjectModel>,
    bbox: Seq<ObjectModel>,
    content: Seq<u8>,
)
    requires
        doc.got(o) == Ok::<ObjectModel, ErrorModel>(ObjectModel::Dictionary(d)),
        !hidden(d),
        entry(d, "Rect"@) == Some(ObjectModel::Array(rect)),
        rect.len() == 4,
        appearance_of(doc, d) == Some((form, raw)),
        entry(form, "BBox"@) == Some(ObjectModel::Array(bbox)),
        bbox.len() == 4,
        entry(form, "Matrix"@) is None,
        entry(form, "Resources"@) == Some(ObjectModel::Dictionary(own)),
        stream_decoded(form, raw) == Ok::<Seq<u8>, ErrorModel>(content),
    ensures
        ({
            let plain = first_gfx();
            let step = StepModel::Fit(
                bounds_of(bbox.map_values(|x: ObjectModel| number_of(x))),
                identity_matrix(),
                bounds_of(rect.map_values(|x: ObjectModel| number_of(x))),
            );
            let start = Gfx { items, gs: GsModel { ctm: seq![step], ..plain.gs }, ..plain };
            let out = run_content(doc, MAX_XOBJECT_DEPTH as nat, own, start, content);
            with_annot(doc, res, items, o) == match out {
                Ok(g) => g.items,
                Err(_) => items,
            }
        }),
{
    reveal(fresh_gfx);
    reveal(form_matrix);
    let plain = first_gfx();
    let b = bounds_of(bbox.map_values(|x: ObjectModel| number_of(x)));
    let r = bounds_of(rect.map_values(|x: ObjectModel| number_of(x)));
    let step = StepModel::Fit(b, identity_matrix(), r);
    let start = Gfx { items, gs: GsModel { ctm: seq![step], ..plain.gs }, ..plain };
    let made = form_start(annot_start(items, b, form, r), form);
    assert(made.gs.ctm =~= start.gs.ctm);
    assert(made == start);
    let x = annot_form(doc, res, o)->0;
    assert(x.rect == r);
    assert(x.bbox == b);
}

} // verus!
