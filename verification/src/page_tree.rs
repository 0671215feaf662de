//! What edits of the order of pages make of a session.
//!
//! The first such edit hangs all pages from one new node, with what they inherited written into
//! them; from then on an edit only changes the kids of that node.
use vstd::prelude::*;
use crate::appearance::ascii;
use crate::copying::{page_copies, standing, CopyModel};
use crate::decimal::decimal;
use crate::document::DocModel;
use crate::edit_model::{current_dict, no_names, ref_to, reference_items, with_all_new, Change, EditFault, OpModel, Refusal, SessionModel, TreeModel};
use crate::jpeg::jpeg_size;
use crate::number::RealModel;
use crate::object::{entry, DictModel, ObjRef, ObjectModel};
use crate::page::{pages_in, PageModel};

verus! {

/// All pages below one node: the node, the pages in order, what changes where they hang
/// elsewhere now, and the node itself where it is new.
pub ghost struct Plan {
    pub node: ObjRef,
    pub order: Seq<ObjRef>,
    pub changes: Seq<Change>,
    pub fresh: Seq<ObjectModel>,
}

/// A node with kids.
#[verifier::opaque]
pub open spec fn with_kids(d: DictModel, order: Seq<ObjRef>) -> DictModel {
    d.insert("Kids"@, ObjectModel::Array(reference_items(order))).insert(
        "Count"@,
        ObjectModel::Integer(order.len() as i64 as int),
    )
}

/// A node that pages hang from.
pub open spec fn pages_node(order: Seq<ObjRef>) -> ObjectModel {
    ObjectModel::Dictionary(with_kids(no_names().insert("Type"@, ObjectModel::Name("Pages"@)), order))
}

/// The changes that hang the pages from the `i`-th on from `node`, behind those in `changes`.
pub open spec fn hung_from(
    s: SessionModel,
    pages: Seq<PageModel>,
    i: nat,
    node: ObjRef,
    changes: Seq<Change>,
    order: Seq<ObjRef>,
) -> Result<(Seq<Change>, Seq<ObjRef>), EditFault>
    decreases pages.len() - i,
{
    if i >= pages.len() {
        Ok((changes, order))
    } else {
        let page = pages[i as int];
        match page.object_ref {
            None => Err(EditFault::Refused(Refusal::PageHasNoReference)),
            Some(r) => match current_dict(s, r.num, Refusal::PageIsNotADictionary) {
                Err(e) => Err(e),
                Ok((before, d)) => hung_from(
                    s,
                    pages,
                    i + 1,
                    node,
                    changes.push(
                        Change {
                            num: r.num,
                            before,
                            after: ObjectModel::Dictionary(standing(d, page, node, page.resources)),
                        },
                    ),
                    order.push(r),
                ),
            },
        }
    }
}

/// The change that gives the catalog another tree of pages.
pub open spec fn catalog_change(s: SessionModel, node: ObjRef) -> Result<Change, EditFault> {
    match entry(s.doc.trailer, "Root"@) {
        Some(ObjectModel::Reference(r)) => match current_dict(
            s,
            r.num,
            Refusal::RootIsNotADictionary,
        ) {
            Err(e) => Err(e),
            Ok((before, d)) => Ok(
                Change {
                    num: r.num,
                    before,
                    after: ObjectModel::Dictionary(d.insert("Pages"@, ObjectModel::Reference(node))),
                },
            ),
        },
        _ => Err(EditFault::Refused(Refusal::RootIsNotAReference)),
    }
}

/// All pages below one node: the one that is there, or a new one.
pub open spec fn planned(s: SessionModel) -> Result<Plan, EditFault> {
    match s.tree {
        Some(t) => Ok(Plan { node: t.node, order: t.order, changes: seq![], fresh: seq![] }),
        None => match pages_in(s.doc) {
            Err(e) => Err(EditFault::Pdf(e)),
            Ok(pages) => if !s.has_room(1) {
                Err(EditFault::Refused(Refusal::NumbersUsedUp))
            } else {
                let node = ObjRef { num: s.next as u32, gen: 0 };
                match hung_from(s, pages, 0, node, seq![], seq![]) {
                    Err(e) => Err(e),
                    Ok((changes, order)) => match catalog_change(s, node) {
                        Err(e) => Err(e),
                        Ok(c) => Ok(
                            Plan {
                                node,
                                order,
                                changes: changes.push(c),
                                fresh: seq![pages_node(order)],
                            },
                        ),
                    },
                }
            },
        },
    }
}

/// The change that gives the pages another order.
pub open spec fn reordered(s: SessionModel, p: Plan, order: Seq<ObjRef>) -> Result<Change, EditFault> {
    let before = if p.fresh.len() > 0 {
        Ok(p.fresh[0])
    } else {
        s.current(p.node.num)
    };
    match before {
        Err(e) => Err(EditFault::Pdf(e)),
        Ok(o) => match o.dict() {
            None => Err(EditFault::Refused(Refusal::PagesNodeIsNotADictionary)),
            Some(d) => Ok(
                Change {
                    num: p.node.num,
                    before: o,
                    after: ObjectModel::Dictionary(with_kids(d, order)),
                },
            ),
        },
    }
}

/// The edit that carries out a plan, with more changes.
pub open spec fn plan_op(p: Plan, changes: Seq<Change>) -> OpModel {
    OpModel {
        changes,
        flattened: if p.fresh.len() > 0 {
            Some(p.node)
        } else {
            None
        },
    }
}

/// A session with its pages in an order and an edit made.
pub open spec fn arranged(s: SessionModel, p: Plan, changes: Seq<Change>, order: Seq<ObjRef>) -> SessionModel {
    SessionModel { tree: Some(TreeModel { node: p.node, order }), ..s }.committed(
        plan_op(p, changes),
    )
}

/// The session with new objects and another order of pages.
pub open spec fn rearranged(s: SessionModel, p: Plan, news: Seq<ObjectModel>, order: Seq<ObjRef>) -> Result<
    SessionModel,
    EditFault,
> {
    match reordered(s, p, order) {
        Err(e) => Err(e),
        Ok(c) => Ok(
            arranged(
                with_all_new(s, p.fresh + news, (p.fresh + news).len()),
                p,
                p.changes.push(c),
                order,
            ),
        ),
    }
}

/// Pages put in at an index, or behind all others.
pub open spec fn put_at(order: Seq<ObjRef>, at: int, refs: Seq<ObjRef>) -> Seq<ObjRef> {
    let i = if at < order.len() {
        at
    } else {
        order.len() as int
    };
    order.take(i) + refs + order.skip(i)
}

/// A page with a content and no inheritance.
#[verifier::opaque]
pub open spec fn plain_page(
    node: ObjRef,
    bounds: Seq<ObjectModel>,
    resources: DictModel,
    content: int,
) -> ObjectModel {
    ObjectModel::Dictionary(
        no_names().insert("Type"@, ObjectModel::Name("Page"@)).insert(
            "Parent"@,
            ObjectModel::Reference(node),
        ).insert("MediaBox"@, ObjectModel::Array(bounds)).insert(
            "Resources"@,
            ObjectModel::Dictionary(resources),
        ).insert("Contents"@, ref_to(content)),
    )
}

/// The session with pages of its own making put in; the last of the new objects is the page.
pub open spec fn page_added(s: SessionModel, p: Plan, news: Seq<ObjectModel>, at: int) -> Result<
    SessionModel,
    EditFault,
> {
    if !s.has_room((p.fresh + news).len() as int) {
        Err(EditFault::Refused(Refusal::NumbersUsedUp))
    } else {
        let page = ObjRef { num: (s.next + p.fresh.len() + news.len() - 1) as u32, gen: 0 };
        rearranged(s, p, news, put_at(p.order, at, seq![page]))
    }
}

/// Four numbers as items.
pub open spec fn real_items(bounds: Seq<RealModel>) -> Seq<ObjectModel> {
    bounds.map_values(|r: RealModel| ObjectModel::Real(r))
}

/// The session with an empty page put in.
#[verifier::opaque]
pub open spec fn blank_inserted(s: SessionModel, at: int, bounds: Seq<RealModel>) -> Result<
    SessionModel,
    EditFault,
> {
    match planned(s) {
        Err(e) => Err(e),
        Ok(p) => page_added(
            s,
            p,
            seq![
                ObjectModel::Stream(no_names(), seq![]),
                plain_page(p.node, real_items(bounds), no_names(), s.next + p.fresh.len()),
            ],
            at,
        ),
    }
}

/// The color space of an image with some number of components.
pub open spec fn space_name(components: u8) -> Seq<char> {
    if components == 1 {
        "DeviceGray"@
    } else if components == 4 {
        "DeviceCMYK"@
    } else {
        "DeviceRGB"@
    }
}

/// A JPEG image as it is.
#[verifier::opaque]
pub open spec fn jpeg_object(size: (u16, u16, u8), data: Seq<u8>) -> ObjectModel {
    ObjectModel::Stream(
        no_names().insert("Type"@, ObjectModel::Name("XObject"@)).insert(
            "Subtype"@,
            ObjectModel::Name("Image"@),
        ).insert("Width"@, ObjectModel::Integer(size.0 as int)).insert(
            "Height"@,
            ObjectModel::Integer(size.1 as int),
        ).insert("ColorSpace"@, ObjectModel::Name(space_name(size.2))).insert(
            "BitsPerComponent"@,
            ObjectModel::Integer(8),
        ).insert("Filter"@, ObjectModel::Name("DCTDecode"@)),
        data,
    )
}

/// The content of a page that an image fills.
#[verifier::opaque]
pub open spec fn image_content(size: (u16, u16, u8)) -> Seq<u8> {
    ascii("q "@) + decimal(size.0 as nat) + ascii(" 0 0 "@) + decimal(size.1 as nat) + ascii(
        " 0 0 cm /Im0 Do Q"@,
    )
}

/// Resources with one image.
#[verifier::opaque]
pub open spec fn image_resources(image: int) -> DictModel {
    no_names().insert(
        "XObject"@,
        ObjectModel::Dictionary(no_names().insert("Im0"@, ref_to(image))),
    )
}

/// The bounds of a page that an image fills: one point for each pixel.
pub open spec fn image_bounds(size: (u16, u16, u8)) -> Seq<ObjectModel> {
    seq![
        ObjectModel::Integer(0),
        ObjectModel::Integer(0),
        ObjectModel::Integer(size.0 as int),
        ObjectModel::Integer(size.1 as int),
    ]
}

/// The session with a page put in that an image fills.
pub open spec fn image_inserted(s: SessionModel, at: int, data: Seq<u8>) -> Result<
    SessionModel,
    EditFault,
> {
    match jpeg_size(data) {
        Err(e) => Err(EditFault::Pdf(e)),
        Ok(size) => match planned(s) {
            Err(e) => Err(e),
            Ok(p) => {
                let first = s.next + p.fresh.len();
                page_added(
                    s,
                    p,
                    seq![
                        jpeg_object(size, data),
                        ObjectModel::Stream(no_names(), image_content(size)),
                        plain_page(p.node, image_bounds(size), image_resources(first), first + 1),
                    ],
                    at,
                )
            },
        },
    }
}

/// The session without a page; the page itself stays, without a reference to it.
pub open spec fn page_deleted(s: SessionModel, index: usize) -> Result<SessionModel, EditFault> {
    match planned(s) {
        Err(e) => Err(e),
        Ok(p) => if index >= p.order.len() {
            Err(
                EditFault::Refused(Refusal::NoSuchPage { index, count: p.order.len() as usize }),
            )
        } else {
            rearranged(s, p, seq![], p.order.remove(index as int))
        },
    }
}

/// The session with a page in another place.
pub open spec fn page_moved(s: SessionModel, from: usize, to: usize) -> Result<SessionModel, EditFault> {
    match planned(s) {
        Err(e) => Err(e),
        Ok(p) => if from >= p.order.len() || to >= p.order.len() {
            Err(
                EditFault::Refused(
                    Refusal::NoSuchPage {
                        index: if from >= p.order.len() {
                            from
                        } else {
                            to
                        },
                        count: p.order.len() as usize,
                    },
                ),
            )
        } else {
            rearranged(
                s,
                p,
                seq![],
                p.order.remove(from as int).insert(to as int, p.order[from as int]),
            )
        },
    }
}

/// The last of the first `n` changes of an object.
pub open spec fn last_change(changes: Seq<Change>, num: u32, n: nat) -> Option<nat>
    decreases n,
{
    if n == 0 {
        None
    } else if changes[n - 1].num == num {
        Some((n - 1) as nat)
    } else {
        last_change(changes, num, (n - 1) as nat)
    }
}

/// A page turned by some degrees.
pub open spec fn turned(d: DictModel, delta: i32) -> ObjectModel {
    let now = match entry(d, "Rotate"@) {
        Some(o) => match o.integer() {
            Some(n) => n as int,
            None => 0,
        },
        None => 0,
    };
    ObjectModel::Dictionary(d.insert("Rotate"@, ObjectModel::Integer((now + delta) % 360)))
}

/// The changes of a plan with a page turned.
pub open spec fn turn_changes(s: SessionModel, p: Plan, num: u32, delta: i32) -> Result<
    Seq<Change>,
    EditFault,
> {
    match last_change(p.changes, num, p.changes.len()) {
        Some(i) => match p.changes[i as int].after.dict() {
            Some(d) => Ok(
                p.changes.update(
                    i as int,
                    Change { after: turned(d, delta), ..p.changes[i as int] },
                ),
            ),
            None => Err(EditFault::Refused(Refusal::PageIsNotADictionary)),
        },
        None => match current_dict(s, num, Refusal::PageIsNotADictionary) {
            Err(e) => Err(e),
            Ok((before, d)) => Ok(p.changes.push(Change { num, before, after: turned(d, delta) })),
        },
    }
}

/// The session with a page turned.
pub open spec fn page_rotated(s: SessionModel, index: usize, delta: i32) -> Result<
    SessionModel,
    EditFault,
> {
    match planned(s) {
        Err(e) => Err(e),
        Ok(p) => if index >= p.order.len() {
            Err(
                EditFault::Refused(Refusal::NoSuchPage { index, count: p.order.len() as usize }),
            )
        } else {
            match turn_changes(s, p, p.order[index as int].num, delta) {
                Err(e) => Err(e),
                Ok(changes) => Ok(
                    arranged(with_all_new(s, p.fresh, p.fresh.len()), p, changes, p.order),
                ),
            }
        },
    }
}

/// The session with the objects of a copy.
pub open spec fn with_copies(s: SessionModel, c: CopyModel) -> SessionModel {
    SessionModel { pending: s.pending.union_prefer_right(c.made), next: c.next, ..s }
}

/// The session with copies of pages of another document put in.
pub open spec fn pages_inserted(s: SessionModel, source: DocModel, indices: Seq<usize>, at: int) -> Result<
    SessionModel,
    EditFault,
> {
    match planned(s) {
        Err(e) => Err(e),
        Ok(p) => match page_copies(source, indices, p.node, s.next + p.fresh.len()) {
            Err(e) => Err(e),
            Ok((refs, c)) => {
                let order = put_at(p.order, at, refs);
                match reordered(s, p, order) {
                    Err(e) => Err(e),
                    Ok(change) => Ok(
                        arranged(
                            with_copies(with_all_new(s, p.fresh, p.fresh.len()), c),
                            p,
                            p.changes.push(change),
                            order,
                        ),
                    ),
                }
            },
        },
    }
}

/// How many pages there are now.
pub open spec fn count_now(s: SessionModel) -> Result<nat, EditFault> {
    match s.tree {
        Some(t) => Ok(t.order.len()),
        None => match pages_in(s.doc) {
            Ok(pages) => Ok(pages.len()),
            Err(e) => Err(EditFault::Pdf(e)),
        },
    }
}

/// The indices below `n`.
pub open spec fn all_indices(n: nat) -> Seq<usize> {
    Seq::new(n, |i: int| i as usize)
}

/// The session with all pages of another document behind its own.
pub open spec fn merged(s: SessionModel, source: DocModel) -> Result<SessionModel, EditFault> {
    match pages_in(source) {
        Err(e) => Err(EditFault::Pdf(e)),
        Ok(pages) => match count_now(s) {
            Err(e) => Err(e),
            Ok(at) => pages_inserted(s, source, all_indices(pages.len()), at as int),
        },
    }
}

} // verus!
