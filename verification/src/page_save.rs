//! The order of pages that a session has is that of the file that it saves.
use vstd::prelude::*;
use crate::copying::{own_entries, page_copies, renumbered_dict, reserved, reserved_is, standing, CopyModel};
use crate::document::{opened, DocModel};
use crate::edit_model::{annotated, annotation_added, applied, current_dict, no_names, one_change, reference_items, with_all_new, Change, EditFault, Refusal, SessionModel};
use crate::error::ErrorModel;
use crate::kept::{chain_inside, saved_session_reads_back};
use crate::marks::mark_shrinks;
use crate::object::{entry, DictModel, ObjRef, ObjectModel};
use crate::page::{handed_down, is_pages_node, leaf, low_i32, page_box, page_resources, pages_at, pages_in, pages_of, Heritage, PageModel, Walk};
use crate::page_edit::plan_numbers;
use crate::page_tree::{all_indices, arranged, catalog_change, count_now, hung_from, last_change, merged, page_rotated, pages_inserted, planned, put_at, rearranged, reordered, turn_changes, turned, with_copies, with_kids, Plan};
use crate::reach::{copied_pages_are_pages, last_of, page_copies_wf, page_entries, page_image, page_num};
use crate::roundtrip::{dict_back, read_back, writable, writable_dict};
use crate::save::{listed, saved};
use crate::xref::{chain_from, startxref_offset};

verus! {

/// What comes from above the tree: nothing.
pub open spec fn no_heritage() -> Heritage {
    Heritage { resources: None, media_box: None, rotate: None }
}

/// A page that can be found with what the node hands down to it.
pub open spec fn findable(doc: DocModel, h: Heritage, r: ObjRef) -> bool {
    &&& doc.resolved(r) is Ok
    &&& doc.resolved(r)->Ok_0.dict() is Some
    &&& !is_pages_node(doc.resolved(r)->Ok_0.dict()->0)
    &&& page_resources(doc, handed_down(h, doc.resolved(r)->Ok_0.dict()->0)) is Ok
}

/// How a page is turned.
pub open spec fn turn_of(h: Heritage) -> i32 {
    match h.rotate {
        Some(n) => low_i32(n),
        None => 0,
    }
}

/// A page is the one that a reference leads to, with the box, the turn and the resources that it
/// has of itself or is handed down by its node.
pub open spec fn page_is(doc: DocModel, r: ObjRef, h: Heritage, page: PageModel) -> bool {
    let d = doc.resolved(r)->Ok_0.dict()->0;
    let all = handed_down(h, d);
    &&& page.object_ref == Some(r)
    &&& page.dict == d
    &&& page.media_box == page_box(doc, all)
    &&& page.rotate == turn_of(all)
    &&& page_resources(doc, all) == Ok::<DictModel, ErrorModel>(page.resources)
}

/// The pages that references lead to, as far as they were found, below a node that hands down `h`.
pub open spec fn in_order(doc: DocModel, refs: Seq<ObjRef>, h: Heritage, n: nat, pages: Seq<PageModel>) -> bool {
    &&& pages.len() == n
    &&& forall|j: int|
        0 <= j < n ==> (#[trigger] pages[j]).index == j && page_is(doc, refs[j], h, pages[j])
}

proof fn kids_in_order(doc: DocModel, refs: Seq<ObjRef>, i: nat, h: Heritage, w: Walk)
    requires
        i <= refs.len(),
        refs.no_duplicates(),
        forall|j: int| 0 <= j < refs.len() ==> findable(doc, h, #[trigger] refs[j]),
        forall|j: int| i <= j < refs.len() ==> !w.visited.contains(#[trigger] refs[j]),
        in_order(doc, refs, h, i, w.pages),
    ensures
        pages_of(doc, reference_items(refs), i, h, Set::empty(), w) is Ok,
        in_order(
            doc,
            refs,
            h,
            refs.len(),
            pages_of(doc, reference_items(refs), i, h, Set::empty(), w)->Ok_0.pages,
        ),
    decreases refs.len() - i,
{
    let items = reference_items(refs);
    assert(items.len() == refs.len());
    if i < refs.len() {
        let r = refs[i as int];
        let node = items[i as int];
        assert(node == ObjectModel::Reference(r));
        assert(findable(doc, h, r));
        let d = doc.resolved(r)->Ok_0.dict()->0;
        mark_shrinks(w.visited, r);
        let w1 = Walk { pages: w.pages, visited: w.visited.insert(r) };
        assert(pages_at(doc, node, h, Set::empty(), w) == leaf(
            doc,
            Some(r),
            d,
            handed_down(h, d),
            w1,
        ));
        let w2 = leaf(doc, Some(r), d, handed_down(h, d), w1)->Ok_0;
        assert(in_order(doc, refs, h, i + 1, w2.pages));
        assert forall|j: int| i + 1 <= j < refs.len() implies !w2.visited.contains(
            #[trigger] refs[j],
        ) by {
            assert(refs[j] != r);
        }
        kids_in_order(doc, refs, i + 1, h, w2);
    }
}

/// Pages that all hang from one node come in the order in which the node has them.
pub proof fn flat_pages_are_in_order(doc: DocModel, node: ObjRef, d: DictModel, refs: Seq<ObjRef>)
    requires
        doc.root() is Ok,
        entry(doc.root()->Ok_0, "Pages"@) == Some(ObjectModel::Reference(node)),
        doc.resolved(node) == Ok::<ObjectModel, ErrorModel>(ObjectModel::Dictionary(d)),
        d.dom().finite(),
        is_pages_node(d),
        entry(d, "Kids"@) == Some(ObjectModel::Array(reference_items(refs))),
        refs.no_duplicates(),
        !refs.contains(node),
        forall|j: int|
            0 <= j < refs.len() ==> findable(
                doc,
                handed_down(no_heritage(), d),
                #[trigger] refs[j],
            ),
    ensures
        pages_in(doc) is Ok,
        in_order(
            doc,
            refs,
            handed_down(no_heritage(), d),
            refs.len(),
            pages_in(doc)->Ok_0,
        ),
{
    let top = ObjectModel::Reference(node);
    let w = Walk { pages: seq![], visited: Set::<ObjRef>::empty() };
    let w1 = Walk { pages: seq![], visited: Set::<ObjRef>::empty().insert(node) };
    let h = handed_down(no_heritage(), d);
    assert(crate::page::marked(w.visited, top) == w1.visited);
    assert forall|j: int| 0 <= j < refs.len() implies !w1.visited.contains(#[trigger] refs[j]) by {
        assert(refs.contains(refs[j]));
    }
    kids_in_order(doc, refs, 0, h, w1);
    assert(pages_at(doc, top, no_heritage(), Set::empty(), w) == pages_of(
        doc,
        reference_items(refs),
        0,
        h,
        Set::empty(),
        w1,
    ));
}

/// Without a cipher an object is the same whatever generation a reference names.
proof fn any_generation(doc: DocModel, num: u32, a: u16, b: u16)
    requires
        doc.cipher is None,
        doc.resolved(ObjRef { num, gen: a }) is Ok,
    ensures
        doc.resolved(ObjRef { num, gen: b }) == doc.resolved(ObjRef { num, gen: a }),
{
}

/// A page that inherits nothing that it needs.
pub open spec fn stands_alone(o: ObjectModel) -> bool {
    match o {
        ObjectModel::Dictionary(d) => {
            &&& entry(d, "Type"@) == Some(ObjectModel::Name("Page"@))
            &&& entry(d, "Resources"@) is Some
            &&& entry(d, "Resources"@)->0 is Dictionary
        },
        _ => false,
    }
}

/// All pages of a session hang from one node, each under one reference, and stand alone; the
/// catalog leads to the node.
pub open spec fn hung(s: SessionModel) -> bool {
    match (s.tree, entry(s.doc.trailer, "Root"@)) {
        (Some(t), Some(ObjectModel::Reference(root))) => {
            &&& s.pending.contains_key(root.num)
            &&& s.pending[root.num] is Dictionary
            &&& entry(s.pending[root.num]->Dictionary_0, "Pages"@) == Some(
                ObjectModel::Reference(t.node),
            )
            &&& s.pending.contains_key(t.node.num)
            &&& s.pending[t.node.num] is Dictionary
            &&& is_pages_node(s.pending[t.node.num]->Dictionary_0)
            &&& entry(s.pending[t.node.num]->Dictionary_0, "Kids"@) == Some(
                ObjectModel::Array(reference_items(t.order)),
            )
            &&& t.order.no_duplicates()
            &&& !t.order.contains(t.node)
            &&& forall|j: int|
                0 <= j < t.order.len() ==> s.pending.contains_key((#[trigger] t.order[j]).num)
                    && stands_alone(s.pending[t.order[j].num])
        },
        _ => false,
    }
}

/// A session whose document is not encrypted and was opened by its cross-reference sections, which
/// end inside the file, and whose changes can be written to a file that is not too long.
#[verifier::opaque]
pub open spec fn savable(s: SessionModel) -> bool {
    &&& saved(s.doc, listed(s.pending)) is Ok
    &&& saved(s.doc, listed(s.pending))->Ok_0.len() <= i64::MAX
    &&& saved(s.doc, listed(s.pending))->Ok_0.len() <= usize::MAX
    &&& s.doc.cipher is None
    &&& entry(s.doc.trailer, "Encrypt"@) is None
    &&& writable(s.doc.trailer["Root"@])
    &&& chain_from(
        s.doc.data,
        startxref_offset(s.doc.data)->Ok_0 as int,
        Set::empty(),
        Map::empty(),
        Map::empty(),
    ) == (s.doc.xref, s.doc.trailer)
    &&& chain_inside(
        s.doc.data,
        saved(s.doc, listed(s.pending))->Ok_0,
        startxref_offset(s.doc.data)->Ok_0 as int,
        Set::empty(),
    )
    &&& forall|n: u32| #[trigger] s.pending.contains_key(n) ==> writable(s.pending[n])
}

/// The file that a session saves, opened.
#[verifier::opaque]
pub open spec fn reopened(s: SessionModel, password: Seq<u8>) -> Result<DocModel, ErrorModel> {
    match saved(s.doc, listed(s.pending)) {
        Ok(bytes) => opened(bytes, password),
        Err(e) => Err(e),
    }
}

/// What a session changed is found in the file that it saves.
pub proof fn changed_object_is_found(s: SessionModel, password: Seq<u8>, r: ObjRef)
    requires
        savable(s),
        s.pending.contains_key(r.num),
    ensures
        writable(s.pending[r.num]),
        reopened(s, password) is Ok,
        reopened(s, password)->Ok_0.resolved(r) == Ok::<ObjectModel, ErrorModel>(
            read_back(s.pending[r.num]),
        ),
        entry(reopened(s, password)->Ok_0.trailer, "Root"@) == Some(
            read_back(s.doc.trailer["Root"@]),
        ),
{
    reveal(savable);
    reveal(reopened);
    saved_session_reads_back(s, password, r.num);
    any_generation(reopened(s, password)->Ok_0, r.num, 0, r.gen);
}

pub proof fn writable_is_finite(o: ObjectModel)
    requires
        writable(o),
        o is Dictionary,
    ensures
        o->Dictionary_0.dom().finite(),
{
    reveal_with_fuel(writable, 2);
    reveal_with_fuel(writable_dict, 2);
}

/// An entry of a dictionary is read back under its name.
pub proof fn entry_read_back(d: DictModel, k: Seq<char>)
    requires
        d.dom().finite(),
        d.contains_key(k),
    ensures
        entry(dict_back(d), k) == Some(read_back(d[k])),
        dict_back(d).dom() == d.dom(),
        read_back(ObjectModel::Dictionary(d)) == ObjectModel::Dictionary(dict_back(d)),
{
    assert(dict_back(d).dom() =~= d.dom());
}

/// A page that stands alone can be found where it was read back.
pub proof fn alone_is_findable(doc: DocModel, r: ObjRef, o: ObjectModel, h: Heritage)
    requires
        stands_alone(o),
        writable(o),
        doc.resolved(r) == Ok::<ObjectModel, ErrorModel>(read_back(o)),
    ensures
        findable(doc, h, r),
{
    let pd = o->Dictionary_0;
    let resources = entry(pd, "Resources"@)->0;
    writable_is_finite(o);
    entry_read_back(pd, "Type"@);
    entry_read_back(pd, "Resources"@);
    assert(read_back(resources) is Dictionary);
    reveal_strlit("Page");
    reveal_strlit("Pages");
    assert("Page"@.len() != "Pages"@.len());
}

/// A page that stands alone can be found behind its changes.
proof fn page_is_findable(s: SessionModel, password: Seq<u8>, r: ObjRef, h: Heritage)
    requires
        savable(s),
        s.pending.contains_key(r.num),
        stands_alone(s.pending[r.num]),
    ensures
        findable(reopened(s, password)->Ok_0, h, r),
{
    changed_object_is_found(s, password, r);
    alone_is_findable(reopened(s, password)->Ok_0, r, s.pending[r.num], h);
}

pub proof fn kids_read_back(d: DictModel, refs: Seq<ObjRef>)
    requires
        d.dom().finite(),
        entry(d, "Kids"@) == Some(ObjectModel::Array(reference_items(refs))),
    ensures
        entry(dict_back(d), "Kids"@) == Some(ObjectModel::Array(reference_items(refs))),
{
    let kids = reference_items(refs);
    let back = read_back(ObjectModel::Array(kids))->Array_0;
    reveal_with_fuel(read_back, 3);
    assert forall|i: int| 0 <= i < kids.len() implies back[i] == kids[i] by {
        assert(kids[i] == ObjectModel::Reference(refs[i]));
    }
    assert(back =~= kids);
    entry_read_back(d, "Kids"@);
}

/// The catalog of the saved file leads to the node that the pages hang from.
proof fn catalog_leads_to_node(s: SessionModel, password: Seq<u8>)
    requires
        hung(s),
        savable(s),
    ensures
        reopened(s, password) is Ok,
        reopened(s, password)->Ok_0.root() is Ok,
        entry(reopened(s, password)->Ok_0.root()->Ok_0, "Pages"@) == Some(
            ObjectModel::Reference(s.tree->0.node),
        ),
{
    let root = entry(s.doc.trailer, "Root"@)->0->Reference_0;
    changed_object_is_found(s, password, root);
    writable_is_finite(s.pending[root.num]);
    entry_read_back(s.pending[root.num]->Dictionary_0, "Pages"@);
}

/// The node that the pages hang from is found with the pages in order.
proof fn node_is_found(s: SessionModel, password: Seq<u8>)
    requires
        hung(s),
        savable(s),
    ensures
        ({
            let t = s.tree->0;
            let d = dict_back(s.pending[t.node.num]->Dictionary_0);
            &&& reopened(s, password)->Ok_0.resolved(t.node) == Ok::<ObjectModel, ErrorModel>(
                ObjectModel::Dictionary(d),
            )
            &&& d.dom().finite()
            &&& is_pages_node(d)
            &&& entry(d, "Kids"@) == Some(ObjectModel::Array(reference_items(t.order)))
        }),
{
    let t = s.tree->0;
    let nd = s.pending[t.node.num]->Dictionary_0;
    changed_object_is_found(s, password, t.node);
    writable_is_finite(s.pending[t.node.num]);
    entry_read_back(nd, "Type"@);
    kids_read_back(nd, t.order);
}

/// What the node of the pages of a session hands down, as it is read back.
pub open spec fn node_heritage(s: SessionModel) -> Heritage {
    handed_down(no_heritage(), dict_back(s.pending[s.tree->0.node.num]->Dictionary_0))
}

/// The pages of a saved file are those of the session, in their order, with their boxes and turns.
pub proof fn saved_pages_are_in_order(s: SessionModel, password: Seq<u8>)
    requires
        hung(s),
        savable(s),
    ensures
        reopened(s, password) is Ok,
        pages_in(reopened(s, password)->Ok_0) is Ok,
        in_order(
            reopened(s, password)->Ok_0,
            s.tree->0.order,
            node_heritage(s),
            s.tree->0.order.len(),
            pages_in(reopened(s, password)->Ok_0)->Ok_0,
        ),
{
    let t = s.tree->0;
    let now = reopened(s, password)->Ok_0;
    let d = dict_back(s.pending[t.node.num]->Dictionary_0);
    catalog_leads_to_node(s, password);
    node_is_found(s, password);
    let h = handed_down(no_heritage(), d);
    assert forall|j: int| 0 <= j < t.order.len() implies findable(now, h, #[trigger] t.order[j]) by {
        assert(stands_alone(s.pending[t.order[j].num]));
        page_is_findable(s, password, t.order[j], h);
    }
    flat_pages_are_in_order(now, t.node, d, t.order);
}

proof fn last_change_is(changes: Seq<Change>, num: u32, n: nat)
    requires
        n <= changes.len(),
    ensures
        match last_change(changes, num, n) {
            Some(i) => i < n && changes[i as int].num == num && forall|j: int|
                i < j < n ==> (#[trigger] changes[j]).num != num,
            None => forall|j: int| 0 <= j < n ==> (#[trigger] changes[j]).num != num,
        },
    decreases n,
{
    if n > 0 && changes[n - 1].num != num {
        last_change_is(changes, num, (n - 1) as nat);
    }
}

/// An object is what the last change of it made of it.
proof fn applied_is(pending: Map<u32, ObjectModel>, changes: Seq<Change>, num: u32, n: nat)
    requires
        n <= changes.len(),
    ensures
        match last_change(changes, num, n) {
            Some(i) => applied(pending, changes, n).contains_key(num) && applied(
                pending,
                changes,
                n,
            )[num] == changes[i as int].after,
            None => applied(pending, changes, n).contains_key(num) == pending.contains_key(num)
                && applied(pending, changes, n)[num] == pending[num],
        },
    decreases n,
{
    if n > 0 && changes[n - 1].num != num {
        applied_is(pending, changes, num, (n - 1) as nat);
    }
}

/// The `k`-th of new objects stands under its number.
spec fn new_at(t: SessionModel, first: int, news: Seq<ObjectModel>, k: int) -> bool {
    let num = (first + k) as u32;
    t.pending.contains_key(num) && t.pending[num] == news[k]
}

proof fn new_objects_are(s: SessionModel, news: Seq<ObjectModel>, n: nat)
    requires
        n <= news.len(),
        s.next + n <= u32::MAX,
        0 <= s.next,
    ensures
        with_all_new(s, news, n).next == s.next + n,
        with_all_new(s, news, n).doc == s.doc,
        forall|k: int| 0 <= k < n ==> #[trigger] new_at(with_all_new(s, news, n), s.next, news, k),
        forall|m: u32|
            m < s.next ==> #[trigger] with_all_new(s, news, n).pending.contains_key(m)
                == s.pending.contains_key(m) && with_all_new(s, news, n).pending[m] == s.pending[m],
    decreases n,
{
    if n > 0 {
        new_objects_are(s, news, (n - 1) as nat);
        let before = with_all_new(s, news, (n - 1) as nat);
        let now = with_all_new(s, news, n);
        assert(now == before.with_new(news[n - 1]));
        assert forall|k: int| 0 <= k < n implies #[trigger] new_at(now, s.next, news, k) by {
            if k < n - 1 {
                assert(new_at(before, s.next, news, k));
                assert((s.next + k) as u32 != before.next as u32);
            }
        }
        assert forall|m: u32| m < s.next implies #[trigger] now.pending.contains_key(m)
            == s.pending.contains_key(m) && now.pending[m] == s.pending[m] by {
            assert(before.pending.contains_key(m) == s.pending.contains_key(m));
        }
    }
}

proof fn hung_changes(
    s: SessionModel,
    pages: Seq<PageModel>,
    i: nat,
    node: ObjRef,
    changes: Seq<Change>,
    order: Seq<ObjRef>,
)
    requires
        i <= pages.len(),
        changes.len() == order.len(),
        forall|j: int|
            0 <= j < order.len() ==> (#[trigger] changes[j]).num == order[j].num && stands_alone(
                changes[j].after,
            ),
        hung_from(s, pages, i, node, changes, order) is Ok,
    ensures
        ({
            let (cs, os) = hung_from(s, pages, i, node, changes, order)->Ok_0;
            &&& cs.len() == os.len()
            &&& forall|j: int|
                0 <= j < os.len() ==> (#[trigger] cs[j]).num == os[j].num && stands_alone(cs[j].after)
        }),
    decreases pages.len() - i,
{
    if i < pages.len() {
        let page = pages[i as int];
        let r = page.object_ref->0;
        let (before, d) = current_dict(s, r.num, Refusal::PageIsNotADictionary)->Ok_0;
        let after = ObjectModel::Dictionary(standing(d, page, node, page.resources));
        standing_stands_alone(d, page, node, page.resources);
        hung_changes(
            s,
            pages,
            i + 1,
            node,
            changes.push(Change { num: r.num, before, after }),
            order.push(r),
        );
    }
}

pub proof fn standing_stands_alone(d: DictModel, page: PageModel, node: ObjRef, resources: DictModel)
    ensures
        stands_alone(ObjectModel::Dictionary(standing(d, page, node, resources))),
{
    reveal(standing);
    reveal_strlit("Type");
    reveal_strlit("Parent");
    reveal_strlit("MediaBox");
    reveal_strlit("Rotate");
    reveal_strlit("Resources");
    assert("Type"@[0] == 'T');
    assert("Parent"@[0] == 'P');
    assert("MediaBox"@[0] == 'M');
    assert("Rotate"@[0] == 'R');
    assert("Resources"@[0] == 'R');
}

/// A node with other kids is a node with those kids.
pub proof fn kids_are_set(d: DictModel, order: Seq<ObjRef>)
    requires
        is_pages_node(d),
    ensures
        is_pages_node(with_kids(d, order)),
        entry(with_kids(d, order), "Kids"@) == Some(ObjectModel::Array(reference_items(order))),
{
    reveal(with_kids);
    reveal_strlit("Type");
    reveal_strlit("Kids");
    reveal_strlit("Count");
    assert("Type"@[0] == 'T');
    assert("Kids"@[0] == 'K');
    assert("Count"@[0] == 'C');
}

/// The pages of a plan have numbers that are in use.
proof fn plan_order_numbers(s: SessionModel)
    requires
        s.wf(),
        planned(s) is Ok,
        s.tree is Some ==> hung(s),
    ensures
        forall|j: int|
            0 <= j < planned(s)->Ok_0.order.len() ==> (#[trigger] planned(s)->Ok_0.order[j]).num < s.next,
{
    plan_numbers(s);
    let p = planned(s)->Ok_0;
    if s.tree is None {
        let node = ObjRef { num: s.next as u32, gen: 0 };
        let pages = pages_in(s.doc)->Ok_0;
        hung_changes(s, pages, 0, node, seq![], seq![]);
        let (hs, os) = hung_from(s, pages, 0, node, seq![], seq![])->Ok_0;
        assert forall|j: int| 0 <= j < p.order.len() implies (#[trigger] p.order[j]).num < s.next by {
            assert(hs[j].num == os[j].num);
            assert(p.changes[j] == hs[j]);
        }
    } else {
        assert forall|j: int| 0 <= j < p.order.len() implies (#[trigger] p.order[j]).num < s.next by {
            assert(s.pending.contains_key(s.tree->0.order[j].num));
        }
    }
}

/// Where a page stands after an edit: it was there before, or it is new and stands alone.
pub open spec fn page_stands(s: SessionModel, base: SessionModel, p: Plan, r: ObjRef) -> bool {
    p.order.contains(r) || (r.num >= s.next && base.pending.contains_key(r.num) && stands_alone(
        base.pending[r.num],
    ))
}

/// A session with new objects has all that was there as it was.
pub open spec fn only_new(s: SessionModel, base: SessionModel) -> bool {
    &&& base.doc == s.doc
    &&& forall|m: u32|
        m < s.next ==> #[trigger] base.pending.contains_key(m) == s.pending.contains_key(m) && (
        s.pending.contains_key(m) ==> base.pending[m] == s.pending[m])
}

/// The catalog of the document is `root`, which is neither a page of the plan nor its node, and no
/// page of the plan comes twice.
pub open spec fn plan_is_plain(s: SessionModel, p: Plan, root: ObjRef) -> bool {
    &&& entry(s.doc.trailer, "Root"@) == Some(ObjectModel::Reference(root))
    &&& root.num < s.next
    &&& root.num != p.node.num
    &&& p.order.no_duplicates()
    &&& forall|j: int|
        0 <= j < p.order.len() ==> (#[trigger] p.order[j]).num != p.node.num && p.order[j].num
            != root.num
}

proof fn arranged_is_hung(
    s: SessionModel,
    base: SessionModel,
    p: Plan,
    order: Seq<ObjRef>,
    root: ObjRef,
)
    requires
        s.wf(),
        planned(s) == Ok::<Plan, EditFault>(p),
        s.tree is Some ==> hung(s),
        reordered(s, p, order) is Ok,
        only_new(s, base),
        entry(s.doc.trailer, "Root"@) == Some(ObjectModel::Reference(root)),
        root.num < s.next,
        root.num != p.node.num,
        order.no_duplicates(),
        forall|j: int|
            0 <= j < order.len() ==> (#[trigger] order[j]).num != p.node.num && order[j].num
                != root.num && page_stands(s, base, p, order[j]),
    ensures
        hung(arranged(base, p, p.changes.push(reordered(s, p, order)->Ok_0), order)),
        arranged(base, p, p.changes.push(reordered(s, p, order)->Ok_0), order).tree->0.order == order,
{
    let c = reordered(s, p, order)->Ok_0;
    let cs = p.changes.push(c);
    let t = arranged(base, p, cs, order);
    assert(t.pending == applied(base.pending, cs, cs.len()));
    assert(t.doc == s.doc);
    plan_numbers(s);
    let before = if p.fresh.len() > 0 {
        p.fresh[0]
    } else {
        s.pending[p.node.num]
    };
    // The node.
    applied_is(base.pending, cs, p.node.num, cs.len());
    assert(cs[cs.len() - 1] == c);
    if s.tree is None {
        let node = ObjRef { num: s.next as u32, gen: 0 };
        let pages = pages_in(s.doc)->Ok_0;
        let (hs, os) = hung_from(s, pages, 0, node, seq![], seq![])->Ok_0;
        hung_changes(s, pages, 0, node, seq![], seq![]);
        let k = catalog_change(s, node)->Ok_0;
        assert(p.changes == hs.push(k));
        assert(p.order == os);
        let empty = no_names().insert("Type"@, ObjectModel::Name("Pages"@));
        kids_are_set(empty, os);
        assert(is_pages_node(before->Dictionary_0));
        // The catalog.
        applied_is(base.pending, cs, root.num, cs.len());
        last_change_is(cs, root.num, cs.len());
        assert(cs[cs.len() - 2] == k);
        assert(last_change(cs, root.num, cs.len()) == Some((cs.len() - 2) as nat));
        assert(entry(t.pending[root.num]->Dictionary_0, "Pages"@) == Some(
            ObjectModel::Reference(node),
        ));
        assert forall|j: int| 0 <= j < order.len() implies t.pending.contains_key(
            (#[trigger] order[j]).num,
        ) && stands_alone(t.pending[order[j].num]) by {
            let num = order[j].num;
            applied_is(base.pending, cs, num, cs.len());
            last_change_is(cs, num, cs.len());
            assert(page_stands(s, base, p, order[j]));
            if p.order.contains(order[j]) {
                let i = os.index_of(order[j]);
                assert(cs[i] == hs[i]);
                assert(cs[i].num == num);
                let last = last_change(cs, num, cs.len())->0 as int;
                assert(last < hs.len());
                assert(cs[last] == hs[last]);
            } else {
                last_is_new(cs, s.next, num, c);
            }
        }
    } else {
        assert(is_pages_node(before->Dictionary_0));
        assert(p.changes.len() == 0);
        applied_is(base.pending, cs, root.num, cs.len());
        last_change_is(cs, root.num, cs.len());
        assert(base.pending.contains_key(root.num));
        assert forall|j: int| 0 <= j < order.len() implies t.pending.contains_key(
            (#[trigger] order[j]).num,
        ) && stands_alone(t.pending[order[j].num]) by {
            let num = order[j].num;
            applied_is(base.pending, cs, num, cs.len());
            last_change_is(cs, num, cs.len());
            assert(page_stands(s, base, p, order[j]));
            if p.order.contains(order[j]) {
                let i = p.order.index_of(order[j]);
                assert(s.tree->0.order[i] == order[j]);
                assert(s.pending.contains_key(num));
                assert(base.pending.contains_key(num));
            }
        }
    }
    kids_are_set(before->Dictionary_0, order);
    assert(!order.contains(p.node)) by {
        if order.contains(p.node) {
            let j = order.index_of(p.node);
            assert(order[j].num != p.node.num);
        }
    }
}

/// An edit of the order of pages leaves all pages hanging from one node, where they did so before
/// or it is the first such edit. (The catalog is no page, and no page comes twice.)
pub proof fn rearranged_is_hung(
    s: SessionModel,
    p: Plan,
    news: Seq<ObjectModel>,
    order: Seq<ObjRef>,
    root: ObjRef,
)
    requires
        s.wf(),
        planned(s) == Ok::<Plan, EditFault>(p),
        s.tree is Some ==> hung(s),
        rearranged(s, p, news, order) is Ok,
        s.has_room((p.fresh + news).len() as int),
        entry(s.doc.trailer, "Root"@) == Some(ObjectModel::Reference(root)),
        root.num < s.next,
        root.num != p.node.num,
        order.no_duplicates(),
        forall|j: int|
            0 <= j < order.len() ==> (#[trigger] order[j]).num != p.node.num && order[j].num
                != root.num && (p.order.contains(order[j]) || (news.len() > 0 && order[j].num
                == s.next + p.fresh.len() + news.len() - 1 && stands_alone(news.last()))),
    ensures
        hung(rearranged(s, p, news, order)->Ok_0),
        rearranged(s, p, news, order)->Ok_0.tree->0.order == order,
{
    let all = p.fresh + news;
    let base = with_all_new(s, all, all.len());
    new_objects_are(s, all, all.len());
    plan_numbers(s);
    assert forall|j: int| 0 <= j < order.len() implies page_stands(s, base, p, #[trigger] order[j]) by {
        if !p.order.contains(order[j]) {
            assert(new_at(base, s.next, all, all.len() - 1));
            assert(all[all.len() - 1] == news.last());
        }
    }
    arranged_is_hung(s, base, p, order, root);
}

/// Pages with different numbers.
pub open spec fn pages_differ(pages: Seq<PageModel>, indices: Seq<usize>) -> bool {
    forall|i: int, j: int|
        0 <= i < j < indices.len() ==> #[trigger] page_num(pages, indices, i) != #[trigger] page_num(
            pages,
            indices,
            j,
        )
}

/// Copies of pages with different numbers have different numbers, which were not in use, and stand
/// alone.
pub proof fn copies_stand_alone(doc: DocModel, indices: Seq<usize>, node: ObjRef, next: int)
    requires
        0 <= next <= u32::MAX,
        page_copies(doc, indices, node, next) is Ok,
        pages_differ(pages_in(doc)->Ok_0, indices),
    ensures
        ({
            let (refs, c) = page_copies(doc, indices, node, next)->Ok_0;
            let pages = pages_in(doc)->Ok_0;
            &&& refs.len() == indices.len()
            &&& refs.no_duplicates()
            &&& forall|j: int|
                0 <= j < refs.len() ==> {
                    &&& next <= (#[trigger] refs[j]).num < c.next
                    &&& indices[j] < pages.len()
                    &&& c.made.contains_key(refs[j].num)
                    &&& c.made[refs[j].num] == page_image(
                        doc,
                        pages[indices[j] as int],
                        node,
                        c.map,
                    )
                    &&& stands_alone(c.made[refs[j].num])
                }
        }),
{
    let (refs, c) = page_copies(doc, indices, node, next)->Ok_0;
    let pages = pages_in(doc)->Ok_0;
    let start = CopyModel { made: Map::<u32, ObjectModel>::empty(), next, map: Map::<u32, u32>::empty() };
    let taken = reserved(pages, indices, 0, start)->Ok_0;
    copied_pages_are_pages(doc, indices, node, next);
    page_copies_wf(doc, indices, node, next);
    reserved_is(pages, indices, 0, start);
    assert forall|i: int, j: int| 0 <= i < j < refs.len() implies refs[i] != refs[j] by {
        assert(indices[i] < pages.len() && indices[j] < pages.len());
        assert(page_num(pages, indices, i) != page_num(pages, indices, j));
        assert(taken.map.contains_key(page_num(pages, indices, i)));
        assert(taken.map.contains_key(page_num(pages, indices, j)));
    }
    assert forall|j: int| 0 <= j < refs.len() implies {
        &&& next <= (#[trigger] refs[j]).num < c.next
        &&& indices[j] < pages.len()
        &&& c.made.contains_key(refs[j].num)
        &&& c.made[refs[j].num] == page_image(doc, pages[indices[j] as int], node, c.map)
        &&& stands_alone(c.made[refs[j].num])
    } by {
        assert(last_of(pages, indices, j, indices.len() as int)) by {
            assert forall|l: int| j < l < indices.len() implies #[trigger] page_num(
                pages,
                indices,
                l,
            ) != page_num(pages, indices, j) by {
                assert(page_num(pages, indices, j) != page_num(pages, indices, l));
            }
        }
        assert(indices[j] < pages.len());
        assert(c.made.contains_key(refs[j].num));
        let page = pages[indices[j] as int];
        standing_stands_alone(
            renumbered_dict(own_entries(page_entries(doc, page)), c.map),
            page,
            node,
            renumbered_dict(page.resources, c.map),
        );
    }
}

/// References put in between others: each is one of these or of those.
proof fn put_at_holds(order: Seq<ObjRef>, at: int, refs: Seq<ObjRef>)
    requires
        at >= 0,
        order.no_duplicates(),
        refs.no_duplicates(),
        forall|i: int, j: int|
            0 <= i < order.len() && 0 <= j < refs.len() ==> (#[trigger] order[i]) != (
            #[trigger] refs[j]),
    ensures
        put_at(order, at, refs).no_duplicates(),
        forall|k: int|
            0 <= k < put_at(order, at, refs).len() ==> order.contains(
                #[trigger] put_at(order, at, refs)[k],
            ) || refs.contains(put_at(order, at, refs)[k]),
{
    let all = put_at(order, at, refs);
    let i = if at < order.len() {
        at
    } else {
        order.len() as int
    };
    assert(all.len() == order.len() + refs.len());
    assert forall|k: int| 0 <= k < all.len() implies #[trigger] all[k] == if k < i {
        order[k]
    } else if k < i + refs.len() {
        refs[k - i]
    } else {
        order[k - refs.len()]
    } by {}
    assert forall|a: int, b: int| 0 <= a < b < all.len() implies all[a] != all[b] by {
        assert(all[a] == all[a] && all[b] == all[b]);
    }
}

/// Objects with new numbers change nothing that was there.
proof fn copies_are_new(s: SessionModel, first: SessionModel, c: CopyModel)
    requires
        only_new(s, first),
        forall|n: u32| #[trigger] c.made.contains_key(n) ==> n >= s.next,
    ensures
        only_new(s, with_copies(first, c)),
{
    let base = with_copies(first, c);
    assert forall|m: u32| m < s.next implies #[trigger] base.pending.contains_key(m)
        == s.pending.contains_key(m) && (s.pending.contains_key(m) ==> base.pending[m]
        == s.pending[m]) by {
        assert(!c.made.contains_key(m));
        assert(first.pending.contains_key(m) == s.pending.contains_key(m));
    }
}

/// Copies of pages change nothing that was there.
proof fn inserted_is_new(s: SessionModel, source: DocModel, indices: Seq<usize>, p: Plan)
    requires
        s.wf(),
        planned(s) == Ok::<Plan, EditFault>(p),
        page_copies(source, indices, p.node, s.next + p.fresh.len()) is Ok,
    ensures
        ({
            let c = page_copies(source, indices, p.node, s.next + p.fresh.len())->Ok_0.1;
            only_new(s, with_copies(with_all_new(s, p.fresh, p.fresh.len()), c))
        }),
{
    plan_numbers(s);
    let next = s.next + p.fresh.len();
    let c = page_copies(source, indices, p.node, next)->Ok_0.1;
    fresh_is_new(s, p);
    page_copies_wf(source, indices, p.node, next);
    copies_are_new(s, with_all_new(s, p.fresh, p.fresh.len()), c);
}

/// The node of a plan changes nothing that was there.
proof fn fresh_is_new(s: SessionModel, p: Plan)
    requires
        s.wf(),
        planned(s) == Ok::<Plan, EditFault>(p),
    ensures
        only_new(s, with_all_new(s, p.fresh, p.fresh.len())),
{
    plan_numbers(s);
    new_objects_are(s, p.fresh, p.fresh.len());
}

/// The node of a plan has a number in use, or is the first new object.
proof fn node_number(s: SessionModel)
    requires
        s.wf(),
        planned(s) is Ok,
        s.tree is Some ==> hung(s),
    ensures
        planned(s)->Ok_0.node.num < s.next + planned(s)->Ok_0.fresh.len(),
{
    plan_numbers(s);
}

/// Copies of pages and the pages that were there stand in one order.
proof fn inserted_stand(
    s: SessionModel,
    source: DocModel,
    indices: Seq<usize>,
    at: int,
    p: Plan,
    root: ObjRef,
)
    requires
        s.wf(),
        at >= 0,
        planned(s) == Ok::<Plan, EditFault>(p),
        s.tree is Some ==> hung(s),
        page_copies(source, indices, p.node, s.next + p.fresh.len()) is Ok,
        plan_is_plain(s, p, root),
        pages_differ(pages_in(source)->Ok_0, indices),
    ensures
        ({
            let (refs, c) = page_copies(source, indices, p.node, s.next + p.fresh.len())->Ok_0;
            let base = with_copies(with_all_new(s, p.fresh, p.fresh.len()), c);
            let order = put_at(p.order, at, refs);
            &&& order.no_duplicates()
            &&& forall|j: int|
                0 <= j < order.len() ==> (#[trigger] order[j]).num != p.node.num && order[j].num
                    != root.num && page_stands(s, base, p, order[j])
        }),
{
    plan_numbers(s);
    plan_order_numbers(s);
    node_number(s);
    let next = s.next + p.fresh.len();
    let (refs, c) = page_copies(source, indices, p.node, next)->Ok_0;
    copies_stand_alone(source, indices, p.node, next);
    let order = put_at(p.order, at, refs);
    assert forall|i: int, j: int| 0 <= i < p.order.len() && 0 <= j < refs.len() implies (
    #[trigger] p.order[i]) != (#[trigger] refs[j]) by {
        assert(p.order[i].num < s.next);
    }
    put_at_holds(p.order, at, refs);
    let base = with_copies(with_all_new(s, p.fresh, p.fresh.len()), c);
    assert forall|k: int| 0 <= k < order.len() implies (#[trigger] order[k]).num != p.node.num
        && order[k].num != root.num && page_stands(s, base, p, order[k]) by {
        if p.order.contains(order[k]) {
            let i = p.order.index_of(order[k]);
            assert(p.order[i].num != p.node.num);
        } else {
            let i = refs.index_of(order[k]);
            assert(refs[i] == order[k]);
            assert(c.made.contains_key(refs[i].num));
            assert(base.pending.contains_key(refs[i].num));
        }
    }
}

/// Putting in pages of another document leaves all pages hanging from one node, where they did so
/// before or it is the first edit of the order. (The catalog is no page, and no page comes twice.)
pub proof fn insertion_is_hung(
    s: SessionModel,
    source: DocModel,
    indices: Seq<usize>,
    at: int,
    root: ObjRef,
)
    requires
        s.wf(),
        at >= 0,
        pages_inserted(s, source, indices, at) is Ok,
        s.tree is Some ==> hung(s),
        plan_is_plain(s, planned(s)->Ok_0, root),
        pages_differ(pages_in(source)->Ok_0, indices),
    ensures
        hung(pages_inserted(s, source, indices, at)->Ok_0),
{
    plan_numbers(s);
    let p = planned(s)->Ok_0;
    let next = s.next + p.fresh.len();
    let (refs, c) = page_copies(source, indices, p.node, next)->Ok_0;
    inserted_is_new(s, source, indices, p);
    inserted_stand(s, source, indices, at, p, root);
    let base = with_copies(with_all_new(s, p.fresh, p.fresh.len()), c);
    arranged_is_hung(s, base, p, put_at(p.order, at, refs), root);
}

/// Merging a document leaves all pages hanging from one node, where they did so before or it is the
/// first edit of the order. (The catalog is no page, and no page comes twice.)
pub proof fn merging_is_hung(s: SessionModel, source: DocModel, root: ObjRef)
    requires
        s.wf(),
        merged(s, source) is Ok,
        s.tree is Some ==> hung(s),
        plan_is_plain(s, planned(s)->Ok_0, root),
        pages_differ(pages_in(source)->Ok_0, all_indices(pages_in(source)->Ok_0.len())),
    ensures
        hung(merged(s, source)->Ok_0),
{
    let at = count_now(s)->Ok_0;
    insertion_is_hung(s, source, all_indices(pages_in(source)->Ok_0.len()), at as int, root);
}

/// A page that stands alone does so when it is turned.
proof fn turned_stands_alone(o: ObjectModel, delta: i32)
    requires
        stands_alone(o),
    ensures
        stands_alone(turned(o->Dictionary_0, delta)),
{
    reveal_strlit("Type");
    reveal_strlit("Rotate");
    reveal_strlit("Resources");
    assert("Type"@.len() == 4);
    assert("Rotate"@.len() == 6);
    assert("Resources"@.len() == 9);
}

/// Turning a page leaves all pages hanging from one node, where they did so before or it is the
/// first edit of the order. (The catalog is no page, and no page comes twice.)
pub proof fn turn_is_hung(s: SessionModel, index: usize, delta: i32, root: ObjRef)
    requires
        s.wf(),
        page_rotated(s, index, delta) is Ok,
        s.tree is Some ==> hung(s),
        plan_is_plain(s, planned(s)->Ok_0, root),
    ensures
        hung(page_rotated(s, index, delta)->Ok_0),
{
    plan_numbers(s);
    plan_order_numbers(s);
    let p = planned(s)->Ok_0;
    let num = p.order[index as int].num;
    let changes = turn_changes(s, p, num, delta)->Ok_0;
    let base = with_all_new(s, p.fresh, p.fresh.len());
    let t = page_rotated(s, index, delta)->Ok_0;
    new_objects_are(s, p.fresh, p.fresh.len());
    assert(t.pending == applied(base.pending, changes, changes.len()));
    last_change_is(p.changes, num, p.changes.len());
    assert(!p.order.contains(p.node)) by {
        if p.order.contains(p.node) {
            let j = p.order.index_of(p.node);
            assert(p.order[j].num != p.node.num);
        }
    }
    applied_is(base.pending, changes, p.node.num, changes.len());
    last_change_is(changes, p.node.num, changes.len());
    applied_is(base.pending, changes, root.num, changes.len());
    last_change_is(changes, root.num, changes.len());
    if s.tree is None {
        let node = ObjRef { num: s.next as u32, gen: 0 };
        let pages = pages_in(s.doc)->Ok_0;
        let (hs, os) = hung_from(s, pages, 0, node, seq![], seq![])->Ok_0;
        hung_changes(s, pages, 0, node, seq![], seq![]);
        let k = catalog_change(s, node)->Ok_0;
        assert(p.changes == hs.push(k));
        assert(p.order == os);
        assert(hs[index as int].num == os[index as int].num);
        assert(p.changes[index as int].num == num);
        let i = last_change(p.changes, num, p.changes.len())->0 as int;
        assert(i < hs.len()) by {
            assert(k.num == root.num);
            assert(p.changes[hs.len() as int] == k);
        }
        assert(p.changes[i] == hs[i]);
        assert(hs[i].num == os[i].num);
        turned_stands_alone(hs[i].after, delta);
        assert(changes.len() == hs.len() + 1);
        // The node is new, and no change is of it.
        if let Some(m) = last_change(changes, node.num, changes.len()) {
            assert(p.changes[m as int].num < s.next);
        }
        assert(new_at(base, s.next, p.fresh, 0));
        let empty = no_names().insert("Type"@, ObjectModel::Name("Pages"@));
        kids_are_set(empty, os);
        // The catalog.
        assert(changes[hs.len() as int] == k);
        assert(last_change(changes, root.num, changes.len()) == Some(hs.len()));
        assert forall|j: int| 0 <= j < p.order.len() implies t.pending.contains_key(
            (#[trigger] p.order[j]).num,
        ) && stands_alone(t.pending[p.order[j].num]) by {
            let its = p.order[j].num;
            applied_is(base.pending, changes, its, changes.len());
            last_change_is(changes, its, changes.len());
            assert(hs[j].num == os[j].num);
            assert(changes[j].num == its);
            let last = last_change(changes, its, changes.len())->0 as int;
            assert(last < hs.len());
            if last != i {
                assert(changes[last] == hs[last]);
                assert(hs[last].num == os[last].num);
            }
        }
    } else {
        assert(p.changes.len() == 0);
        assert(s.tree->0.order[index as int].num == num);
        assert(s.pending.contains_key(num));
        let (before, d) = current_dict(s, num, Refusal::PageIsNotADictionary)->Ok_0;
        turned_stands_alone(before, delta);
        assert(changes.len() == 1);
        assert(base.pending == s.pending);
        assert forall|j: int| 0 <= j < p.order.len() implies t.pending.contains_key(
            (#[trigger] p.order[j]).num,
        ) && stands_alone(t.pending[p.order[j].num]) by {
            let its = p.order[j].num;
            applied_is(base.pending, changes, its, changes.len());
            last_change_is(changes, its, changes.len());
            assert(s.tree->0.order[j].num == its);
        }
    }
}

/// The pages of a session hang from one node after an edit of one object that is neither that node
/// nor the catalog, if a page that it changes still stands alone.
pub proof fn other_edit_is_hung(s: SessionModel, news: Seq<ObjectModel>, c: Change, root: ObjRef)
    requires
        s.wf(),
        hung(s),
        s.has_room(news.len() as int),
        entry(s.doc.trailer, "Root"@) == Some(ObjectModel::Reference(root)),
        c.num < s.next,
        c.num != root.num,
        c.num != s.tree->0.node.num,
        forall|j: int|
            0 <= j < s.tree->0.order.len() && (#[trigger] s.tree->0.order[j]).num == c.num
                ==> stands_alone(c.after),
    ensures
        hung(with_all_new(s, news, news.len()).committed(one_change(c))),
        with_all_new(s, news, news.len()).committed(one_change(c)).tree == s.tree,
{
    let base = with_all_new(s, news, news.len());
    let t = base.committed(one_change(c));
    let tree = s.tree->0;
    new_objects_are(s, news, news.len());
    tree_stays(s, news, news.len());
    assert(one_change(c).changes[0] == c);
    reveal_with_fuel(applied, 2);
    assert(t.pending == base.pending.insert(c.num, c.after));
    assert(base.pending.contains_key(root.num));
    assert(base.pending.contains_key(tree.node.num));
    assert forall|j: int| 0 <= j < tree.order.len() implies t.pending.contains_key(
        (#[trigger] tree.order[j]).num,
    ) && stands_alone(t.pending[tree.order[j].num]) by {
        let num = tree.order[j].num;
        assert(s.pending.contains_key(num));
        assert(base.pending.contains_key(num));
    }
}

proof fn tree_stays(s: SessionModel, news: Seq<ObjectModel>, n: nat)
    requires
        n <= news.len(),
    ensures
        with_all_new(s, news, n).tree == s.tree,
    decreases n,
{
    if n > 0 {
        tree_stays(s, news, (n - 1) as nat);
    }
}

/// Annotations leave the pages of a session hanging from one node. (Neither the catalog nor the node
/// is changed, and a list of annotations that a page refers to is no page.)
pub proof fn annotation_is_hung(s: SessionModel, page: ObjRef, news: Seq<ObjectModel>, root: ObjRef)
    requires
        s.wf(),
        hung(s),
        annotated(s, page, news) is Ok,
        entry(s.doc.trailer, "Root"@) == Some(ObjectModel::Reference(root)),
        ({
            let annot = ObjRef { num: (s.next + news.len() - 1) as u32, gen: 0 };
            let c = annotation_added(s, page, annot)->Ok_0;
            &&& c.num != root.num
            &&& c.num != s.tree->0.node.num
            &&& forall|j: int|
                0 <= j < s.tree->0.order.len() && (#[trigger] s.tree->0.order[j]).num == c.num
                    ==> c.after is Dictionary
        }),
    ensures
        hung(annotated(s, page, news)->Ok_0),
{
    let annot = ObjRef { num: (s.next + news.len() - 1) as u32, gen: 0 };
    let c = annotation_added(s, page, annot)->Ok_0;
    s.current_number(c.num);
    let (o, d) = current_dict(s, page.num, Refusal::PageIsNotADictionary)->Ok_0;
    assert forall|j: int|
        0 <= j < s.tree->0.order.len() && (#[trigger] s.tree->0.order[j]).num == c.num implies stands_alone(
        c.after,
    ) by {
        assert(stands_alone(s.pending[s.tree->0.order[j].num]));
        assert(c.num == page.num);
        assert(o == s.pending[page.num]);
        reveal_strlit("Type");
        reveal_strlit("Annots");
        reveal_strlit("Resources");
        assert("Type"@.len() == 4);
        assert("Annots"@.len() == 6);
        assert("Resources"@.len() == 9);
    }
    other_edit_is_hung(s, news, c, root);
}

/// Changes of what was there, and of one other number, change nothing else.
proof fn last_is_new(changes: Seq<Change>, next: int, num: u32, c: Change)
    requires
        changes.len() > 0,
        changes.last() == c,
        c.num != num,
        num >= next,
        forall|j: int| 0 <= j < changes.len() - 1 ==> (#[trigger] changes[j]).num < next,
    ensures
        last_change(changes, num, changes.len()) is None,
{
    last_change_is(changes, num, changes.len());
    if let Some(i) = last_change(changes, num, changes.len()) {
        if i < changes.len() - 1 {
            assert(changes[i as int].num < next);
        }
    }
}

} // verus!
