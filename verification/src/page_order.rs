//! What edits keep of the pages and of their order.
use vstd::prelude::*;
use crate::edit_model::{applied, kids_of, reference_items, references_in, with_all_new, Change, EditFault, SessionModel};
use crate::history::in_order;
use crate::number::RealModel;
use crate::object::{entry, DictModel, ObjRef, ObjectModel};
use crate::page::{pages_in, PageModel};
use crate::page_tree::{arranged, blank_inserted, count_now, hung_from, image_inserted, page_added, page_deleted, page_moved, pages_inserted, planned, put_at, rearranged, reordered, turned, with_kids, Plan};

verus! {

/// References read from an array are those that it was made of.
pub proof fn references_read_back(refs: Seq<ObjRef>, n: nat)
    requires
        n <= refs.len(),
    ensures
        references_in(reference_items(refs), n) == refs.take(n as int),
    decreases n,
{
    if n > 0 {
        references_read_back(refs, (n - 1) as nat);
        assert(refs.take(n as int) =~= refs.take(n - 1).push(refs[n - 1]));
    } else {
        assert(refs.take(0) =~= seq![]);
    }
}

/// A node that was given pages as its kids has them as its kids.
pub proof fn kids_read_back(d: DictModel, order: Seq<ObjRef>)
    ensures
        kids_of(Ok(ObjectModel::Dictionary(with_kids(d, order)))) == Some(order),
{
    reveal(with_kids);
    reveal_strlit("Kids");
    reveal_strlit("Count");
    assert("Kids"@[0] != "Count"@[0]);
    assert(entry(with_kids(d, order), "Kids"@) == Some(ObjectModel::Array(reference_items(order))));
    references_read_back(order, order.len());
    assert(order.take(order.len() as int) =~= order);
    assert(reference_items(order).len() == order.len());
}

/// After an edit of the order the node has the pages in that order.
pub proof fn arranged_is_in_order(s: SessionModel, base: SessionModel, p: Plan, order: Seq<ObjRef>)
    requires
        reordered(s, p, order) is Ok,
    ensures
        in_order(arranged(base, p, p.changes.push(reordered(s, p, order)->Ok_0), order)),
        arranged(base, p, p.changes.push(reordered(s, p, order)->Ok_0), order).tree->0.order == order,
{
    let c = reordered(s, p, order)->Ok_0;
    let cs = p.changes.push(c);
    let t = arranged(base, p, cs, order);
    assert(cs[cs.len() - 1] == c);
    assert(t.pending == applied(base.pending, cs, cs.len()));
    assert(t.pending == applied(base.pending, cs, (cs.len() - 1) as nat).insert(c.num, c.after));
    assert(t.current(p.node.num) == Ok::<ObjectModel, crate::error::ErrorModel>(c.after));
    kids_read_back(c.before.dict()->0, order);
}

proof fn hung_order(
    s: SessionModel,
    pages: Seq<PageModel>,
    i: nat,
    node: ObjRef,
    changes: Seq<Change>,
    order: Seq<ObjRef>,
)
    requires
        i <= pages.len(),
        order.len() == i,
        forall|j: int| 0 <= j < i ==> Some(#[trigger] order[j]) == pages[j].object_ref,
        hung_from(s, pages, i, node, changes, order) is Ok,
    ensures
        hung_from(s, pages, i, node, changes, order)->Ok_0.1.len() == pages.len(),
        forall|j: int|
            0 <= j < pages.len() ==> Some(
                #[trigger] hung_from(s, pages, i, node, changes, order)->Ok_0.1[j],
            ) == pages[j].object_ref,
    decreases pages.len() - i,
{
    if i < pages.len() {
        let page = pages[i as int];
        let r = page.object_ref->0;
        let (before, d) = crate::edit_model::current_dict(
            s,
            r.num,
            crate::edit_model::Refusal::PageIsNotADictionary,
        )->Ok_0;
        let c = Change {
            num: r.num,
            before,
            after: ObjectModel::Dictionary(
                crate::copying::standing(d, page, node, page.resources),
            ),
        };
        hung_order(s, pages, i + 1, node, changes.push(c), order.push(r));
    }
}

/// The first edit of the order starts from the pages of the document, in their order.
pub proof fn plan_starts_from_the_pages(s: SessionModel)
    requires
        planned(s) is Ok,
    ensures
        count_now(s) == Ok::<nat, EditFault>(planned(s)->Ok_0.order.len()),
        s.tree is None ==> forall|j: int|
            0 <= j < planned(s)->Ok_0.order.len() ==> Some(#[trigger] planned(s)->Ok_0.order[j])
                == pages_in(s.doc)->Ok_0[j].object_ref,
{
    if s.tree is None {
        let node = ObjRef { num: s.next as u32, gen: 0 };
        hung_order(s, pages_in(s.doc)->Ok_0, 0, node, seq![], seq![]);
    }
}

proof fn rearranged_count(s: SessionModel, p: Plan, news: Seq<ObjectModel>, order: Seq<ObjRef>)
    requires
        rearranged(s, p, news, order) is Ok,
    ensures
        in_order(rearranged(s, p, news, order)->Ok_0),
        rearranged(s, p, news, order)->Ok_0.tree->0.order == order,
        count_now(rearranged(s, p, news, order)->Ok_0) == Ok::<nat, EditFault>(order.len()),
{
    let all = p.fresh + news;
    arranged_is_in_order(s, with_all_new(s, all, all.len()), p, order);
}

/// Deleting a page leaves the others in their order.
pub proof fn deletion_leaves_the_others(s: SessionModel, index: usize)
    requires
        page_deleted(s, index) is Ok,
    ensures
        in_order(page_deleted(s, index)->Ok_0),
        count_now(page_deleted(s, index)->Ok_0) == Ok::<nat, EditFault>(
            (count_now(s)->Ok_0 - 1) as nat,
        ),
        forall|i: int|
            0 <= i < count_now(s)->Ok_0 - 1 ==> #[trigger] page_deleted(s, index)->Ok_0.tree->0.order[i]
                == planned(s)->Ok_0.order[if i < index {
                i
            } else {
                i + 1
            }],
{
    let p = planned(s)->Ok_0;
    plan_starts_from_the_pages(s);
    rearranged_count(s, p, seq![], p.order.remove(index as int));
}

/// A moved page stands where it was moved to, and no page is lost or doubled.
pub proof fn move_keeps_the_pages(s: SessionModel, from: usize, to: usize)
    requires
        page_moved(s, from, to) is Ok,
    ensures
        in_order(page_moved(s, from, to)->Ok_0),
        count_now(page_moved(s, from, to)->Ok_0) == count_now(s),
        page_moved(s, from, to)->Ok_0.tree->0.order[to as int] == planned(s)->Ok_0.order[from as int],
        page_moved(s, from, to)->Ok_0.tree->0.order.to_multiset()
            == planned(s)->Ok_0.order.to_multiset(),
{
    let p = planned(s)->Ok_0;
    plan_starts_from_the_pages(s);
    let page = p.order[from as int];
    let rest = p.order.remove(from as int);
    let order = rest.insert(to as int, page);
    rearranged_count(s, p, seq![], order);
    vstd::seq_lib::to_multiset_insert(rest, to as int, page);
    vstd::seq_lib::to_multiset_remove(p.order, from as int);
    p.order.to_multiset_ensures();
    assert(p.order.contains(page));
    assert(order.to_multiset() =~= p.order.to_multiset());
}

/// A page that is moved and moved back leaves the order as it was.
pub proof fn move_back_restores(order: Seq<ObjRef>, from: int, to: int)
    requires
        0 <= from < order.len(),
        0 <= to < order.len(),
    ensures
        ({
            let moved = order.remove(from).insert(to, order[from]);
            moved.remove(to).insert(from, moved[to]) == order
        }),
{
    let moved = order.remove(from).insert(to, order[from]);
    assert(moved.remove(to) =~= order.remove(from));
    assert(moved.remove(to).insert(from, moved[to]) =~= order);
}

proof fn added_count(s: SessionModel, p: Plan, news: Seq<ObjectModel>, at: int)
    requires
        planned(s) == Ok::<Plan, EditFault>(p),
        at >= 0,
        page_added(s, p, news, at) is Ok,
    ensures
        in_order(page_added(s, p, news, at)->Ok_0),
        count_now(page_added(s, p, news, at)->Ok_0) == Ok::<nat, EditFault>(count_now(s)->Ok_0 + 1),
{
    plan_starts_from_the_pages(s);
    let page = ObjRef { num: (s.next + p.fresh.len() + news.len() - 1) as u32, gen: 0 };
    rearranged_count(s, p, news, put_at(p.order, at, seq![page]));
}

/// An empty page makes one page more.
pub proof fn blank_is_one_page_more(s: SessionModel, at: int, bounds: Seq<RealModel>)
    requires
        at >= 0,
        blank_inserted(s, at, bounds) is Ok,
    ensures
        in_order(blank_inserted(s, at, bounds)->Ok_0),
        count_now(blank_inserted(s, at, bounds)->Ok_0) == Ok::<nat, EditFault>(count_now(s)->Ok_0 + 1),
{
    reveal(blank_inserted);
    let p = planned(s)->Ok_0;
    let news = choose|news: Seq<ObjectModel>|
        blank_inserted(s, at, bounds) == #[trigger] page_added(s, p, news, at);
    added_count(s, p, news, at);
}

/// A page with an image makes one page more.
pub proof fn image_is_one_page_more(s: SessionModel, at: int, data: Seq<u8>)
    requires
        at >= 0,
        image_inserted(s, at, data) is Ok,
    ensures
        in_order(image_inserted(s, at, data)->Ok_0),
        count_now(image_inserted(s, at, data)->Ok_0) == Ok::<nat, EditFault>(count_now(s)->Ok_0 + 1),
{
    let p = planned(s)->Ok_0;
    let news = choose|news: Seq<ObjectModel>|
        image_inserted(s, at, data) == #[trigger] page_added(s, p, news, at);
    added_count(s, p, news, at);
}

/// Pages of another document make as many pages more; they stand together, in the order asked
/// for, and the others keep theirs.
pub proof fn insertion_adds_the_pages(
    s: SessionModel,
    source: crate::document::DocModel,
    indices: Seq<usize>,
    at: int,
)
    requires
        at >= 0,
        pages_inserted(s, source, indices, at) is Ok,
    ensures
        ({
            let t = pages_inserted(s, source, indices, at)->Ok_0;
            let p = planned(s)->Ok_0;
            let refs = crate::copying::page_copies(
                source,
                indices,
                p.node,
                s.next + p.fresh.len(),
            )->Ok_0.0;
            &&& in_order(t)
            &&& refs.len() == indices.len()
            &&& t.tree->0.order == put_at(p.order, at, refs)
            &&& count_now(t) == Ok::<nat, EditFault>(count_now(s)->Ok_0 + indices.len())
        }),
{
    plan_starts_from_the_pages(s);
    let p = planned(s)->Ok_0;
    let (refs, c) = crate::copying::page_copies(source, indices, p.node, s.next + p.fresh.len())->Ok_0;
    let first = with_all_new(s, p.fresh, p.fresh.len());
    arranged_is_in_order(s, crate::page_tree::with_copies(first, c), p, put_at(p.order, at, refs));
}

/// A page that is turned and turned back by as much has the angle that it had, held from 0 to
/// 359.
pub proof fn turning_back_restores(d: DictModel, now: int, delta: i32)
    requires
        entry(d, "Rotate"@) == Some(ObjectModel::Integer(now)),
        i64::MIN <= now <= i64::MAX,
        delta > i32::MIN,
    ensures
        turned(turned(d, delta)->Dictionary_0, (-delta) as i32) == ObjectModel::Dictionary(
            d.insert("Rotate"@, ObjectModel::Integer(now % 360)),
        ),
{
    let once = turned(d, delta)->Dictionary_0;
    let angle = (now + delta) % 360;
    assert(entry(once, "Rotate"@) == Some(ObjectModel::Integer(angle)));
    assert((angle - delta) % 360 == now % 360);
    assert(once.insert("Rotate"@, ObjectModel::Integer(now % 360)) =~= d.insert(
        "Rotate"@,
        ObjectModel::Integer(now % 360),
    ));
}

} // verus!
