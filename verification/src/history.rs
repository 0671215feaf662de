//! Undo takes an edit back, and redo makes it again.
use vstd::prelude::*;
use crate::copying::{page_copies, standing};
use crate::document::DocModel;
use crate::edit_model::{annotated, annotation_added, annotations_set, applied, applied_numbers, current_dict, highlighted, kids_of, lined, one_change, overlaid, restored, restored_numbers, unannotated, with_all_new, Change, OpModel, Refusal, SessionModel, TreeModel};
use crate::form::{field_set, filled, named_field};
use crate::number::RealModel;
use crate::object::{entry, DictModel, ObjRef, ObjectModel};
use crate::page::{pages_in, PageModel};
use crate::page_edit::plan_numbers;
use crate::page_order::{arranged_is_in_order, kids_read_back};
use crate::page_tree::{arranged, blank_inserted, catalog_change, hung_from, image_inserted, last_change, page_added, page_deleted, page_moved, page_rotated, pages_inserted, merged, plan_op, planned, rearranged, reordered, turn_changes, with_copies, Plan};
use crate::reach::page_copies_wf;

verus! {

/// The order of the pages is that of the node that they hang from.
pub open spec fn in_order(s: SessionModel) -> bool {
    match s.tree {
        Some(t) => kids_of(s.current(t.node.num)) == Some(t.order),
        None => true,
    }
}

/// An object that is a node with kids as long as it is a dictionary.
pub open spec fn keeps_kids(o: ObjectModel) -> bool {
    o.dict() is Some ==> kids_of(Ok(o)) is Some
}

/// An edit leaves a node with kids as long as it is a dictionary, and found it so.
pub open spec fn op_keeps(op: OpModel, num: u32) -> bool {
    forall|i: int|
        0 <= i < op.changes.len() && (#[trigger] op.changes[i]).num == num ==> keeps_kids(
            op.changes[i].before,
        ) && keeps_kids(op.changes[i].after)
}

/// A node is there and has kids as long as it is a dictionary, now and after any number of edits
/// that are taken back or made again.
pub open spec fn node_kept(s: SessionModel, num: u32) -> bool {
    &&& s.current(num) is Ok
    &&& keeps_kids(s.current(num)->Ok_0)
    &&& forall|i: int| 0 <= i < s.undo.len() ==> op_keeps(#[trigger] s.undo[i], num)
    &&& forall|i: int| 0 <= i < s.redo.len() ==> op_keeps(#[trigger] s.redo[i], num)
}

/// The node that an edit hung all pages from is kept, where it did so.
pub open spec fn made_node_kept(s: SessionModel, op: OpModel) -> bool {
    match op.flattened {
        Some(node) => node_kept(s, node.num),
        None => true,
    }
}

/// The nodes that pages hang from are kept, now and after any number of edits that are taken back
/// or made again, and the order of the pages is that of their node as long as it is a dictionary.
/// A new session is settled, and every edit, undo and redo leaves a session so.
pub open spec fn settled(s: SessionModel) -> bool {
    &&& match s.tree {
        Some(t) => {
            &&& node_kept(s, t.node.num)
            &&& s.current(t.node.num)->Ok_0.dict() is Some ==> kids_of(s.current(t.node.num))
                == Some(t.order)
        },
        None => true,
    }
    &&& forall|i: int| 0 <= i < s.undo.len() ==> made_node_kept(s, #[trigger] s.undo[i])
    &&& forall|i: int| 0 <= i < s.redo.len() ==> made_node_kept(s, #[trigger] s.redo[i])
}

/// A session in which nothing was edited is settled.
pub proof fn new_session_is_settled(s: SessionModel)
    requires
        s.tree is None,
        s.undo.len() == 0,
        s.redo.len() == 0,
    ensures
        settled(s),
{
}

/// Each change starts from what was there.
pub open spec fn fits(s: SessionModel, op: OpModel) -> bool {
    forall|i: int|
        0 <= i < op.changes.len() ==> s.current((#[trigger] op.changes[i]).num) == Ok::<
            ObjectModel,
            crate::error::ErrorModel,
        >(op.changes[i].before)
}

/// A session with new objects: all that was there is as it was.
pub open spec fn extends(s: SessionModel, base: SessionModel) -> bool {
    &&& base.doc == s.doc
    &&& base.undo == s.undo
    &&& base.next >= s.next
    &&& forall|n: u32| n < s.next ==> #[trigger] base.current(n) == s.current(n)
}

/// A change that leaves the kids of a dictionary as they are, or leaves no dictionary.
pub open spec fn same_kids(c: Change) -> bool {
    c.after.dict() is Some ==> c.before.dict() is Some && kids_of(Ok(c.after)) == kids_of(
        Ok(c.before),
    )
}

/// Each change leaves the kids as they are, or puts in others.
pub open spec fn careful(op: OpModel) -> bool {
    forall|i: int|
        0 <= i < op.changes.len() ==> same_kids(#[trigger] op.changes[i]) || kids_of(
            Ok(op.changes[i].after),
        ) is Some
}

/// The order of the pages is kept, and the kids of their node are, or the node has the new order.
pub open spec fn order_follows(s: SessionModel, base: SessionModel, op: OpModel, num: u32) -> bool {
    ||| base.tree == s.tree && forall|i: int|
        0 <= i < op.changes.len() && (#[trigger] op.changes[i]).num == num ==> same_kids(
            op.changes[i],
        )
    ||| s.current(num) is Ok && s.current(num)->Ok_0.dict() is Some && kids_of(
        base.committed(op).current(num),
    ) == Some(base.tree->0.order)
}

/// The tree of pages is kept, or made by the edit.
pub open spec fn tree_follows(s: SessionModel, base: SessionModel, op: OpModel) -> bool {
    match op.flattened {
        Some(node) => {
            &&& s.tree is None
            &&& base.tree is Some
            &&& base.tree->0.node == node
            &&& node.num >= s.next
            &&& kids_of(base.current(node.num)) is Some
            &&& kids_of(base.committed(op).current(node.num)) == Some(base.tree->0.order)
        },
        None => match s.tree {
            None => base.tree is None,
            Some(t) => base.tree is Some && base.tree->0.node == t.node && order_follows(
                s,
                base,
                op,
                t.node.num,
            ),
        },
    }
}

/// `t` is `s` after an edit.
pub open spec fn is_edit(s: SessionModel, t: SessionModel) -> bool {
    exists|base: SessionModel, op: OpModel|
        #![trigger base.committed(op)]
        t == base.committed(op) && extends(s, base) && fits(base, op) && careful(op) && tree_follows(s, base, op)
}

proof fn restored_values(pending: Map<u32, ObjectModel>, changes: Seq<Change>, n: nat, k: u32, value: ObjectModel)
    requires
        n <= changes.len(),
        forall|i: int| 0 <= i < n && (#[trigger] changes[i]).num == k ==> changes[i].before == value,
        exists|i: int| 0 <= i < n && (#[trigger] changes[i]).num == k,
    ensures
        restored(pending, changes, n).contains_key(k),
        restored(pending, changes, n)[k] == value,
    decreases n,
{
    if n > 0 {
        if changes[n - 1].num == k {
        } else {
            let i = choose|i: int| 0 <= i < n && (#[trigger] changes[i]).num == k;
            assert(i < n - 1);
            assert(changes[i].num == k);
            restored_values(pending, changes, (n - 1) as nat, k, value);
        }
    }
}

proof fn applied_values(a: Map<u32, ObjectModel>, b: Map<u32, ObjectModel>, changes: Seq<Change>, n: nat, k: u32)
    requires
        n <= changes.len(),
        exists|i: int| 0 <= i < n && (#[trigger] changes[i]).num == k,
    ensures
        applied(a, changes, n)[k] == applied(b, changes, n)[k],
    decreases n,
{
    if n > 0 {
        if changes[n - 1].num == k {
        } else {
            let i = choose|i: int| 0 <= i < n && (#[trigger] changes[i]).num == k;
            assert(i < n - 1);
            assert(changes[i].num == k);
            applied_values(a, b, changes, (n - 1) as nat, k);
        }
    }
}

/// What changes made of an object is what one of them says, or what it was.
proof fn applied_current(s: SessionModel, t: SessionModel, changes: Seq<Change>, n: nat, k: u32) -> (i: int)
    requires
        n <= changes.len(),
        t.doc == s.doc,
        t.pending == applied(s.pending, changes, n),
    ensures
        if 0 <= i < n {
            changes[i].num == k && t.current(k) == Ok::<ObjectModel, crate::error::ErrorModel>(
                changes[i].after,
            )
        } else {
            t.current(k) == s.current(k)
        },
    decreases n,
{
    if n == 0 {
        -1
    } else if changes[n - 1].num == k {
        n - 1
    } else {
        let less = SessionModel { pending: applied(s.pending, changes, (n - 1) as nat), ..t };
        let i = applied_current(s, less, changes, (n - 1) as nat, k);
        assert(t.current(k) == less.current(k));
        if 0 <= i < n - 1 {
            i
        } else {
            -1
        }
    }
}

/// What changes that are taken back make of an object is what one of them says, or what it was.
proof fn restored_current(s: SessionModel, t: SessionModel, changes: Seq<Change>, n: nat, k: u32) -> (i: int)
    requires
        n <= changes.len(),
        t.doc == s.doc,
        t.pending == restored(s.pending, changes, n),
    ensures
        if 0 <= i < n {
            changes[i].num == k && t.current(k) == Ok::<ObjectModel, crate::error::ErrorModel>(
                changes[i].before,
            )
        } else {
            t.current(k) == s.current(k)
        },
    decreases n,
{
    if n == 0 {
        -1
    } else if changes[n - 1].num == k {
        n - 1
    } else {
        let less = SessionModel { pending: restored(s.pending, changes, (n - 1) as nat), ..t };
        let i = restored_current(s, less, changes, (n - 1) as nat, k);
        assert(t.current(k) == less.current(k));
        if 0 <= i < n - 1 {
            i
        } else {
            -1
        }
    }
}

/// A node is kept by an edit that finds it with kids and is careful.
proof fn committed_node_kept(base: SessionModel, op: OpModel, num: u32)
    requires
        fits(base, op),
        careful(op),
        base.current(num) is Ok,
        keeps_kids(base.current(num)->Ok_0),
        forall|i: int| 0 <= i < base.undo.len() ==> op_keeps(#[trigger] base.undo[i], num),
    ensures
        node_kept(base.committed(op), num),
{
    let t = base.committed(op);
    assert(op_keeps(op, num)) by {
        assert forall|i: int|
            0 <= i < op.changes.len() && (#[trigger] op.changes[i]).num == num implies keeps_kids(
            op.changes[i].before,
        ) && keeps_kids(op.changes[i].after) by {
            assert(base.current(op.changes[i].num) is Ok);
            assert(same_kids(op.changes[i]) || kids_of(Ok(op.changes[i].after)) is Some);
        }
    }
    assert forall|i: int| 0 <= i < t.undo.len() implies op_keeps(#[trigger] t.undo[i], num) by {
        if i < base.undo.len() {
            assert(t.undo[i] == base.undo[i]);
        }
    }
    let i = applied_current(base, t, op.changes, op.changes.len(), num);
    if 0 <= i < op.changes.len() {
        assert(op.changes[i].num == num);
    }
}

/// An edit leaves a session settled.
pub proof fn edit_keeps_settled(s: SessionModel, t: SessionModel)
    requires
        s.wf(),
        settled(s),
        is_edit(s, t),
    ensures
        settled(t),
{
    let (base, op) = choose|base: SessionModel, op: OpModel|
        #![trigger base.committed(op)]
        t == base.committed(op) && extends(s, base) && fits(base, op) && careful(op)
            && tree_follows(s, base, op);
    assert forall|num: u32| node_kept(s, num) implies #[trigger] node_kept(t, num) by {
        s.current_number(num);
        assert(base.current(num) == s.current(num));
        committed_node_kept(base, op, num);
    }
    if let Some(node) = op.flattened {
        assert forall|i: int| 0 <= i < base.undo.len() implies op_keeps(
            #[trigger] base.undo[i],
            node.num,
        ) by {
            assert(s.holds(s.undo[i]));
        }
        committed_node_kept(base, op, node.num);
    } else if let Some(tree) = s.tree {
        let num = tree.node.num;
        s.current_number(num);
        assert(base.current(num) == s.current(num));
        assert(node_kept(t, num));
        let i = applied_current(base, t, op.changes, op.changes.len(), num);
        if 0 <= i < op.changes.len() {
            assert(op.changes[i].num == num);
            assert(base.current(op.changes[i].num) is Ok);
        }
    }
    assert forall|i: int| 0 <= i < t.undo.len() implies made_node_kept(t, #[trigger] t.undo[i]) by {
        if i < s.undo.len() {
            assert(t.undo[i] == s.undo[i]);
            assert(made_node_kept(s, s.undo[i]));
        }
    }
}

/// A node is kept when an edit is taken back.
proof fn undone_node_kept(s: SessionModel, num: u32)
    requires
        node_kept(s, num),
        s.undo.len() > 0,
    ensures
        node_kept(s.undone(), num),
{
    let u = s.undone();
    let op = s.undo.last();
    assert(op_keeps(s.undo[s.undo.len() - 1], num));
    let i = restored_current(s, u, op.changes, op.changes.len(), num);
    if 0 <= i < op.changes.len() {
        assert(op.changes[i].num == num);
    }
    assert forall|i: int| 0 <= i < u.redo.len() implies op_keeps(#[trigger] u.redo[i], num) by {
        if i < s.redo.len() {
            assert(u.redo[i] == s.redo[i]);
        }
    }
    assert forall|i: int| 0 <= i < u.undo.len() implies op_keeps(#[trigger] u.undo[i], num) by {
        assert(u.undo[i] == s.undo[i]);
    }
}

/// A node is kept when an edit is made again.
proof fn redone_node_kept(s: SessionModel, num: u32)
    requires
        node_kept(s, num),
        s.redo.len() > 0,
    ensures
        node_kept(s.redone(), num),
{
    let u = s.redone();
    let op = s.redo.last();
    assert(op_keeps(s.redo[s.redo.len() - 1], num));
    let i = applied_current(s, u, op.changes, op.changes.len(), num);
    if 0 <= i < op.changes.len() {
        assert(op.changes[i].num == num);
    }
    assert forall|i: int| 0 <= i < u.undo.len() implies op_keeps(#[trigger] u.undo[i], num) by {
        if i < s.undo.len() {
            assert(u.undo[i] == s.undo[i]);
        }
    }
    assert forall|i: int| 0 <= i < u.redo.len() implies op_keeps(#[trigger] u.redo[i], num) by {
        assert(u.redo[i] == s.redo[i]);
    }
}

/// Undo leaves a session settled.
pub proof fn undo_keeps_settled(s: SessionModel)
    requires
        settled(s),
    ensures
        settled(s.undone()),
{
    if s.undo.len() > 0 {
        let u = s.undone();
        let op = s.undo.last();
        assert forall|num: u32| node_kept(s, num) implies #[trigger] node_kept(u, num) by {
            undone_node_kept(s, num);
        }
        if u.tree is Some {
            let num = u.tree->0.node.num;
            let mid = SessionModel {
                pending: restored(s.pending, op.changes, op.changes.len()),
                undo: s.undo.drop_last(),
                redo: s.redo.push(op),
                ..s
            };
            assert(u == mid.refreshed());
            assert(mid.current(num) == u.current(num));
            assert(node_kept(u, num));
        }
        assert forall|i: int| 0 <= i < u.undo.len() implies made_node_kept(
            u,
            #[trigger] u.undo[i],
        ) by {
            assert(made_node_kept(s, s.undo[i]));
        }
        assert forall|i: int| 0 <= i < u.redo.len() implies made_node_kept(
            u,
            #[trigger] u.redo[i],
        ) by {
            if i < s.redo.len() {
                assert(made_node_kept(s, s.redo[i]));
            } else {
                assert(made_node_kept(s, s.undo[s.undo.len() - 1]));
            }
        }
    }
}

/// Redo leaves a session settled.
pub proof fn redo_keeps_settled(s: SessionModel)
    requires
        settled(s),
    ensures
        settled(s.redone()),
{
    if s.redo.len() > 0 {
        let u = s.redone();
        let op = s.redo.last();
        assert(made_node_kept(s, s.redo[s.redo.len() - 1]));
        assert forall|num: u32| node_kept(s, num) implies #[trigger] node_kept(u, num) by {
            redone_node_kept(s, num);
        }
        if u.tree is Some {
            let num = u.tree->0.node.num;
            let mid = SessionModel {
                pending: applied(s.pending, op.changes, op.changes.len()),
                undo: s.undo.push(op),
                redo: s.redo.drop_last(),
                tree: match op.flattened {
                    Some(node) => Some(TreeModel { node, order: seq![] }),
                    None => s.tree,
                },
                ..s
            };
            assert(u == mid.refreshed());
            assert(mid.current(num) == u.current(num));
            assert(node_kept(u, num));
        }
        assert forall|i: int| 0 <= i < u.redo.len() implies made_node_kept(
            u,
            #[trigger] u.redo[i],
        ) by {
            assert(made_node_kept(s, s.redo[i]));
        }
        assert forall|i: int| 0 <= i < u.undo.len() implies made_node_kept(
            u,
            #[trigger] u.undo[i],
        ) by {
            if i < s.undo.len() {
                assert(made_node_kept(s, s.undo[i]));
            } else {
                assert(made_node_kept(s, s.redo[s.redo.len() - 1]));
            }
        }
    }
}

/// What is there after an edit was taken back is what was there before it.
proof fn undone_current(base: SessionModel, op: OpModel, n: u32)
    requires
        fits(base, op),
    ensures
        base.committed(op).undone().current(n) == base.current(n),
{
    let cs = op.changes;
    let made = applied(base.pending, cs, cs.len());
    let back = restored(made, cs, cs.len());
    let t = base.committed(op);
    assert(t.undo.last() == op);
    assert(t.undone().pending == back);
    assert(t.undone().doc == base.doc);
    applied_numbers(base.pending, cs, cs.len());
    restored_numbers(made, cs, cs.len());
    if exists|i: int| 0 <= i < cs.len() && (#[trigger] cs[i]).num == n {
        let i = choose|i: int| 0 <= i < cs.len() && (#[trigger] cs[i]).num == n;
        let value = base.current(n)->Ok_0;
        assert(base.current(cs[i].num) is Ok);
        assert forall|j: int| 0 <= j < cs.len() && (#[trigger] cs[j]).num == n implies cs[j].before
            == value by {
            assert(base.current(cs[j].num) is Ok);
        }
        restored_values(made, cs, cs.len(), n, value);
    } else {
        assert(back.contains_key(n) <==> made.contains_key(n));
        assert(made.contains_key(n) <==> base.pending.contains_key(n));
        if base.pending.contains_key(n) {
            assert(back[n] == made[n]);
            assert(made[n] == base.pending[n]);
        }
    }
}

/// Undo takes an edit back: every object that was there before is as it was, and so are the pages
/// and what can be undone. The edit itself can be made again.
pub proof fn undo_takes_back(s: SessionModel, t: SessionModel)
    requires
        s.wf(),
        settled(s),
        is_edit(s, t),
    ensures
        forall|n: u32| n < s.next ==> #[trigger] t.undone().current(n) == s.current(n),
        t.undone().tree == s.tree,
        t.undone().undo == s.undo,
        t.undone().redo == seq![t.undo.last()],
        t.undone().doc == s.doc,
{
    let (base, op) = choose|base: SessionModel, op: OpModel|
        #![trigger base.committed(op)]
        t == base.committed(op) && extends(s, base) && fits(base, op) && careful(op) && tree_follows(s, base, op);
    let u = t.undone();
    assert forall|n: u32| n < s.next implies #[trigger] u.current(n) == s.current(n) by {
        undone_current(base, op, n);
        assert(base.current(n) == s.current(n));
    }
    assert(t.undo.last() == op);
    assert(t.undo.drop_last() =~= base.undo);
    assert(t.redo.push(op) =~= seq![op]);
    if op.flattened is None && s.tree is Some {
        let node = s.tree->0.node;
        s.current_number(node.num);
        assert(u.current(node.num) == s.current(node.num));
        let mid = SessionModel {
            pending: restored(t.pending, op.changes, op.changes.len()),
            undo: t.undo.drop_last(),
            redo: t.redo.push(op),
            tree: t.tree,
            ..t
        };
        assert(u == mid.refreshed());
        assert(mid.current(node.num) == u.current(node.num));
    }
}

/// Redo makes an edit again that undo took back: the session is the same as before both.
pub proof fn redo_makes_again(s: SessionModel, t: SessionModel)
    requires
        s.wf(),
        settled(s),
        is_edit(s, t),
    ensures
        t.undone().redone() == t,
{
    let (base, op) = choose|base: SessionModel, op: OpModel|
        #![trigger base.committed(op)]
        t == base.committed(op) && extends(s, base) && fits(base, op) && careful(op) && tree_follows(s, base, op);
    undo_takes_back(s, t);
    edit_keeps_settled(s, t);
    let cs = op.changes;
    let u = t.undone();
    let r = u.redone();
    assert(t.undo.last() == op);
    assert(u.redo =~= seq![op]);
    assert(u.redo.last() == op);
    let back = restored(t.pending, cs, cs.len());
    assert(u.pending == back);
    let again = applied(back, cs, cs.len());
    assert(r.pending == again);
    applied_numbers(base.pending, cs, cs.len());
    restored_numbers(t.pending, cs, cs.len());
    applied_numbers(back, cs, cs.len());
    assert forall|k: u32| again.contains_key(k) <==> t.pending.contains_key(k) by {
        assert(back.contains_key(k) <==> t.pending.contains_key(k) || exists|i: int|
            0 <= i < cs.len() && (#[trigger] cs[i]).num == k);
    }
    assert forall|k: u32| again.contains_key(k) implies again[k] == t.pending[k] by {
        if exists|i: int| 0 <= i < cs.len() && (#[trigger] cs[i]).num == k {
            applied_values(back, base.pending, cs, cs.len(), k);
        } else {
            assert(t.pending.contains_key(k));
            assert(back[k] == t.pending[k]);
            assert(back.contains_key(k));
            assert(again[k] == back[k]);
        }
    }
    assert(again =~= t.pending);
    assert(u.undo =~= base.undo);
    assert(r.undo =~= t.undo);
    assert(r.redo =~= t.redo);
    let mid = SessionModel {
        pending: again,
        undo: u.undo.push(op),
        redo: u.redo.drop_last(),
        tree: match op.flattened {
            Some(node) => Some(TreeModel { node, order: seq![] }),
            None => u.tree,
        },
        ..u
    };
    assert(r == mid.refreshed());
    match t.tree {
        Some(tree) => {
            assert(mid.tree is Some && mid.tree->0.node == tree.node);
            assert(mid.current(tree.node.num) == t.current(tree.node.num));
            if op.flattened is None {
                assert(node_kept(t, tree.node.num));
                assert(mid.tree == s.tree);
                s.current_number(tree.node.num);
                assert(base.current(tree.node.num) == s.current(tree.node.num));
            }
        },
        None => {},
    }
}

/// A new object stands under a number.
spec fn stands_as(s: SessionModel, num: int, o: ObjectModel) -> bool {
    s.pending.contains_key(num as u32) && s.pending[num as u32] == o
}

/// New objects do not change what is there, and stand under their numbers.
proof fn all_new_extends(s: SessionModel, news: Seq<ObjectModel>, n: nat)
    requires
        s.wf(),
        s.has_room(n as int),
        n <= news.len(),
    ensures
        extends(s, with_all_new(s, news, n)),
        with_all_new(s, news, n).tree == s.tree,
        with_all_new(s, news, n).redo == s.redo,
        with_all_new(s, news, n).next == s.next + n,
        forall|i: int|
            0 <= i < n ==> stands_as(with_all_new(s, news, n), s.next + i, #[trigger] news[i]),
    decreases n,
{
    if n > 0 {
        all_new_extends(s, news, (n - 1) as nat);
        let before = with_all_new(s, news, (n - 1) as nat);
        let after = with_all_new(s, news, n);
        assert(after.pending == before.pending.insert((s.next + n - 1) as u32, news[n - 1]));
        assert forall|k: u32| k < s.next implies #[trigger] after.current(k) == s.current(k) by {
            assert(before.current(k) == s.current(k));
        }
        assert forall|i: int| 0 <= i < n implies stands_as(after, s.next + i, #[trigger] news[i]) by {
            if i < n - 1 {
                assert(stands_as(before, s.next + i, news[i]));
            }
        }
    }
}

/// The names of the entries that edits put in are not that of the kids.
proof fn names_of_entries()
    ensures
        "Annots"@ != "Kids"@,
        "V"@ != "Kids"@,
        "AP"@ != "Kids"@,
        "Type"@ != "Kids"@,
        "Parent"@ != "Kids"@,
        "MediaBox"@ != "Kids"@,
        "Rotate"@ != "Kids"@,
        "Resources"@ != "Kids"@,
        "Pages"@ != "Kids"@,
        "Count"@ != "Kids"@,
{
    reveal_strlit("Kids");
    reveal_strlit("Annots");
    reveal_strlit("V");
    reveal_strlit("AP");
    reveal_strlit("Type");
    reveal_strlit("Parent");
    reveal_strlit("MediaBox");
    reveal_strlit("Rotate");
    reveal_strlit("Resources");
    reveal_strlit("Pages");
    reveal_strlit("Count");
    assert("Kids"@[0] == 'K');
    assert("Annots"@[0] == 'A');
    assert("V"@[0] == 'V');
    assert("AP"@[0] == 'A');
    assert("Type"@[0] == 'T');
    assert("Parent"@[0] == 'P');
    assert("MediaBox"@[0] == 'M');
    assert("Rotate"@[0] == 'R');
    assert("Resources"@[0] == 'R');
    assert("Pages"@[0] == 'P');
    assert("Count"@[0] == 'C');
}

proof fn one_change_is_edit(s: SessionModel, news: Seq<ObjectModel>, c: Change)
    requires
        same_kids(c),
        s.wf(),
        s.has_room(news.len() as int),
        s.current(c.num) == Ok::<ObjectModel, crate::error::ErrorModel>(c.before),
    ensures
        is_edit(s, with_all_new(s, news, news.len()).committed(one_change(c))),
{
    let base = with_all_new(s, news, news.len());
    all_new_extends(s, news, news.len());
    s.current_number(c.num);
    assert(base.current(c.num) == s.current(c.num));
    let op = one_change(c);
    assert(op.changes[0] == c);
    assert(fits(base, op));
    assert(careful(op));
    if let Some(t) = s.tree {
        assert(order_follows(s, base, op, t.node.num));
    }
    assert(tree_follows(s, base, op));
    assert(is_edit(s, base.committed(op)));
}

proof fn annotated_is_edit(s: SessionModel, page: ObjRef, news: Seq<ObjectModel>)
    requires
        s.wf(),
        annotated(s, page, news) is Ok,
    ensures
        is_edit(s, annotated(s, page, news)->Ok_0),
{
    let c = annotation_added(s, page, ObjRef { num: (s.next + news.len() - 1) as u32, gen: 0 })->Ok_0;
    names_of_entries();
    one_change_is_edit(s, news, c);
}

/// Highlighting is an edit.
pub proof fn highlight_is_edit(s: SessionModel, index: int, rect: [i64; 4], color: [i64; 3], quad: Seq<i64>)
    requires
        s.wf(),
        highlighted(s, index, rect, color, quad) is Ok,
    ensures
        is_edit(s, highlighted(s, index, rect, color, quad)->Ok_0),
{
    let page = crate::edit_model::page_ref_at(s.doc, index)->Ok_0;
    let news = choose|news: Seq<ObjectModel>|
        highlighted(s, index, rect, color, quad) == #[trigger] annotated(s, page, news);
    annotated_is_edit(s, page, news);
}

/// Underlining and striking out are edits.
pub proof fn line_is_edit(
    s: SessionModel,
    kind: Seq<char>,
    index: int,
    rect: [i64; 4],
    color: [i64; 3],
    hundredths: int,
)
    requires
        s.wf(),
        lined(s, kind, index, rect, color, hundredths) is Ok,
    ensures
        is_edit(s, lined(s, kind, index, rect, color, hundredths)->Ok_0),
{
    let page = crate::edit_model::page_ref_at(s.doc, index)->Ok_0;
    let news = choose|news: Seq<ObjectModel>|
        lined(s, kind, index, rect, color, hundredths) == #[trigger] annotated(s, page, news);
    annotated_is_edit(s, page, news);
}

/// Putting a text on a page is an edit.
pub proof fn overlay_is_edit(
    s: SessionModel,
    index: int,
    rect: [i64; 4],
    text: Seq<char>,
    size: i64,
    color: [i64; 3],
    background: Option<[i64; 3]>,
)
    requires
        s.wf(),
        overlaid(s, index, rect, text, size, color, background) is Ok,
    ensures
        is_edit(s, overlaid(s, index, rect, text, size, color, background)->Ok_0),
{
    let page = crate::edit_model::page_ref_at(s.doc, index)->Ok_0;
    let news = choose|news: Seq<ObjectModel>|
        overlaid(s, index, rect, text, size, color, background) == #[trigger] annotated(
            s,
            page,
            news,
        );
    annotated_is_edit(s, page, news);
}

/// Taking an annotation off a page is an edit.
pub proof fn removal_is_edit(s: SessionModel, page_index: int, index: usize)
    requires
        s.wf(),
        unannotated(s, page_index, index) is Ok,
    ensures
        is_edit(s, unannotated(s, page_index, index)->Ok_0),
{
    let page = crate::edit_model::page_ref_at(s.doc, page_index)->Ok_0;
    let refs = crate::edit_model::annotations_of(s, page)->Ok_0;
    let c = annotations_set(s, page, refs.remove(index as int))->Ok_0;
    names_of_entries();
    one_change_is_edit(s, seq![], c);
    assert(with_all_new(s, seq![], 0) == s);
}

proof fn filled_same_kids(c: Change, d: DictModel, value: Seq<char>, form_num: int)
    requires
        c.before.dict() == Some(d),
        c.after == filled(d, value, form_num),
    ensures
        same_kids(c),
{
    reveal(filled);
    names_of_entries();
}

/// Filling a field is an edit.
pub proof fn field_is_edit(s: SessionModel, name: Seq<char>, value: Seq<char>)
    requires
        s.wf(),
        field_set(s, name, value) is Ok,
    ensures
        is_edit(s, field_set(s, name, value)->Ok_0),
{
    let num = named_field(s.doc, name)->Ok_0.num;
    let (before, d) = current_dict(s, num, Refusal::FieldIsNotADictionary)->Ok_0;
    let c = Change { num, before, after: filled(d, value, s.next + 1) };
    filled_same_kids(c, d, value, s.next + 1);
    let news = choose|news: Seq<ObjectModel>|
        news.len() == 2 && field_set(s, name, value)->Ok_0 == (
        #[trigger] with_all_new(s, news, 2)).committed(one_change(c));
    one_change_is_edit(s, news, c);
}

proof fn hung_fits(
    s: SessionModel,
    pages: Seq<PageModel>,
    i: nat,
    node: ObjRef,
    changes: Seq<Change>,
    order: Seq<ObjRef>,
)
    requires
        fits(s, OpModel { changes, flattened: None }),
        hung_from(s, pages, i, node, changes, order) is Ok,
    ensures
        fits(
            s,
            OpModel {
                changes: hung_from(s, pages, i, node, changes, order)->Ok_0.0,
                flattened: None,
            },
        ),
    decreases pages.len() - i,
{
    if i < pages.len() {
        let page = pages[i as int];
        let r = page.object_ref->0;
        let (before, d) = current_dict(s, r.num, Refusal::PageIsNotADictionary)->Ok_0;
        let c = Change {
            num: r.num,
            before,
            after: ObjectModel::Dictionary(standing(d, page, node, page.resources)),
        };
        let more = OpModel { changes: changes.push(c), flattened: None };
        assert(fits(s, more)) by {
            assert forall|j: int| 0 <= j < more.changes.len() implies s.current(
                (#[trigger] more.changes[j]).num,
            ) == Ok::<ObjectModel, crate::error::ErrorModel>(more.changes[j].before) by {
                if j < changes.len() {
                    assert(more.changes[j] == changes[j]);
                    let op = OpModel { changes, flattened: None };
                    assert(s.current(op.changes[j].num) is Ok);
                }
            }
        }
        hung_fits(s, pages, i + 1, node, changes.push(c), order.push(r));
    }
}

proof fn plan_fits(s: SessionModel)
    requires
        planned(s) is Ok,
    ensures
        fits(s, OpModel { changes: planned(s)->Ok_0.changes, flattened: None }),
        planned(s)->Ok_0.fresh.len() > 0 <==> s.tree is None,
        s.tree is Some ==> planned(s)->Ok_0.node == s.tree->0.node,
{
    if s.tree is None {
        let pages = pages_in(s.doc)->Ok_0;
        let node = ObjRef { num: s.next as u32, gen: 0 };
        hung_fits(s, pages, 0, node, seq![], seq![]);
        let changes = hung_from(s, pages, 0, node, seq![], seq![])->Ok_0.0;
        let c = catalog_change(s, node)->Ok_0;
        let op = OpModel { changes: changes.push(c), flattened: None };
        assert forall|j: int| 0 <= j < op.changes.len() implies s.current((#[trigger] op.changes[j]).num)
            == Ok::<ObjectModel, crate::error::ErrorModel>(op.changes[j].before) by {
            if j < changes.len() {
                let less = OpModel { changes, flattened: None };
                assert(less.changes[j] == op.changes[j]);
                assert(s.current(less.changes[j].num) is Ok);
            }
        }
    }
}

proof fn standing_same_kids(d: DictModel, page: PageModel, node: ObjRef)
    ensures
        entry(standing(d, page, node, page.resources), "Kids"@) == entry(d, "Kids"@),
{
    reveal(standing);
    names_of_entries();
}

proof fn hung_same_kids(
    s: SessionModel,
    pages: Seq<PageModel>,
    i: nat,
    node: ObjRef,
    changes: Seq<Change>,
    order: Seq<ObjRef>,
)
    requires
        forall|j: int| 0 <= j < changes.len() ==> same_kids(#[trigger] changes[j]),
        hung_from(s, pages, i, node, changes, order) is Ok,
    ensures
        forall|j: int|
            0 <= j < hung_from(s, pages, i, node, changes, order)->Ok_0.0.len() ==> same_kids(
                #[trigger] hung_from(s, pages, i, node, changes, order)->Ok_0.0[j],
            ),
    decreases pages.len() - i,
{
    if i < pages.len() {
        let page = pages[i as int];
        let r = page.object_ref->0;
        let (before, d) = current_dict(s, r.num, Refusal::PageIsNotADictionary)->Ok_0;
        let c = Change {
            num: r.num,
            before,
            after: ObjectModel::Dictionary(standing(d, page, node, page.resources)),
        };
        standing_same_kids(d, page, node);
        assert(same_kids(c));
        hung_same_kids(s, pages, i + 1, node, changes.push(c), order.push(r));
    }
}

/// What a plan changes leaves kids as they are; a new node has the pages as its kids.
proof fn plan_same_kids(s: SessionModel)
    requires
        planned(s) is Ok,
    ensures
        forall|j: int|
            0 <= j < planned(s)->Ok_0.changes.len() ==> same_kids(
                #[trigger] planned(s)->Ok_0.changes[j],
            ),
        planned(s)->Ok_0.fresh.len() > 0 ==> kids_of(Ok(planned(s)->Ok_0.fresh[0])) == Some(
            planned(s)->Ok_0.order,
        ),
{
    if s.tree is None {
        let pages = pages_in(s.doc)->Ok_0;
        let node = ObjRef { num: s.next as u32, gen: 0 };
        hung_same_kids(s, pages, 0, node, seq![], seq![]);
        names_of_entries();
        assert(same_kids(catalog_change(s, node)->Ok_0));
        kids_read_back(
            crate::edit_model::no_names().insert("Type"@, ObjectModel::Name("Pages"@)),
            planned(s)->Ok_0.order,
        );
    }
}

/// A plan that is carried out on a session with new objects is an edit.
proof fn arranged_is_edit(s: SessionModel, base: SessionModel, p: Plan, changes: Seq<Change>, order: Seq<ObjRef>)
    requires
        s.wf(),
        extends(s, base),
        fits(base, plan_op(p, changes)),
        careful(plan_op(p, changes)),
        tree_follows(
            s,
            SessionModel { tree: Some(TreeModel { node: p.node, order }), ..base },
            plan_op(p, changes),
        ),
    ensures
        is_edit(s, arranged(base, p, changes, order)),
{
    let placed = SessionModel { tree: Some(TreeModel { node: p.node, order }), ..base };
    let op = plan_op(p, changes);
    assert(arranged(base, p, changes, order) == placed.committed(op));
    assert(extends(s, placed)) by {
        assert forall|n: u32| n < s.next implies #[trigger] placed.current(n) == s.current(n) by {
            assert(base.current(n) == s.current(n));
        }
    }
    assert(fits(placed, op)) by {
        assert forall|i: int| 0 <= i < op.changes.len() implies placed.current(
            (#[trigger] op.changes[i]).num,
        ) == Ok::<ObjectModel, crate::error::ErrorModel>(op.changes[i].before) by {
            assert(base.current(op.changes[i].num) is Ok);
        }
    }
}

/// A plan that gives the pages another order is careful, and its node has the order.
proof fn reorder_follows(s: SessionModel, base: SessionModel, p: Plan, order: Seq<ObjRef>)
    requires
        s.wf(),
        planned(s) == Ok::<Plan, crate::edit_model::EditFault>(p),
        reordered(s, p, order) is Ok,
        p.fresh.len() > 0 ==> base.pending.contains_key(s.next as u32) && base.pending[s.next as u32]
            == p.fresh[0],
    ensures
        careful(plan_op(p, p.changes.push(reordered(s, p, order)->Ok_0))),
        tree_follows(
            s,
            SessionModel { tree: Some(TreeModel { node: p.node, order }), ..base },
            plan_op(p, p.changes.push(reordered(s, p, order)->Ok_0)),
        ),
{
    plan_fits(s);
    plan_numbers(s);
    plan_same_kids(s);
    let c = reordered(s, p, order)->Ok_0;
    let op = plan_op(p, p.changes.push(c));
    kids_read_back(c.before.dict()->0, order);
    assert forall|i: int| 0 <= i < op.changes.len() implies same_kids(#[trigger] op.changes[i])
        || kids_of(Ok(op.changes[i].after)) is Some by {
        if i < p.changes.len() {
            assert(op.changes[i] == p.changes[i]);
        }
    }
    arranged_is_in_order(s, base, p, order);
    let placed = SessionModel { tree: Some(TreeModel { node: p.node, order }), ..base };
    assert(placed.committed(op) == arranged(base, p, p.changes.push(c), order));
    if p.fresh.len() == 0 {
        assert(order_follows(s, placed, op, p.node.num));
    }
}

/// The changes of a plan, and the one of the node, start from what is there.
proof fn reorder_fits(s: SessionModel, base: SessionModel, p: Plan, order: Seq<ObjRef>)
    requires
        s.wf(),
        planned(s) == Ok::<Plan, crate::edit_model::EditFault>(p),
        extends(s, base),
        reordered(s, p, order) is Ok,
        p.fresh.len() > 0 ==> base.pending.contains_key(s.next as u32) && base.pending[s.next as u32]
            == p.fresh[0],
    ensures
        fits(base, plan_op(p, p.changes.push(reordered(s, p, order)->Ok_0))),
{
    plan_fits(s);
    plan_numbers(s);
    let c = reordered(s, p, order)->Ok_0;
    let op = plan_op(p, p.changes.push(c));
    assert forall|i: int| 0 <= i < op.changes.len() implies base.current((#[trigger] op.changes[i]).num)
        == Ok::<ObjectModel, crate::error::ErrorModel>(op.changes[i].before) by {
        if i < p.changes.len() {
            let less = OpModel { changes: p.changes, flattened: None };
            assert(less.changes[i] == op.changes[i]);
            assert(s.current(less.changes[i].num) is Ok);
            assert(base.current(p.changes[i].num) == s.current(p.changes[i].num));
        } else if p.fresh.len() == 0 {
            s.current_number(p.node.num);
            assert(base.current(p.node.num) == s.current(p.node.num));
        }
    }
}

proof fn rearranged_is_edit(s: SessionModel, p: Plan, news: Seq<ObjectModel>, order: Seq<ObjRef>)
    requires
        s.wf(),
        planned(s) == Ok::<Plan, crate::edit_model::EditFault>(p),
        s.has_room((p.fresh + news).len() as int),
        rearranged(s, p, news, order) is Ok,
    ensures
        is_edit(s, rearranged(s, p, news, order)->Ok_0),
{
    let all = p.fresh + news;
    let base = with_all_new(s, all, all.len());
    all_new_extends(s, all, all.len());
    if p.fresh.len() > 0 {
        assert(stands_as(base, s.next, all[0]));
        assert(all[0] == p.fresh[0]);
    }
    reorder_fits(s, base, p, order);
    reorder_follows(s, base, p, order);
    arranged_is_edit(s, base, p, p.changes.push(reordered(s, p, order)->Ok_0), order);
}

/// Putting in an empty page is an edit.
pub proof fn blank_is_edit(s: SessionModel, at: int, bounds: Seq<RealModel>)
    requires
        s.wf(),
        blank_inserted(s, at, bounds) is Ok,
    ensures
        is_edit(s, blank_inserted(s, at, bounds)->Ok_0),
{
    reveal(blank_inserted);
    let p = planned(s)->Ok_0;
    let news = choose|news: Seq<ObjectModel>|
        blank_inserted(s, at, bounds) == #[trigger] page_added(s, p, news, at);
    added_is_edit(s, p, news, at);
}

/// Putting in a page with an image is an edit.
pub proof fn image_is_edit(s: SessionModel, at: int, data: Seq<u8>)
    requires
        s.wf(),
        image_inserted(s, at, data) is Ok,
    ensures
        is_edit(s, image_inserted(s, at, data)->Ok_0),
{
    let p = planned(s)->Ok_0;
    let news = choose|news: Seq<ObjectModel>|
        image_inserted(s, at, data) == #[trigger] page_added(s, p, news, at);
    added_is_edit(s, p, news, at);
}

proof fn added_is_edit(s: SessionModel, p: Plan, news: Seq<ObjectModel>, at: int)
    requires
        s.wf(),
        planned(s) == Ok::<Plan, crate::edit_model::EditFault>(p),
        page_added(s, p, news, at) is Ok,
    ensures
        is_edit(s, page_added(s, p, news, at)->Ok_0),
{
    let page = ObjRef { num: (s.next + p.fresh.len() + news.len() - 1) as u32, gen: 0 };
    rearranged_is_edit(s, p, news, crate::page_tree::put_at(p.order, at, seq![page]));
}

/// Deleting a page is an edit.
pub proof fn deletion_is_edit(s: SessionModel, index: usize)
    requires
        s.wf(),
        page_deleted(s, index) is Ok,
    ensures
        is_edit(s, page_deleted(s, index)->Ok_0),
{
    plan_numbers(s);
    let p = planned(s)->Ok_0;
    rearranged_is_edit(s, p, seq![], p.order.remove(index as int));
}

/// Moving a page is an edit.
pub proof fn move_is_edit(s: SessionModel, from: usize, to: usize)
    requires
        s.wf(),
        page_moved(s, from, to) is Ok,
    ensures
        is_edit(s, page_moved(s, from, to)->Ok_0),
{
    plan_numbers(s);
    let p = planned(s)->Ok_0;
    rearranged_is_edit(
        s,
        p,
        seq![],
        p.order.remove(from as int).insert(to as int, p.order[from as int]),
    );
}

proof fn last_change_bounds(changes: Seq<Change>, num: u32, n: nat)
    requires
        n <= changes.len(),
    ensures
        match last_change(changes, num, n) {
            Some(i) => i < n && changes[i as int].num == num,
            None => forall|j: int| 0 <= j < n ==> (#[trigger] changes[j]).num != num,
        },
    decreases n,
{
    if n > 0 {
        last_change_bounds(changes, num, (n - 1) as nat);
    }
}

/// Turning a page is an edit.
pub proof fn turn_is_edit(s: SessionModel, index: usize, delta: i32)
    requires
        s.wf(),
        page_rotated(s, index, delta) is Ok,
    ensures
        is_edit(s, page_rotated(s, index, delta)->Ok_0),
{
    plan_numbers(s);
    plan_fits(s);
    let p = planned(s)->Ok_0;
    let num = p.order[index as int].num;
    let changes = turn_changes(s, p, num, delta)->Ok_0;
    let base = with_all_new(s, p.fresh, p.fresh.len());
    all_new_extends(s, p.fresh, p.fresh.len());
    last_change_bounds(p.changes, num, p.changes.len());
    let op = plan_op(p, changes);
    assert forall|i: int| 0 <= i < op.changes.len() implies base.current((#[trigger] op.changes[i]).num)
        == Ok::<ObjectModel, crate::error::ErrorModel>(op.changes[i].before) by {
        if i < p.changes.len() {
            let less = OpModel { changes: p.changes, flattened: None };
            assert(less.changes[i].num == op.changes[i].num);
            assert(less.changes[i].before == op.changes[i].before);
            assert(s.current(less.changes[i].num) is Ok);
            assert(p.changes[i].num < s.next);
            assert(base.current(p.changes[i].num) == s.current(p.changes[i].num));
        } else {
            s.current_number(num);
            assert(base.current(num) == s.current(num));
        }
    }
    plan_same_kids(s);
    names_of_entries();
    assert forall|i: int| 0 <= i < op.changes.len() implies same_kids(#[trigger] op.changes[i]) by {
        if i < p.changes.len() {
            assert(same_kids(p.changes[i]));
        }
    }
    let placed = SessionModel { tree: Some(TreeModel { node: p.node, order: p.order }), ..base };
    if p.fresh.len() > 0 {
        assert(stands_as(base, s.next, p.fresh[0]));
        let t = placed.committed(op);
        let i = applied_current(placed, t, op.changes, op.changes.len(), p.node.num);
        if 0 <= i < op.changes.len() {
            assert(op.changes[i].num < s.next);
        }
        assert(tree_follows(s, placed, op));
    } else {
        assert(placed.tree == s.tree);
        assert(order_follows(s, placed, op, p.node.num));
    }
    arranged_is_edit(s, base, p, changes, p.order);
}

/// Putting in pages of another document is an edit.
pub proof fn insertion_is_edit(s: SessionModel, source: DocModel, indices: Seq<usize>, at: int)
    requires
        s.wf(),
        pages_inserted(s, source, indices, at) is Ok,
    ensures
        is_edit(s, pages_inserted(s, source, indices, at)->Ok_0),
{
    plan_numbers(s);
    let p = planned(s)->Ok_0;
    let next = s.next + p.fresh.len();
    let (refs, c) = page_copies(source, indices, p.node, next)->Ok_0;
    page_copies_wf(source, indices, p.node, next);
    let order = crate::page_tree::put_at(p.order, at, refs);
    let first = with_all_new(s, p.fresh, p.fresh.len());
    all_new_extends(s, p.fresh, p.fresh.len());
    let base = with_copies(first, c);
    assert(extends(s, base)) by {
        assert forall|n: u32| n < s.next implies #[trigger] base.current(n) == s.current(n) by {
            assert(first.current(n) == s.current(n));
            assert(!c.made.contains_key(n));
        }
    }
    if p.fresh.len() > 0 {
        assert(stands_as(first, s.next, p.fresh[0]));
        assert(!c.made.contains_key(s.next as u32));
    }
    reorder_fits(s, base, p, order);
    reorder_follows(s, base, p, order);
    arranged_is_edit(s, base, p, p.changes.push(reordered(s, p, order)->Ok_0), order);
}

/// Merging a document is an edit.
pub proof fn merging_is_edit(s: SessionModel, source: DocModel)
    requires
        s.wf(),
        merged(s, source) is Ok,
    ensures
        is_edit(s, merged(s, source)->Ok_0),
{
    let at = crate::page_tree::count_now(s)->Ok_0;
    insertion_is_edit(
        s,
        source,
        crate::page_tree::all_indices(pages_in(source)->Ok_0.len()),
        at as int,
    );
}

} // verus!
