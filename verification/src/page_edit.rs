//! Edits of the order of pages: insertion, deletion, moves, turns and merging.
use vstd::prelude::*;
use crate::appearance::push_text;
use crate::copying::{make_standing, Copier, CopyModel};
use crate::decimal::push_decimal;
use crate::document::Document;
use crate::edit::{all_new_wf, change_model, change_models, ref_object, reference_array, refused, EditSession};
use crate::edit_model::{current_dict, no_names, with_all_new, Change, EditError, EditFault, Refusal, SessionModel, TreeModel};
use crate::jpeg::jpeg_dimensions;
use crate::number::{Real, RealModel};
use crate::object::{models, Dictionary, ObjRef, Object, ObjectModel, Stream};
use crate::page::page_models;
use crate::page_tree::{all_indices, arranged, blank_inserted, catalog_change, count_now, hung_from, image_bounds, image_content, image_inserted, image_resources, jpeg_object, last_change, merged, page_added, page_deleted, page_moved, page_rotated, pages_inserted, pages_node, plain_page, plan_op, planned, put_at, real_items, rearranged, reordered, turn_changes, turned, with_copies, with_kids, Plan};
use crate::reach::page_copies_wf;
use crate::table::numbers;

verus! {

/// All pages below one node.
struct FlatPlan {
    node: ObjRef,
    order: Vec<ObjRef>,
    changes: Vec<(u32, Object, Object)>,
    fresh: Vec<Object>,
}

impl View for FlatPlan {
    type V = Plan;

    closed spec fn view(&self) -> Plan {
        Plan {
            node: self.node,
            order: self.order@,
            changes: change_models(self.changes@),
            fresh: models(self.fresh@),
        }
    }
}

/// A node with kids.
pub(crate) fn set_kids(dict: &mut Dictionary, order: &Vec<ObjRef>)
    ensures
        final(dict)@ == with_kids(old(dict)@, order@),
{
    proof {
        reveal(with_kids);
    }
    dict.insert("Kids", reference_array(order));
    dict.insert("Count", Object::Integer(order.len() as i64));
}

proof fn change_pushed(s: Seq<(u32, Object, Object)>, c: (u32, Object, Object))
    ensures
        change_models(s.push(c)) == change_models(s).push(change_model(c)),
{
    assert(change_models(s.push(c)) =~= change_models(s).push(change_model(c)));
}

/// The objects that a plan changes have numbers in use.
proof fn hung_numbers(
    s: SessionModel,
    pages: Seq<crate::page::PageModel>,
    i: nat,
    node: ObjRef,
    changes: Seq<Change>,
    order: Seq<ObjRef>,
)
    requires
        s.wf(),
        forall|j: int| 0 <= j < changes.len() ==> (#[trigger] changes[j]).num < s.next,
        hung_from(s, pages, i, node, changes, order) is Ok,
    ensures
        forall|j: int|
            0 <= j < hung_from(s, pages, i, node, changes, order)->Ok_0.0.len() ==> (
            #[trigger] hung_from(s, pages, i, node, changes, order)->Ok_0.0[j]).num < s.next,
    decreases pages.len() - i,
{
    if i < pages.len() {
        let page = pages[i as int];
        let r = page.object_ref->0;
        s.current_number(r.num);
        let (before, d) = current_dict(s, r.num, Refusal::PageIsNotADictionary)->Ok_0;
        let c = Change {
            num: r.num,
            before,
            after: ObjectModel::Dictionary(
                crate::copying::standing(d, page, node, page.resources),
            ),
        };
        hung_numbers(s, pages, i + 1, node, changes.push(c), order.push(r));
    }
}

pub proof fn plan_numbers(s: SessionModel)
    requires
        s.wf(),
        planned(s) is Ok,
    ensures
        forall|j: int| 0 <= j < planned(s)->Ok_0.changes.len() ==> (#[trigger] planned(s)->Ok_0.changes[j]).num < s.next,
        planned(s)->Ok_0.fresh.len() <= 1,
        planned(s)->Ok_0.fresh.len() == 1 ==> s.has_room(1) && planned(s)->Ok_0.node.num == s.next,
{
    if s.tree is None {
        let pages = crate::page::pages_in(s.doc)->Ok_0;
        let node = ObjRef { num: s.next as u32, gen: 0 };
        hung_numbers(s, pages, 0, node, seq![], seq![]);
        let r = catalog_change(s, node)->Ok_0;
        s.current_number(r.num);
    }
}

/// Four numbers by what they say.
#[verifier::opaque]
pub open spec fn four_numbers(b: [Real; 4]) -> Seq<RealModel> {
    seq![b[0]@, b[1]@, b[2]@, b[3]@]
}

proof fn arranged_wf(s: SessionModel, p: Plan, changes: Seq<Change>, order: Seq<ObjRef>)
    requires
        s.wf(),
        forall|j: int| 0 <= j < changes.len() ==> (#[trigger] changes[j]).num < s.next,
    ensures
        arranged(s, p, changes, order).wf(),
{
    let t = SessionModel { tree: Some(TreeModel { node: p.node, order }), ..s };
    assert(t.wf()) by {
        assert forall|i: int| 0 <= i < t.undo.len() implies t.holds(#[trigger] t.undo[i]) by {
            assert(s.holds(s.undo[i]));
        }
        assert forall|i: int| 0 <= i < t.redo.len() implies t.holds(#[trigger] t.redo[i]) by {
            assert(s.holds(s.redo[i]));
        }
    }
    t.committed_wf(plan_op(p, changes));
}

fn stream_object(dict: Dictionary, raw_data: Vec<u8>) -> (r: Object)
    ensures
        r@ == ObjectModel::Stream(dict@, raw_data@),
{
    Object::Stream(Stream { dict, raw_data })
}

fn plain_page_object(node: ObjRef, bounds: Vec<Object>, resources: Dictionary, content: u32) -> (r: Object)
    ensures
        r@ == plain_page(node, models(bounds@), resources@, content as int),
{
    proof {
        reveal(plain_page);
    }
    let mut dict = Dictionary::new();
    dict.insert("Type", Object::Name("Page".to_owned()));
    dict.insert("Parent", Object::Reference(node));
    dict.insert("MediaBox", crate::edit::array_object(bounds));
    dict.insert("Resources", Object::Dictionary(resources));
    dict.insert("Contents", ref_object(content));
    Object::Dictionary(dict)
}

fn jpeg_stream(size: (u16, u16, u8), data: &[u8]) -> (r: Object)
    ensures
        r@ == jpeg_object(size, data@),
{
    proof {
        reveal(jpeg_object);
    }
    let space: &str = if size.2 == 1 {
        "DeviceGray"
    } else if size.2 == 4 {
        "DeviceCMYK"
    } else {
        "DeviceRGB"
    };
    let mut dict = Dictionary::new();
    dict.insert("Type", Object::Name("XObject".to_owned()));
    dict.insert("Subtype", Object::Name("Image".to_owned()));
    dict.insert("Width", Object::Integer(size.0 as i64));
    dict.insert("Height", Object::Integer(size.1 as i64));
    dict.insert("ColorSpace", Object::Name(space.to_owned()));
    dict.insert("BitsPerComponent", Object::Integer(8));
    dict.insert("Filter", Object::Name("DCTDecode".to_owned()));
    stream_object(dict, crate::object::clone_bytes(data))
}

fn image_page_content(size: (u16, u16, u8)) -> (r: Vec<u8>)
    ensures
        r@ == image_content(size),
{
    proof {
        reveal(image_content);
    }
    let mut out: Vec<u8> = Vec::new();
    push_text(&mut out, "q ");
    push_decimal(&mut out, size.0 as u64);
    push_text(&mut out, " 0 0 ");
    push_decimal(&mut out, size.1 as u64);
    push_text(&mut out, " 0 0 cm /Im0 Do Q");
    assert(out@ =~= image_content(size));
    out
}

fn image_resources_dict(image: u32) -> (r: Dictionary)
    ensures
        r@ == image_resources(image as int),
{
    proof {
        reveal(image_resources);
    }
    let mut images = Dictionary::new();
    images.insert("Im0", ref_object(image));
    let mut dict = Dictionary::new();
    dict.insert("XObject", Object::Dictionary(images));
    dict
}

/// Four numbers as items.
fn real_objects(bounds: &[Real; 4]) -> (r: Vec<Object>)
    ensures
        models(r@) == real_items(seq![bounds[0]@, bounds[1]@, bounds[2]@, bounds[3]@]),
{
    let mut items: Vec<Object> = Vec::new();
    items.push(Object::Real(bounds[0].clone()));
    items.push(Object::Real(bounds[1].clone()));
    items.push(Object::Real(bounds[2].clone()));
    items.push(Object::Real(bounds[3].clone()));
    assert(models(items@) =~= real_items(seq![bounds[0]@, bounds[1]@, bounds[2]@, bounds[3]@]));
    items
}

/// References again.
fn clone_refs(refs: &Vec<ObjRef>) -> (r: Vec<ObjRef>)
    ensures
        r@ == refs@,
{
    let mut r: Vec<ObjRef> = Vec::new();
    let mut i: usize = 0;
    while i < refs.len()
        invariant
            0 <= i <= refs@.len(),
            r@ == refs@.take(i as int),
        decreases refs@.len() - i,
    {
        r.push(refs[i]);
        assert(r@ =~= refs@.take(i + 1));
        i += 1;
    }
    assert(r@ =~= refs@);
    r
}

/// Puts pages in at an index, or behind all others.
fn insert_refs(order: &mut Vec<ObjRef>, at: usize, refs: &Vec<ObjRef>)
    ensures
        final(order)@ == put_at(old(order)@, at as int, refs@),
{
    let ghost start = order@;
    let at: usize = if at < order.len() {
        at
    } else {
        order.len()
    };
    let mut i: usize = 0;
    assert(order@ =~= start.take(at as int) + refs@.take(0) + start.skip(at as int));
    while i < refs.len()
        invariant
            0 <= i <= refs@.len(),
            at <= start.len(),
            order@ == start.take(at as int) + refs@.take(i as int) + start.skip(at as int),
        decreases refs@.len() - i,
    {
        assert(at + i <= order@.len());
        let n: usize = order.len();
        order.insert(at + i, refs[i]);
        assert(order@ =~= start.take(at as int) + refs@.take(i + 1) + start.skip(at as int));
        i += 1;
    }
    assert(refs@.take(i as int) =~= refs@);
}

/// A page turned by some degrees.
fn turn(dict: &Dictionary, delta: i32) -> (r: Object)
    ensures
        r@ == turned(dict@, delta),
{
    let now: i64 = match dict.get("Rotate") {
        Some(o) => match o.as_int() {
            Some(n) => n,
            None => 0,
        },
        None => 0,
    };
    let sum: i128 = now as i128 + delta as i128;
    let angle: i128 = if sum >= 0 {
        sum % 360
    } else {
        let rest: i128 = (-sum) % 360;
        if rest == 0 {
            0
        } else {
            360 - rest
        }
    };
    assert(angle == sum as int % 360);
    let mut turned_dict = dict.clone();
    turned_dict.insert("Rotate", Object::Integer(angle as i64));
    Object::Dictionary(turned_dict)
}

impl EditSession {
    /// The change that hangs a page from `node`, and the page's reference.
    fn hang(&self, page: &crate::page::Page, node: ObjRef) -> (r: Result<
        ((u32, Object, Object), ObjRef),
        EditError,
    >)
        ensures
            match page@.object_ref {
                None => r is Err && r->Err_0@ == EditFault::Refused(Refusal::PageHasNoReference),
                Some(x) => match current_dict(self@, x.num, Refusal::PageIsNotADictionary) {
                    Err(e) => r is Err && r->Err_0@ == e,
                    Ok((before, d)) => r is Ok && r->Ok_0.1 == x && change_model(r->Ok_0.0)
                        == (Change {
                        num: x.num,
                        before,
                        after: ObjectModel::Dictionary(
                            crate::copying::standing(d, page@, node, page@.resources),
                        ),
                    }),
                },
            },
    {
        let x: ObjRef = match page.object_ref {
            Some(x) => x,
            None => {
                return refused(Refusal::PageHasNoReference);
            },
        };
        let before = match self.current(x.num) {
            Ok(o) => o,
            Err(e) => {
                return Err(EditError::Pdf(e));
            },
        };
        let mut dict = match before.as_dict() {
            Some(d) => d.clone(),
            None => {
                return refused(Refusal::PageIsNotADictionary);
            },
        };
        make_standing(&mut dict, page, node, page.resources.clone());
        Ok(((x.num, before, Object::Dictionary(dict)), x))
    }

    /// The change that gives the catalog another tree of pages.
    fn plan_catalog(&self, node: ObjRef) -> (r: Result<(u32, Object, Object), EditError>)
        ensures
            match catalog_change(self@, node) {
                Ok(c) => r is Ok && change_model(r->Ok_0) == c,
                Err(e) => r is Err && r->Err_0@ == e,
            },
    {
        let root: ObjRef = match self.document().trailer().get("Root") {
            Some(Object::Reference(r)) => *r,
            _ => {
                return refused(Refusal::RootIsNotAReference);
            },
        };
        let before = match self.current(root.num) {
            Ok(o) => o,
            Err(e) => {
                return Err(EditError::Pdf(e));
            },
        };
        let mut dict = match before.as_dict() {
            Some(d) => d.clone(),
            None => {
                return refused(Refusal::RootIsNotADictionary);
            },
        };
        dict.insert("Pages", Object::Reference(node));
        Ok((root.num, before, Object::Dictionary(dict)))
    }

    /// All pages below one node: the one that is there, or a new one.
    fn ensure_flat_page_tree(&self) -> (r: Result<FlatPlan, EditError>)
        requires
            self.wf(),
        ensures
            match planned(self@) {
                Ok(p) => r is Ok && r->Ok_0@ == p,
                Err(e) => r is Err && r->Err_0@ == e,
            },
    {
        match self.tree() {
            Some((node, order)) => {
                let plan = FlatPlan {
                    node,
                    order: clone_refs(order),
                    changes: Vec::new(),
                    fresh: Vec::new(),
                };
                proof {
                    assert(plan@.changes =~= seq![]);
                    assert(plan@.fresh =~= seq![]);
                }
                return Ok(plan);
            },
            None => {},
        }
        let pages = match self.document().pages() {
            Ok(p) => p,
            Err(e) => {
                return Err(EditError::Pdf(e));
            },
        };
        if self.next_number() == u32::MAX {
            return refused(Refusal::NumbersUsedUp);
        }
        let node = ObjRef::new(self.next_number(), 0);
        let ghost ps = page_models(pages@);
        let ghost goal = hung_from(self@, ps, 0, node, seq![], seq![]);
        let mut changes: Vec<(u32, Object, Object)> = Vec::new();
        let mut order: Vec<ObjRef> = Vec::new();
        proof {
            assert(change_models(changes@) =~= seq![]);
            assert(order@ =~= seq![]);
        }
        let mut i: usize = 0;
        while i < pages.len()
            invariant
                0 <= i <= pages@.len(),
                ps == page_models(pages@),
                self@.tree is None,
                crate::page::pages_in(self@.doc) == Ok::<
                    Seq<crate::page::PageModel>,
                    crate::error::ErrorModel,
                >(ps),
                self@.has_room(1),
                node == (ObjRef { num: self@.next as u32, gen: 0 }),
                goal == hung_from(self@, ps, 0, node, seq![], seq![]),
                goal == hung_from(self@, ps, i as nat, node, change_models(changes@), order@),
            decreases pages@.len() - i,
        {
            assert(ps[i as int] == pages@[i as int]@);
            match self.hang(&pages[i], node) {
                Ok((c, x)) => {
                    proof {
                        change_pushed(changes@, c);
                    }
                    changes.push(c);
                    order.push(x);
                },
                Err(e) => {
                    return Err(e);
                },
            }
            i += 1;
        }
        let last = match self.plan_catalog(node) {
            Ok(c) => c,
            Err(e) => {
                return Err(e);
            },
        };
        proof {
            change_pushed(changes@, last);
        }
        changes.push(last);
        let mut dict = Dictionary::new();
        dict.insert("Type", Object::Name("Pages".to_owned()));
        set_kids(&mut dict, &order);
        let mut fresh: Vec<Object> = Vec::new();
        fresh.push(Object::Dictionary(dict));
        let plan = FlatPlan { node, order, changes, fresh };
        assert(plan@.fresh =~= seq![pages_node(order@)]);
        Ok(plan)
    }

    /// The change that gives the pages another order.
    fn update_page_order(&self, plan: &FlatPlan, order: &Vec<ObjRef>) -> (r: Result<
        (u32, Object, Object),
        EditError,
    >)
        ensures
            match reordered(self@, plan@, order@) {
                Ok(c) => r is Ok && change_model(r->Ok_0) == c,
                Err(e) => r is Err && r->Err_0@ == e,
            },
    {
        let before = if plan.fresh.len() > 0 {
            assert(plan@.fresh[0] == plan.fresh@[0]@);
            plan.fresh[0].clone()
        } else {
            match self.current(plan.node.num) {
                Ok(o) => o,
                Err(e) => {
                    return Err(EditError::Pdf(e));
                },
            }
        };
        let mut dict = match before.as_dict() {
            Some(d) => d.clone(),
            None => {
                return refused(Refusal::PagesNodeIsNotADictionary);
            },
        };
        set_kids(&mut dict, order);
        Ok((plan.node.num, before, Object::Dictionary(dict)))
    }

    /// Adds new objects and gives the pages another order.
    fn rearrange(&mut self, plan: FlatPlan, news: Vec<Object>, order: Vec<ObjRef>) -> (r: Result<
        (),
        EditError,
    >)
        requires
            old(self).wf(),
            planned(old(self)@) == Ok::<Plan, EditFault>(plan@),
            old(self)@.has_room((plan@.fresh + models(news@)).len() as int),
        ensures
            final(self).wf(),
            match rearranged(old(self)@, plan@, models(news@), order@) {
                Ok(s) => r is Ok && final(self)@ == s,
                Err(e) => r is Err && r->Err_0@ == e && final(self)@ == old(self)@,
            },
    {
        let change = match self.update_page_order(&plan, &order) {
            Ok(c) => c,
            Err(e) => {
                return Err(e);
            },
        };
        let ghost start = self@;
        let ghost p = plan@;
        let ghost all = p.fresh + models(news@);
        let FlatPlan { node, order: old_order, changes, fresh } = plan;
        let mut changes = changes;
        let mut all_news = fresh;
        let mut news = news;
        let flattened: Option<ObjRef> = if all_news.len() > 0 {
            Some(node)
        } else {
            None
        };
        let ghost given = news@;
        all_news.append(&mut news);
        proof {
            assert(models(all_news@) =~= all);
            change_pushed(changes@, change);
            plan_numbers(start);
            all_new_wf(start, all, all.len());
            if p.fresh.len() == 0 {
                start.current_number(change.0);
            }
            let next = with_all_new(start, all, all.len());
            let cs = p.changes.push(change_model(change));
            assert forall|j: int| 0 <= j < cs.len() implies (#[trigger] cs[j]).num < next.next by {
                if j < p.changes.len() {
                    assert(cs[j] == p.changes[j]);
                }
            }
            arranged_wf(next, p, cs, order@);
        }
        changes.push(change);
        self.arrange(all_news, changes, flattened, node, order);
        Ok(())
    }

    /// How many pages there are now.
    pub fn page_count(&self) -> (r: Result<usize, EditError>)
        ensures
            match count_now(self@) {
                Ok(n) => r is Ok && r->Ok_0 == n,
                Err(e) => r is Err && r->Err_0@ == e,
            },
    {
        match self.tree() {
            Some((_, order)) => Ok(order.len()),
            None => match self.document().page_count() {
                Ok(n) => Ok(n),
                Err(e) => Err(EditError::Pdf(e)),
            },
        }
    }

    /// Puts in a page of the session's own making.
    fn add_page(&mut self, plan: FlatPlan, news: Vec<Object>, at: usize) -> (r: Result<(), EditError>)
        requires
            old(self).wf(),
            planned(old(self)@) == Ok::<Plan, EditFault>(plan@),
            0 < news@.len() <= 3,
        ensures
            final(self).wf(),
            match page_added(old(self)@, plan@, models(news@), at as int) {
                Ok(s) => r is Ok && final(self)@ == s,
                Err(e) => r is Err && r->Err_0@ == e && final(self)@ == old(self)@,
            },
    {
        proof {
            plan_numbers(self@);
        }
        let count: u32 = (plan.fresh.len() + news.len()) as u32;
        assert(count == (plan@.fresh + models(news@)).len());
        let next: u32 = self.next_number();
        if next > u32::MAX - count {
            return refused(Refusal::NumbersUsedUp);
        }
        let mut refs: Vec<ObjRef> = Vec::new();
        refs.push(ObjRef::new(next + (count - 1), 0));
        let mut order = clone_refs(&plan.order);
        insert_refs(&mut order, at, &refs);
        assert(refs@ =~= seq![
            ObjRef { num: (self@.next + plan@.fresh.len() + news@.len() - 1) as u32, gen: 0 },
        ]);
        self.rearrange(plan, news, order)
    }

    /// Puts an empty page in at an index, or behind all others.
    pub fn insert_blank_page(&mut self, at_index: usize, media_box: [Real; 4]) -> (r: Result<
        (),
        EditError,
    >)
        requires
            old(self).wf(),
        ensures
            final(self).wf(),
            match blank_inserted(
                old(self)@,
                at_index as int,
                four_numbers(media_box),
            ) {
                Ok(s) => r is Ok && final(self)@ == s,
                Err(e) => r is Err && r->Err_0@ == e && final(self)@ == old(self)@,
            },
    {
        proof {
            reveal(blank_inserted);
            reveal(four_numbers);
        }
        let plan = match self.ensure_flat_page_tree() {
            Ok(p) => p,
            Err(e) => {
                return Err(e);
            },
        };
        let ghost bounds = seq![media_box[0]@, media_box[1]@, media_box[2]@, media_box[3]@];
        let items = real_objects(&media_box);
        let next: u32 = self.next_number();
        let fresh: u32 = plan.fresh.len() as u32;
        proof {
            plan_numbers(self@);
        }
        if next > u32::MAX - (fresh + 2) {
            assert(!self@.has_room((plan@.fresh.len() + 2) as int));
            return refused(Refusal::NumbersUsedUp);
        }
        let mut news: Vec<Object> = Vec::new();
        let none: Vec<u8> = Vec::new();
        assert(none@ =~= seq![]);
        news.push(stream_object(Dictionary::new(), none));
        news.push(plain_page_object(plan.node, items, Dictionary::new(), next + fresh));
        proof {
            let given = seq![
                ObjectModel::Stream(no_names(), seq![]),
                plain_page(plan@.node, real_items(bounds), no_names(), self@.next + plan@.fresh.len()),
            ];
            assert(models(news@) =~= given);
        }
        self.add_page(plan, news, at_index)
    }

    /// Puts a page in that a JPEG image fills, one point for each pixel. The image is kept as it
    /// is.
    pub fn insert_image_page(&mut self, at_index: usize, jpeg_bytes: &[u8]) -> (r: Result<
        (),
        EditError,
    >)
        requires
            old(self).wf(),
        ensures
            final(self).wf(),
            match image_inserted(old(self)@, at_index as int, jpeg_bytes@) {
                Ok(s) => r is Ok && final(self)@ == s,
                Err(e) => r is Err && r->Err_0@ == e && final(self)@ == old(self)@,
            },
    {
        let size = match jpeg_dimensions(jpeg_bytes) {
            Ok(x) => x,
            Err(e) => {
                return Err(EditError::Pdf(e));
            },
        };
        let plan = match self.ensure_flat_page_tree() {
            Ok(p) => p,
            Err(e) => {
                return Err(e);
            },
        };
        let next: u32 = self.next_number();
        let fresh: u32 = plan.fresh.len() as u32;
        proof {
            plan_numbers(self@);
        }
        if next > u32::MAX - (fresh + 3) {
            assert(!self@.has_room((plan@.fresh.len() + 3) as int));
            return refused(Refusal::NumbersUsedUp);
        }
        let first: u32 = next + fresh;
        let mut items: Vec<Object> = Vec::new();
        items.push(Object::Integer(0));
        items.push(Object::Integer(0));
        items.push(Object::Integer(size.0 as i64));
        items.push(Object::Integer(size.1 as i64));
        assert(models(items@) =~= image_bounds(size));
        let mut news: Vec<Object> = Vec::new();
        news.push(jpeg_stream(size, jpeg_bytes));
        news.push(stream_object(Dictionary::new(), image_page_content(size)));
        news.push(plain_page_object(plan.node, items, image_resources_dict(first), first + 1));
        proof {
            let given = seq![
                jpeg_object(size, jpeg_bytes@),
                ObjectModel::Stream(no_names(), image_content(size)),
                plain_page(plan@.node, image_bounds(size), image_resources(first as int), first + 1),
            ];
            assert(models(news@) =~= given);
        }
        self.add_page(plan, news, at_index)
    }

    /// Takes a page out. The page itself stays, without a reference to it.
    pub fn delete_page(&mut self, index: usize) -> (r: Result<(), EditError>)
        requires
            old(self).wf(),
        ensures
            final(self).wf(),
            match page_deleted(old(self)@, index) {
                Ok(s) => r is Ok && final(self)@ == s,
                Err(e) => r is Err && r->Err_0@ == e && final(self)@ == old(self)@,
            },
    {
        let plan = match self.ensure_flat_page_tree() {
            Ok(p) => p,
            Err(e) => {
                return Err(e);
            },
        };
        let mut order = clone_refs(&plan.order);
        if index >= order.len() {
            return refused(Refusal::NoSuchPage { index, count: order.len() });
        }
        order.remove(index);
        let news: Vec<Object> = Vec::new();
        proof {
            plan_numbers(self@);
            assert(models(news@) =~= seq![]);
            assert((plan@.fresh + models(news@)).len() <= 1);
        }
        self.rearrange(plan, news, order)
    }

    /// Takes a page out and puts it in at another index.
    pub fn move_page(&mut self, from: usize, to: usize) -> (r: Result<(), EditError>)
        requires
            old(self).wf(),
        ensures
            final(self).wf(),
            match page_moved(old(self)@, from, to) {
                Ok(s) => r is Ok && final(self)@ == s,
                Err(e) => r is Err && r->Err_0@ == e && final(self)@ == old(self)@,
            },
    {
        let plan = match self.ensure_flat_page_tree() {
            Ok(p) => p,
            Err(e) => {
                return Err(e);
            },
        };
        let mut order = clone_refs(&plan.order);
        if from >= order.len() {
            return refused(Refusal::NoSuchPage { index: from, count: order.len() });
        }
        if to >= order.len() {
            return refused(Refusal::NoSuchPage { index: to, count: order.len() });
        }
        let page: ObjRef = order.remove(from);
        order.insert(to, page);
        let news: Vec<Object> = Vec::new();
        proof {
            plan_numbers(self@);
            assert(models(news@) =~= seq![]);
            assert((plan@.fresh + models(news@)).len() <= 1);
        }
        self.rearrange(plan, news, order)
    }

    /// Turns a page by some degrees; the angle is held from 0 to 359.
    pub fn rotate_page(&mut self, index: usize, delta: i32) -> (r: Result<(), EditError>)
        requires
            old(self).wf(),
        ensures
            final(self).wf(),
            match page_rotated(old(self)@, index, delta) {
                Ok(s) => r is Ok && final(self)@ == s,
                Err(e) => r is Err && r->Err_0@ == e && final(self)@ == old(self)@,
            },
    {
        let plan = match self.ensure_flat_page_tree() {
            Ok(p) => p,
            Err(e) => {
                return Err(e);
            },
        };
        if index >= plan.order.len() {
            return refused(Refusal::NoSuchPage { index, count: plan.order.len() });
        }
        let num: u32 = plan.order[index].num;
        let ghost start = self@;
        let ghost p = plan@;
        let FlatPlan { node, order, changes, fresh } = plan;
        let mut changes = changes;
        let ghost cs = change_models(changes@);
        let mut at: usize = changes.len();
        while at > 0 && changes[at - 1].0 != num
            invariant
                0 <= at <= changes@.len(),
                cs == change_models(changes@),
                last_change(cs, num, cs.len()) == last_change(cs, num, at as nat),
            decreases at,
        {
            assert(cs[at - 1].num == changes@[at - 1].0);
            at -= 1;
        }
        if at > 0 {
            assert(cs[at - 1] == change_model(changes@[at - 1]));
            let after = match changes[at - 1].2.as_dict() {
                Some(d) => turn(d, delta),
                None => {
                    return refused(Refusal::PageIsNotADictionary);
                },
            };
            let before = changes[at - 1].1.clone();
            changes.set(at - 1, (num, before, after));
            proof {
                let d = cs[at - 1].after.dict()->0;
                assert(change_models(changes@) =~= cs.update(
                    at - 1,
                    Change { after: turned(d, delta), ..cs[at - 1] },
                ));
            }
        } else {
            let before = match self.current(num) {
                Ok(o) => o,
                Err(e) => {
                    return Err(EditError::Pdf(e));
                },
            };
            let after = match before.as_dict() {
                Some(d) => turn(d, delta),
                None => {
                    return refused(Refusal::PageIsNotADictionary);
                },
            };
            proof {
                start.current_number(num);
                change_pushed(changes@, (num, before, after));
            }
            changes.push((num, before, after));
        }
        let flattened: Option<ObjRef> = if fresh.len() > 0 {
            Some(node)
        } else {
            None
        };
        proof {
            let now = change_models(changes@);
            assert(turn_changes(start, p, num, delta) == Ok::<Seq<Change>, EditFault>(now));
            plan_numbers(start);
            all_new_wf(start, p.fresh, p.fresh.len());
            let next = with_all_new(start, p.fresh, p.fresh.len());
            assert forall|j: int| 0 <= j < now.len() implies (#[trigger] now[j]).num < next.next by {
                if j < cs.len() {
                    assert(now[j].num == cs[j].num);
                }
            }
            arranged_wf(next, p, now, order@);
        }
        self.arrange(fresh, changes, flattened, node, order);
        Ok(())
    }

    /// Puts in copies of pages of another document, with all that they refer to.
    pub fn insert_pages_from(
        &mut self,
        source: &Document,
        source_indices: &[usize],
        at_index: usize,
    ) -> (r: Result<(), EditError>)
        requires
            old(self).wf(),
        ensures
            final(self).wf(),
            match pages_inserted(old(self)@, source@, source_indices@, at_index as int) {
                Ok(s) => r is Ok && final(self)@ == s,
                Err(e) => r is Err && r->Err_0@ == e && final(self)@ == old(self)@,
            },
    {
        let plan = match self.ensure_flat_page_tree() {
            Ok(p) => p,
            Err(e) => {
                return Err(e);
            },
        };
        let ghost start = self@;
        let ghost p = plan@;
        proof {
            plan_numbers(start);
        }
        let next: u32 = self.next_number() + plan.fresh.len() as u32;
        let mut copier = Copier::new(next);
        let refs = match copier.copy_pages(source, source_indices, plan.node) {
            Ok(x) => x,
            Err(e) => {
                return Err(e);
            },
        };
        let ghost c = copier@;
        proof {
            page_copies_wf(source@, source_indices@, plan.node, next as int);
        }
        let mut order = clone_refs(&plan.order);
        insert_refs(&mut order, at_index, &refs);
        let change = match self.update_page_order(&plan, &order) {
            Ok(x) => x,
            Err(e) => {
                return Err(e);
            },
        };
        let FlatPlan { node, order: old_order, changes, fresh } = plan;
        let mut changes = changes;
        let flattened: Option<ObjRef> = if fresh.len() > 0 {
            Some(node)
        } else {
            None
        };
        proof {
            change_pushed(changes@, change);
            all_new_wf(start, p.fresh, p.fresh.len());
            if p.fresh.len() == 0 {
                start.current_number(change.0);
            }
            let base = with_all_new(start, p.fresh, p.fresh.len());
            copies_wf(base, c);
            let now = with_copies(base, c);
            let cs = p.changes.push(change_model(change));
            assert forall|j: int| 0 <= j < cs.len() implies (#[trigger] cs[j]).num < now.next by {
                if j < p.changes.len() {
                    assert(cs[j] == p.changes[j]);
                }
            }
            arranged_wf(now, p, cs, order@);
        }
        changes.push(change);
        let (made, last) = copier.into_parts();
        self.add_all_new(fresh);
        self.take_copies(&made, last);
        let none: Vec<Object> = Vec::new();
        assert(with_all_new(self@, models(none@), 0) == self@);
        self.arrange(none, changes, flattened, node, order);
        Ok(())
    }

    /// Puts copies of all pages of another document behind those of this one.
    pub fn merge_document(&mut self, source: &Document) -> (r: Result<(), EditError>)
        requires
            old(self).wf(),
        ensures
            final(self).wf(),
            match merged(old(self)@, source@) {
                Ok(s) => r is Ok && final(self)@ == s,
                Err(e) => r is Err && r->Err_0@ == e && final(self)@ == old(self)@,
            },
    {
        let count: usize = match source.page_count() {
            Ok(n) => n,
            Err(e) => {
                return Err(EditError::Pdf(e));
            },
        };
        let at: usize = match self.page_count() {
            Ok(n) => n,
            Err(e) => {
                return Err(e);
            },
        };
        let indices = indices_below(count);
        self.insert_pages_from(source, indices.as_slice(), at)
    }
}

/// The indices below `n`.
pub(crate) fn indices_below(n: usize) -> (r: Vec<usize>)
    ensures
        r@ == all_indices(n as nat),
{
    let mut r: Vec<usize> = Vec::new();
    let mut i: usize = 0;
    while i < n
        invariant
            0 <= i <= n,
            r@ == all_indices(i as nat),
        decreases n - i,
    {
        r.push(i);
        assert(r@ =~= all_indices((i + 1) as nat));
        i += 1;
    }
    r
}

proof fn copies_wf(s: SessionModel, c: CopyModel)
    requires
        s.wf(),
        crate::copying::copy_wf(c),
        c.next >= s.next,
    ensures
        with_copies(s, c).wf(),
{
    let t = with_copies(s, c);
    assert forall|n: u32| #[trigger] t.pending.contains_key(n) implies n < t.next by {
        if !c.made.contains_key(n) {
            assert(s.pending.contains_key(n));
        }
    }
    assert forall|i: int| 0 <= i < t.undo.len() implies t.holds(#[trigger] t.undo[i]) by {
        assert(s.holds(s.undo[i]));
    }
    assert forall|i: int| 0 <= i < t.redo.len() implies t.holds(#[trigger] t.redo[i]) by {
        assert(s.holds(s.redo[i]));
    }
}

} // verus!
