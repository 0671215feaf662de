//! What copied pages refer to: a copy holds nothing that the pages do not lead to.
use vstd::prelude::*;
use crate::copying::{copied, copied_dict, copied_dict_grows, copied_dict_renews, copied_entries, copied_grows, copied_items, copied_renews, copy_wf, faithful_at, given, map_grows, mapping_shrinks, mappings_shrink, own_entries, page_copied, page_copied_grows, page_copies, pages_copied, renews_on, renumbered_dict, reserved, reserved_is, standing, unmapped, within, CopyModel};
use crate::document::DocModel;
use crate::edit_model::{reference_items, EditFault};
use crate::page::{pages_in, PageModel};
use crate::object::{lists_keys, sorted_keys, DictModel, ObjRef, ObjectModel};

verus! {

/// A reference to the object `n` stands somewhere in `o`.
pub open spec fn mentions(o: ObjectModel, n: u32) -> bool
    decreases o,
{
    match o {
        ObjectModel::Reference(r) => r.num == n,
        ObjectModel::Array(items) => exists|i: int|
            0 <= i < items.len() && mentions(#[trigger] items[i], n),
        ObjectModel::Dictionary(d) => d.dom().finite() && exists|k: Seq<char>|
            #[trigger] d.contains_key(k) && mentions(d[k], n),
        ObjectModel::Stream(d, _) => d.dom().finite() && exists|k: Seq<char>|
            #[trigger] d.contains_key(k) && mentions(d[k], n),
        _ => false,
    }
}

proof fn item_mentions(items: Seq<ObjectModel>, i: int, n: u32)
    requires
        0 <= i < items.len(),
        mentions(items[i], n),
    ensures
        mentions(ObjectModel::Array(items), n),
{
    let whole = ObjectModel::Array(items);
    assert(whole->Array_0[i] == items[i]);
    reveal_with_fuel(mentions, 2);
}

proof fn entry_mentions(d: DictModel, k: Seq<char>, n: u32)
    requires
        d.dom().finite(),
        d.contains_key(k),
        mentions(d[k], n),
    ensures
        mentions(ObjectModel::Dictionary(d), n),
{
    let whole = ObjectModel::Dictionary(d);
    assert(whole->Dictionary_0 == d);
    reveal_with_fuel(mentions, 2);
    assert(whole->Dictionary_0.contains_key(k));
}

proof fn stream_mentions(d: DictModel, raw: Seq<u8>, n: u32)
    requires
        mentions(ObjectModel::Dictionary(d), n),
    ensures
        mentions(ObjectModel::Stream(d, raw), n),
{
    let whole = ObjectModel::Stream(d, raw);
    assert(whole->Stream_0 == d);
    let k = choose|k: Seq<char>| #[trigger] d.contains_key(k) && mentions(d[k], n);
    reveal_with_fuel(mentions, 2);
    assert(d.contains_key(k) && mentions(d[k], n));
    assert(whole->Stream_0.contains_key(k));
}

/// A chain of references from `o` to the object `n`, through objects with numbers from `floor`
/// on.
pub open spec fn chain(
    made: Map<u32, ObjectModel>,
    floor: int,
    o: ObjectModel,
    n: u32,
    path: Seq<u32>,
) -> bool {
    &&& path.len() > 0
    &&& path.last() == n
    &&& mentions(o, path[0])
    &&& forall|i: int| 0 <= i < path.len() ==> #[trigger] path[i] >= floor
    &&& forall|i: int|
        0 <= i < path.len() - 1 ==> made.contains_key(#[trigger] path[i]) && mentions(
            made[path[i]],
            path[i + 1],
        )
}

/// References lead from `o` to the object `n`.
pub open spec fn reaches(made: Map<u32, ObjectModel>, floor: int, o: ObjectModel, n: u32) -> bool {
    exists|path: Seq<u32>| chain(made, floor, o, n, path)
}

/// Objects that stay where they are lead to what they led to.
pub proof fn reaches_on(
    a: Map<u32, ObjectModel>,
    b: Map<u32, ObjectModel>,
    floor: int,
    o: ObjectModel,
    p: ObjectModel,
    n: u32,
)
    requires
        reaches(a, floor, o, n),
        forall|k: u32|
            k >= floor && #[trigger] a.contains_key(k) ==> b.contains_key(k) && b[k] == a[k],
        forall|k: u32| #[trigger] mentions(o, k) ==> mentions(p, k),
    ensures
        reaches(b, floor, p, n),
{
    let path = choose|path: Seq<u32>| chain(a, floor, o, n, path);
    assert forall|i: int| 0 <= i < path.len() - 1 implies b.contains_key(#[trigger] path[i])
        && mentions(b[path[i]], path[i + 1]) by {
        assert(a.contains_key(path[i]));
    }
    assert(chain(b, floor, p, n, path));
}

/// Every number that `b` has and `a` has not is reached from `o`.
pub open spec fn leads(a: CopyModel, b: CopyModel, floor: int, o: ObjectModel) -> bool {
    forall|k: u32|
        #[trigger] b.map.contains_key(k) && !a.map.contains_key(k) ==> reaches(
            b.made,
            floor,
            o,
            b.map[k],
        )
}

/// What was made is not changed.
pub open spec fn keeps(a: CopyModel, b: CopyModel) -> bool {
    forall|n: u32| #[trigger] a.made.contains_key(n) ==> b.made.contains_key(n) && b.made[n] == a.made[n]
}

proof fn leads_on(a: CopyModel, b: CopyModel, c: CopyModel, floor: int, o: ObjectModel, x: ObjectModel, p: ObjectModel)
    requires
        leads(a, b, floor, o),
        leads(b, c, floor, x),
        map_grows(b, c),
        keeps(b, c),
        forall|k: u32| #[trigger] mentions(o, k) ==> mentions(p, k),
        forall|k: u32| #[trigger] mentions(x, k) ==> mentions(p, k),
    ensures
        leads(a, c, floor, p),
{
    assert forall|k: u32| #[trigger] c.map.contains_key(k) && !a.map.contains_key(k) implies reaches(
        c.made,
        floor,
        p,
        c.map[k],
    ) by {
        if b.map.contains_key(k) {
            reaches_on(b.made, c.made, floor, o, p, b.map[k]);
        } else {
            reaches_on(c.made, c.made, floor, x, p, c.map[k]);
        }
    }
}

/// A copy leads to every object that was made for it.
pub proof fn copied_leads(doc: DocModel, o: ObjectModel, c: CopyModel, floor: int)
    requires
        copy_wf(c),
        floor <= c.next,
        copied(doc, o, c) is Ok,
    ensures
        leads(c, copied(doc, o, c)->Ok_0.1, floor, copied(doc, o, c)->Ok_0.0),
    decreases unmapped(c.map), o, 0nat,
{
    let end = copied(doc, o, c)->Ok_0.1;
    match o {
        ObjectModel::Reference(r) => {
            if !c.map.contains_key(r.num) {
                let num = c.next as u32;
                let c1 = CopyModel { made: c.made, next: c.next + 1, map: c.map.insert(r.num, num) };
                mapping_shrinks(c.map, r.num, num);
                let src = doc.resolved(r)->Ok_0;
                let c2 = copied(doc, src, c1)->Ok_0.1;
                let x = copied(doc, src, c1)->Ok_0.0;
                assert(end == (CopyModel { made: c2.made.insert(num, x), next: c2.next, map: c2.map }));
                assert(copy_wf(c1));
                copied_leads(doc, src, c1, floor);
                copied_renews(doc, src, c1, c2.map);
                assert(!c2.made.contains_key(num)) by {
                    assert(!c1.made.contains_key(num));
                }
                let whole = copied(doc, o, c)->Ok_0.0;
                assert(mentions(whole, num));
                assert forall|k: u32| #[trigger] end.map.contains_key(k) && !c.map.contains_key(k) implies reaches(
                    end.made,
                    floor,
                    whole,
                    end.map[k],
                ) by {
                    if k == r.num {
                        assert(c1.map.contains_key(k));
                        assert(chain(end.made, floor, whole, num, seq![num]));
                    } else {
                        assert(!c1.map.contains_key(k));
                        let n = c2.map[k];
                        reaches_on(c2.made, end.made, floor, x, x, n);
                        let path = choose|path: Seq<u32>| chain(end.made, floor, x, n, path);
                        let longer = seq![num] + path;
                        assert forall|i: int| 0 <= i < longer.len() - 1 implies end.made.contains_key(
                            #[trigger] longer[i],
                        ) && mentions(end.made[longer[i]], longer[i + 1]) by {
                            if i > 0 {
                                assert(longer[i] == path[i - 1]);
                                assert(longer[i + 1] == path[i]);
                            }
                        }
                        assert forall|i: int| 0 <= i < longer.len() implies #[trigger] longer[i] >= floor by {
                            if i > 0 {
                                assert(longer[i] == path[i - 1]);
                            }
                        }
                        assert(longer.last() == path.last());
                        assert(chain(end.made, floor, whole, n, longer));
                    }
                }
            }
        },
        ObjectModel::Array(items) => {
            copied_items_leads(doc, items, 0, seq![], c, floor);
        },
        ObjectModel::Dictionary(d) => {
            copied_dict_leads(doc, d, c, floor);
        },
        ObjectModel::Stream(d, raw) => {
            copied_dict_leads(doc, d, c, floor);
            let x = copied_dict(doc, d, c)->Ok_0.0;
            assert forall|k: u32| #[trigger] end.map.contains_key(k) && !c.map.contains_key(k) implies reaches(
                end.made,
                floor,
                ObjectModel::Stream(x, raw),
                end.map[k],
            ) by {
                assert forall|j: u32| #[trigger] mentions(ObjectModel::Dictionary(x), j) implies mentions(
                    ObjectModel::Stream(x, raw),
                    j,
                ) by {
                    stream_mentions(x, raw, j);
                }
                reaches_on(
                    end.made,
                    end.made,
                    floor,
                    ObjectModel::Dictionary(x),
                    ObjectModel::Stream(x, raw),
                    end.map[k],
                );
            }
        },
        _ => {},
    }
}

proof fn copied_items_leads(
    doc: DocModel,
    items: Seq<ObjectModel>,
    i: nat,
    acc: Seq<ObjectModel>,
    c: CopyModel,
    floor: int,
)
    requires
        copy_wf(c),
        floor <= c.next,
        copied_items(doc, items, i, acc, c) is Ok,
    ensures
        leads(
            c,
            copied_items(doc, items, i, acc, c)->Ok_0.1,
            floor,
            ObjectModel::Array(copied_items(doc, items, i, acc, c)->Ok_0.0),
        ),
        map_grows(c, copied_items(doc, items, i, acc, c)->Ok_0.1),
        keeps(c, copied_items(doc, items, i, acc, c)->Ok_0.1),
        acc.len() <= copied_items(doc, items, i, acc, c)->Ok_0.0.len(),
        forall|j: int|
            0 <= j < acc.len() ==> #[trigger] copied_items(doc, items, i, acc, c)->Ok_0.0[j] == acc[j],
    decreases unmapped(c.map), items, items.len() - i,
{
    if i < items.len() {
        let (x, c1) = copied(doc, items[i as int], c)->Ok_0;
        copied_grows(doc, items[i as int], c);
        mappings_shrink(c.map, c1.map);
        copied_renews(doc, items[i as int], c, c1.map);
        copied_leads(doc, items[i as int], c, floor);
        copied_items_leads(doc, items, i + 1, acc.push(x), c1, floor);
        let (list, c2) = copied_items(doc, items, i + 1, acc.push(x), c1)->Ok_0;
        let whole = ObjectModel::Array(list);
        assert(list[acc.len() as int] == acc.push(x)[acc.len() as int]);
        assert forall|k: u32| #[trigger] mentions(x, k) implies mentions(whole, k) by {
            let at = acc.len() as int;
            item_mentions(list, at, k);
        }
        leads_on(c, c1, c2, floor, x, whole, whole);
        assert forall|j: int| 0 <= j < acc.len() implies #[trigger] list[j] == acc[j] by {
            assert(list[j] == acc.push(x)[j]);
        }
        assert forall|k: u32| #[trigger] c.map.contains_key(k) implies c2.map.contains_key(k) && c2.map[k]
            == c.map[k] by {
            assert(c1.map.contains_key(k));
        }
        assert forall|n: u32| #[trigger] c.made.contains_key(n) implies c2.made.contains_key(n) && c2.made[n]
            == c.made[n] by {
            assert(c1.made.contains_key(n));
        }
    }
}

/// A copied dictionary leads to every object that was made for it.
pub proof fn copied_dict_leads(doc: DocModel, d: DictModel, c: CopyModel, floor: int)
    requires
        copy_wf(c),
        floor <= c.next,
        copied_dict(doc, d, c) is Ok,
    ensures
        leads(
            c,
            copied_dict(doc, d, c)->Ok_0.1,
            floor,
            ObjectModel::Dictionary(copied_dict(doc, d, c)->Ok_0.0),
        ),
    decreases unmapped(c.map), d, sorted_keys(d).len() + 1,
{
    let keys = sorted_keys(d);
    assert(copied_dict(doc, d, c) == copied_entries(doc, d, keys, 0, Map::empty(), c));
    if d.dom().finite() {
        crate::roundtrip::finite_is_listed(d);
        copied_entries_leads(doc, d, keys, 0, Map::empty(), c, floor);
    }
}

proof fn copied_entries_leads(
    doc: DocModel,
    d: DictModel,
    keys: Seq<Seq<char>>,
    i: nat,
    acc: DictModel,
    c: CopyModel,
    floor: int,
)
    requires
        copy_wf(c),
        floor <= c.next,
        d.dom().finite(),
        acc.dom().finite(),
        lists_keys(d, keys),
        i <= keys.len(),
        forall|k: Seq<char>|
            #[trigger] acc.contains_key(k) ==> exists|j: int| 0 <= j < i && #[trigger] keys[j] == k,
        copied_entries(doc, d, keys, i, acc, c) is Ok,
    ensures
        leads(
            c,
            copied_entries(doc, d, keys, i, acc, c)->Ok_0.1,
            floor,
            ObjectModel::Dictionary(copied_entries(doc, d, keys, i, acc, c)->Ok_0.0),
        ),
        map_grows(c, copied_entries(doc, d, keys, i, acc, c)->Ok_0.1),
        keeps(c, copied_entries(doc, d, keys, i, acc, c)->Ok_0.1),
        copied_entries(doc, d, keys, i, acc, c)->Ok_0.0.dom().finite(),
        forall|k: Seq<char>|
            #[trigger] acc.contains_key(k) ==> copied_entries(doc, d, keys, i, acc, c)->Ok_0.0.contains_key(k)
                && copied_entries(doc, d, keys, i, acc, c)->Ok_0.0[k] == acc[k],
    decreases unmapped(c.map), d, keys.len() - i,
{
    if i < keys.len() {
        let k0 = keys[i as int];
        assert(keys.contains(k0));
        assert(d.contains_key(k0));
        let (x, c1) = copied(doc, d[k0], c)->Ok_0;
        let acc1 = acc.insert(k0, x);
        copied_grows(doc, d[k0], c);
        mappings_shrink(c.map, c1.map);
        copied_renews(doc, d[k0], c, c1.map);
        copied_leads(doc, d[k0], c, floor);
        assert forall|k: Seq<char>|
            #[trigger] acc1.contains_key(k) implies exists|j: int| 0 <= j < i + 1 && #[trigger] keys[j] == k by {
            if k == k0 {
                assert(keys[i as int] == k);
            } else {
                assert(acc.contains_key(k));
                let j = choose|j: int| 0 <= j < i && #[trigger] keys[j] == k;
                assert(keys[j] == k);
            }
        }
        assert(!acc.contains_key(k0)) by {
            if acc.contains_key(k0) {
                let j = choose|j: int| 0 <= j < i && #[trigger] keys[j] == k0;
                crate::text::name_lt_irreflexive(k0);
            }
        }
        copied_entries_leads(doc, d, keys, i + 1, acc1, c1, floor);
        let (list, c2) = copied_entries(doc, d, keys, i + 1, acc1, c1)->Ok_0;
        let whole = ObjectModel::Dictionary(list);
        assert(acc1.contains_key(k0));
        assert(list[k0] == x);
        assert forall|k: u32| #[trigger] mentions(x, k) implies mentions(whole, k) by {
            entry_mentions(list, k0, k);
        }
        leads_on(c, c1, c2, floor, x, whole, whole);
        assert forall|k: Seq<char>| #[trigger] acc.contains_key(k) implies list.contains_key(k) && list[k]
            == acc[k] by {
            assert(acc1.contains_key(k));
        }
        assert forall|k: u32| #[trigger] c.map.contains_key(k) implies c2.map.contains_key(k) && c2.map[k]
            == c.map[k] by {
            assert(c1.map.contains_key(k));
        }
        assert forall|n: u32| #[trigger] c.made.contains_key(n) implies c2.made.contains_key(n) && c2.made[n]
            == c.made[n] by {
            assert(c1.made.contains_key(n));
        }
    }
}

/// The number of a page in the source.
pub open spec fn page_num(pages: Seq<PageModel>, indices: Seq<usize>, j: int) -> u32 {
    (pages[indices[j] as int].object_ref->0).num
}

/// The entries of a page of the source.
pub open spec fn page_entries(doc: DocModel, page: PageModel) -> DictModel {
    doc.resolved(page.object_ref->0)->Ok_0.dict()->0
}

/// What a page becomes: its own entries and its resources with their references as `map` has
/// them, below `node`.
pub open spec fn page_image(doc: DocModel, page: PageModel, node: ObjRef, map: Map<u32, u32>) -> ObjectModel {
    ObjectModel::Dictionary(
        standing(
            renumbered_dict(own_entries(page_entries(doc, page)), map),
            page,
            node,
            renumbered_dict(page.resources, map),
        ),
    )
}

/// No page behind the `j`-th and before the `i`-th has its number.
pub open spec fn last_of(pages: Seq<PageModel>, indices: Seq<usize>, j: int, i: int) -> bool {
    forall|l: int| j < l < i ==> #[trigger] page_num(pages, indices, l) != page_num(pages, indices, j)
}

/// The parts of a page that lead to other objects.
spec fn page_parts(doc: DocModel, page: PageModel, map: Map<u32, u32>) -> ObjectModel {
    ObjectModel::Array(
        seq![
            ObjectModel::Dictionary(renumbered_dict(own_entries(page_entries(doc, page)), map)),
            ObjectModel::Dictionary(renumbered_dict(page.resources, map)),
        ],
    )
}

spec fn reached_by(
    doc: DocModel,
    pages: Seq<PageModel>,
    indices: Seq<usize>,
    floor: int,
    map: Map<u32, u32>,
    made: Map<u32, ObjectModel>,
    j: int,
    n: u32,
) -> bool {
    reaches(made, floor, page_parts(doc, pages[indices[j] as int], map), n)
}

/// What holds when the first `i` pages are copied, `taken` being the numbers of the pages and
/// `map` all numbers at the end.
spec fn pages_done(
    doc: DocModel,
    pages: Seq<PageModel>,
    indices: Seq<usize>,
    i: int,
    node: ObjRef,
    taken: CopyModel,
    map: Map<u32, u32>,
    c: CopyModel,
) -> bool {
    &&& copy_wf(c)
    &&& taken.next <= c.next
    &&& map_grows(taken, c)
    &&& forall|k: u32|
        #[trigger] c.map.contains_key(k) && !taken.map.contains_key(k) ==> c.map[k] >= taken.next
            && faithful_at(doc, c, k, map)
    &&& forall|n: u32| #[trigger] c.made.contains_key(n) ==> given(c.map, n)
    &&& forall|j: int|
        0 <= j < i && #[trigger] last_of(pages, indices, j, i) ==> {
            let n = taken.map[page_num(pages, indices, j)];
            c.made.contains_key(n) && c.made[n] == page_image(doc, pages[indices[j] as int], node, map)
        }
    &&& forall|k: u32|
        #[trigger] c.map.contains_key(k) && !taken.map.contains_key(k) ==> exists|j: int|
            0 <= j < i && #[trigger] reached_by(doc, pages, indices, taken.next, map, c.made, j, c.map[k])
}

spec fn has_numbers(pages: Seq<PageModel>, indices: Seq<usize>, taken: CopyModel) -> bool {
    &&& copy_wf(taken)
    &&& forall|j: int|
        0 <= j < indices.len() ==> {
            &&& (#[trigger] indices[j]) < pages.len()
            &&& pages[indices[j] as int].object_ref is Some
            &&& taken.map.contains_key(page_num(pages, indices, j))
        }
}

proof fn pages_copied_grows(
    doc: DocModel,
    pages: Seq<PageModel>,
    indices: Seq<usize>,
    i: nat,
    node: ObjRef,
    c: CopyModel,
)
    ensures
        pages_copied(doc, pages, indices, i, node, c) is Ok ==> map_grows(
            c,
            pages_copied(doc, pages, indices, i, node, c)->Ok_0,
        ),
    decreases indices.len() - i,
{
    if i < indices.len() {
        let page = pages[indices[i as int] as int];
        page_copied_grows(doc, page, page.object_ref->0, node, c);
        if let Ok(c1) = page_copied(doc, page, page.object_ref->0, node, c) {
            pages_copied_grows(doc, pages, indices, i + 1, node, c1);
            if let Ok(c2) = pages_copied(doc, pages, indices, i + 1, node, c1) {
                assert forall|k: u32| #[trigger] c.map.contains_key(k) implies c2.map.contains_key(k)
                    && c2.map[k] == c.map[k] by {
                    assert(c1.map.contains_key(k));
                }
            }
        }
    }
}

proof fn within_of(a: CopyModel, b: CopyModel, m: Map<u32, u32>)
    requires
        map_grows(a, b),
        within(b.map, m),
    ensures
        within(a.map, m),
{
    assert forall|k: u32| #[trigger] a.map.contains_key(k) implies m.contains_key(k) && m[k] == a.map[k] by {
        assert(b.map.contains_key(k));
    }
}

proof fn page_step(
    doc: DocModel,
    pages: Seq<PageModel>,
    indices: Seq<usize>,
    i: int,
    node: ObjRef,
    taken: CopyModel,
    map: Map<u32, u32>,
    c: CopyModel,
    end: CopyModel,
)
    requires
        has_numbers(pages, indices, taken),
        0 <= i < indices.len(),
        pages_done(doc, pages, indices, i, node, taken, map, c),
        ({
            let page = pages[indices[i] as int];
            page_copied(doc, page, page.object_ref->0, node, c) == Ok::<CopyModel, EditFault>(end)
        }),
        within(end.map, map),
    ensures
        pages_done(doc, pages, indices, i + 1, node, taken, map, end),
{
    let page = pages[indices[i] as int];
    let r = page.object_ref->0;
    let own = own_entries(page_entries(doc, page));
    let (x, c1) = copied_dict(doc, own, c)->Ok_0;
    let (res, c2) = copied_dict(doc, page.resources, c1)->Ok_0;
    copied_dict_grows(doc, own, c);
    copied_dict_grows(doc, page.resources, c1);
    assert(end.map == c2.map);
    within_of(c1, c2, map);
    copied_dict_renews(doc, own, c, map);
    copied_dict_renews(doc, page.resources, c1, map);
    renews_on(doc, c, c1, c2, map);
    copied_dict_leads(doc, own, c, taken.next);
    copied_dict_leads(doc, page.resources, c1, taken.next);
    let parts = page_parts(doc, page, map);
    let list = parts->Array_0;
    assert forall|k: u32| #[trigger] mentions(ObjectModel::Dictionary(x), k) implies mentions(parts, k) by {
        item_mentions(list, 0, k);
    }
    assert forall|k: u32| #[trigger] mentions(ObjectModel::Dictionary(res), k) implies mentions(parts, k) by {
        item_mentions(list, 1, k);
    }
    leads_on(
        c,
        c1,
        c2,
        taken.next,
        ObjectModel::Dictionary(x),
        ObjectModel::Dictionary(res),
        parts,
    );
    let num = taken.map[r.num];
    assert(taken.map.contains_key(page_num(pages, indices, i)));
    assert(c.map[r.num] == num);
    assert(num < taken.next);
    assert(c2.map.contains_key(r.num) && c2.map[r.num] == num) by {
        assert(c.map.contains_key(r.num));
    }
    assert forall|k: u32|
        #[trigger] end.map.contains_key(k) && !taken.map.contains_key(k) implies end.map[k] >= taken.next
        && faithful_at(doc, end, k, map) by {
        if c.map.contains_key(k) {
            assert(faithful_at(doc, c, k, map));
            assert(c2.map[k] == c.map[k]);
            assert(c.made.contains_key(c.map[k]));
        } else {
            assert(faithful_at(doc, c2, k, map));
        }
    }
    assert forall|n: u32| #[trigger] end.made.contains_key(n) implies given(end.map, n) by {
        if n != num {
            assert(c2.made.contains_key(n));
            if c.made.contains_key(n) {
                let k = choose|k: u32| #[trigger] c.map.contains_key(k) && c.map[k] == n;
                assert(end.map.contains_key(k));
            }
        }
    }
    assert forall|j: int| 0 <= j < i + 1 && #[trigger] last_of(pages, indices, j, i + 1) implies ({
        let n = taken.map[page_num(pages, indices, j)];
        end.made.contains_key(n) && end.made[n] == page_image(doc, pages[indices[j] as int], node, map)
    }) by {
        if j < i {
            assert(page_num(pages, indices, i) != page_num(pages, indices, j));
            assert(last_of(pages, indices, j, i));
            let n = taken.map[page_num(pages, indices, j)];
            assert(indices[j] < pages.len());
            assert(taken.map.contains_key(page_num(pages, indices, j)));
            assert(n != num);
            assert(c.made.contains_key(n));
        }
    }
    assert forall|k: u32| #[trigger] end.map.contains_key(k) && !taken.map.contains_key(k) implies exists|
        j: int,
    |
        0 <= j < i + 1 && #[trigger] reached_by(
            doc,
            pages,
            indices,
            taken.next,
            map,
            end.made,
            j,
            end.map[k],
        ) by {
        if c.map.contains_key(k) {
            let j = choose|j: int|
                0 <= j < i && #[trigger] reached_by(
                    doc,
                    pages,
                    indices,
                    taken.next,
                    map,
                    c.made,
                    j,
                    c.map[k],
                );
            let p = page_parts(doc, pages[indices[j] as int], map);
            reaches_on(c.made, end.made, taken.next, p, p, c.map[k]);
            assert(reached_by(doc, pages, indices, taken.next, map, end.made, j, end.map[k]));
        } else {
            reaches_on(c2.made, end.made, taken.next, parts, parts, c2.map[k]);
            assert(reached_by(doc, pages, indices, taken.next, map, end.made, i, end.map[k]));
        }
    }
}

proof fn pages_copied_done(
    doc: DocModel,
    pages: Seq<PageModel>,
    indices: Seq<usize>,
    i: nat,
    node: ObjRef,
    taken: CopyModel,
    c: CopyModel,
    end: CopyModel,
)
    requires
        has_numbers(pages, indices, taken),
        i <= indices.len(),
        pages_done(doc, pages, indices, i as int, node, taken, end.map, c),
        pages_copied(doc, pages, indices, i, node, c) == Ok::<CopyModel, EditFault>(end),
    ensures
        pages_done(doc, pages, indices, indices.len() as int, node, taken, end.map, end),
    decreases indices.len() - i,
{
    if i < indices.len() {
        let page = pages[indices[i as int] as int];
        let c1 = page_copied(doc, page, page.object_ref->0, node, c)->Ok_0;
        pages_copied_grows(doc, pages, indices, i + 1, node, c1);
        page_step(doc, pages, indices, i as int, node, taken, end.map, c, c1);
        pages_copied_done(doc, pages, indices, i + 1, node, taken, c1, end);
    }
}

/// The numbers that a copy of pages starts with.
pub open spec fn numbers_taken(doc: DocModel, indices: Seq<usize>, next: int) -> CopyModel {
    reserved(
        pages_in(doc)->Ok_0,
        indices,
        0,
        CopyModel { made: Map::empty(), next, map: Map::empty() },
    )->Ok_0
}

proof fn page_copies_done(doc: DocModel, indices: Seq<usize>, node: ObjRef, next: int)
    requires
        0 <= next <= u32::MAX,
        page_copies(doc, indices, node, next) is Ok,
    ensures
        ({
            let c = page_copies(doc, indices, node, next)->Ok_0.1;
            let taken = numbers_taken(doc, indices, next);
            let pages = pages_in(doc)->Ok_0;
            &&& has_numbers(pages, indices, taken)
            &&& next <= taken.next
            &&& pages_done(doc, pages, indices, indices.len() as int, node, taken, c.map, c)
            &&& forall|k: u32|
                #[trigger] taken.map.contains_key(k) ==> taken.map[k] >= next && exists|j: int|
                    0 <= j < indices.len() && (pages[(#[trigger] indices[j]) as int].object_ref->0).num
                        == k
        }),
{
    let start = CopyModel { made: Map::<u32, ObjectModel>::empty(), next, map: Map::<u32, u32>::empty() };
    let pages = pages_in(doc)->Ok_0;
    let taken = numbers_taken(doc, indices, next);
    let c = page_copies(doc, indices, node, next)->Ok_0.1;
    reserved_is(pages, indices, 0, start);
    assert(copy_wf(taken));
    assert forall|j: int| 0 <= j < indices.len() implies {
        &&& (#[trigger] indices[j]) < pages.len()
        &&& pages[indices[j] as int].object_ref is Some
        &&& taken.map.contains_key(page_num(pages, indices, j))
    } by {}
    assert(pages_done(doc, pages, indices, 0, node, taken, c.map, taken));
    pages_copied_done(doc, pages, indices, 0, node, taken, taken, c);
}

/// Copies of pages take numbers from `next` on, each for one object.
pub proof fn page_copies_wf(doc: DocModel, indices: Seq<usize>, node: ObjRef, next: int)
    requires
        0 <= next <= u32::MAX,
        page_copies(doc, indices, node, next) is Ok,
    ensures
        copy_wf(page_copies(doc, indices, node, next)->Ok_0.1),
        page_copies(doc, indices, node, next)->Ok_0.1.next >= next,
        forall|n: u32|
            #[trigger] page_copies(doc, indices, node, next)->Ok_0.1.made.contains_key(n) ==> n >= next,
{
    page_copies_done(doc, indices, node, next);
    let c = page_copies(doc, indices, node, next)->Ok_0.1;
    let taken = numbers_taken(doc, indices, next);
    assert forall|n: u32| #[trigger] c.made.contains_key(n) implies n >= next by {
        let k = choose|k: u32| #[trigger] c.map.contains_key(k) && c.map[k] == n;
        if taken.map.contains_key(k) {
            assert(c.map[k] == taken.map[k]);
        }
    }
}

/// Each copied page is the page of the source: its own entries and all that it inherited, with
/// new references. Where one object is copied as two pages, the later stands.
pub proof fn copied_pages_are_pages(doc: DocModel, indices: Seq<usize>, node: ObjRef, next: int)
    requires
        0 <= next <= u32::MAX,
        page_copies(doc, indices, node, next) is Ok,
    ensures
        ({
            let (refs, c) = page_copies(doc, indices, node, next)->Ok_0;
            let pages = pages_in(doc)->Ok_0;
            &&& refs.len() == indices.len()
            &&& forall|j: int|
                0 <= j < indices.len() && last_of(pages, indices, j, indices.len() as int) ==> c.made.contains_key(
                    (#[trigger] refs[j]).num,
                ) && c.made[refs[j].num] == page_image(doc, pages[indices[j] as int], node, c.map)
        }),
{
    page_copies_done(doc, indices, node, next);
}

/// Every other object that was copied is the object of the source, with new references.
pub proof fn copied_objects_are_objects(doc: DocModel, indices: Seq<usize>, node: ObjRef, next: int)
    requires
        0 <= next <= u32::MAX,
        page_copies(doc, indices, node, next) is Ok,
    ensures
        ({
            let c = page_copies(doc, indices, node, next)->Ok_0.1;
            let pages = pages_in(doc)->Ok_0;
            forall|k: u32|
                #[trigger] c.map.contains_key(k) && (forall|j: int|
                    0 <= j < indices.len() ==> (pages[(#[trigger] indices[j]) as int].object_ref->0).num
                        != k) ==> faithful_at(doc, c, k, c.map)
        }),
{
    page_copies_done(doc, indices, node, next);
}

/// Pages with one number are one page.
pub open spec fn pages_agree(pages: Seq<PageModel>, indices: Seq<usize>) -> bool {
    forall|i: int, j: int|
        0 <= i < indices.len() && 0 <= j < indices.len() && #[trigger] page_num(pages, indices, i)
            == #[trigger] page_num(pages, indices, j) ==> pages[indices[i] as int].object_ref
            == pages[indices[j] as int].object_ref && pages[indices[i] as int].resources
            == pages[indices[j] as int].resources
}

proof fn last_exists(pages: Seq<PageModel>, indices: Seq<usize>, j: int) -> (l: int)
    requires
        0 <= j < indices.len(),
    ensures
        j <= l < indices.len(),
        page_num(pages, indices, l) == page_num(pages, indices, j),
        last_of(pages, indices, l, indices.len() as int),
    decreases indices.len() - j,
{
    if last_of(pages, indices, j, indices.len() as int) {
        j
    } else {
        let l = choose|l: int|
            j < l < indices.len() && #[trigger] page_num(pages, indices, l) == page_num(pages, indices, j);
        last_exists(pages, indices, l)
    }
}

proof fn parts_in_image(doc: DocModel, page: PageModel, node: ObjRef, map: Map<u32, u32>, n: u32)
    requires
        mentions(page_parts(doc, page, map), n),
        page_entries(doc, page).dom().finite(),
        page.resources.dom().finite(),
    ensures
        mentions(page_image(doc, page, node, map), n),
{
    reveal(standing);
    reveal(own_entries);
    let own = renumbered_dict(own_entries(page_entries(doc, page)), map);
    let res = renumbered_dict(page.resources, map);
    let list = page_parts(doc, page, map)->Array_0;
    let image = page_image(doc, page, node, map);
    let d = image->Dictionary_0;
    assert(own.dom().finite()) by {
        assert(own.dom() =~= own_entries(page_entries(doc, page)).dom());
    }
    reveal_with_fuel(mentions, 3);
    let i = choose|i: int| 0 <= i < list.len() && mentions(#[trigger] list[i], n);
    if i == 0 {
        let k = choose|k: Seq<char>| #[trigger] own.contains_key(k) && mentions(own[k], n);
        assert(own_entries(page_entries(doc, page)).contains_key(k));
        assert(d.contains_key(k) && d[k] == own[k]);
    } else {
        assert(list[i] == ObjectModel::Dictionary(res));
        assert(mentions(ObjectModel::Dictionary(res), n));
        assert(d.contains_key("Resources"@));
        assert(d["Resources"@] == ObjectModel::Dictionary(res));
    }
}

/// Everything that was copied is reached from the pages: a copy holds no object without use.
pub proof fn copies_are_reached(doc: DocModel, indices: Seq<usize>, node: ObjRef, next: int)
    requires
        0 <= next <= u32::MAX,
        page_copies(doc, indices, node, next) is Ok,
        pages_agree(pages_in(doc)->Ok_0, indices),
        forall|j: int|
            0 <= j < indices.len() ==> page_entries(
                doc,
                pages_in(doc)->Ok_0[#[trigger] indices[j] as int],
            ).dom().finite() && pages_in(doc)->Ok_0[indices[j] as int].resources.dom().finite(),
    ensures
        ({
            let (refs, c) = page_copies(doc, indices, node, next)->Ok_0;
            forall|n: u32|
                #[trigger] c.made.contains_key(n) ==> reaches(
                    c.made,
                    next,
                    ObjectModel::Array(reference_items(refs)),
                    n,
                )
        }),
{
    page_copies_done(doc, indices, node, next);
    let (refs, c) = page_copies(doc, indices, node, next)->Ok_0;
    let pages = pages_in(doc)->Ok_0;
    let taken = numbers_taken(doc, indices, next);
    let kids = ObjectModel::Array(reference_items(refs));
    assert forall|n: u32| #[trigger] c.made.contains_key(n) implies reaches(c.made, next, kids, n) by {
        let k = choose|k: u32| #[trigger] c.map.contains_key(k) && c.map[k] == n;
        if taken.map.contains_key(k) {
            assert(c.map[k] == taken.map[k]);
            let j = choose|j: int|
                0 <= j < indices.len() && (pages[(#[trigger] indices[j]) as int].object_ref->0).num == k;
            assert(refs[j].num == n);
            item_mentions(reference_items(refs), j, n);
            assert(chain(c.made, next, kids, n, seq![n]));
        } else {
            let j = choose|j: int|
                0 <= j < indices.len() && #[trigger] reached_by(
                    doc,
                    pages,
                    indices,
                    taken.next,
                    c.map,
                    c.made,
                    j,
                    c.map[k],
                );
            let l = last_exists(pages, indices, j);
            let page = pages[indices[l] as int];
            let first = taken.map[page_num(pages, indices, l)];
            assert(indices[l] < pages.len());
            assert(taken.map.contains_key(page_num(pages, indices, l)));
            assert(last_of(pages, indices, l, indices.len() as int));
            let image = page_image(doc, page, node, c.map);
            assert(c.made[first] == image);
            assert(pages[indices[j] as int].object_ref == page.object_ref);
            assert(page_parts(doc, pages[indices[j] as int], c.map) == page_parts(doc, page, c.map));
            let path = choose|path: Seq<u32>|
                chain(c.made, taken.next, page_parts(doc, page, c.map), n, path);
            parts_in_image(doc, page, node, c.map, path[0]);
            assert(refs[l].num == first);
            item_mentions(reference_items(refs), l, first);
            let longer = seq![first] + path;
            assert forall|i: int| 0 <= i < longer.len() - 1 implies c.made.contains_key(
                #[trigger] longer[i],
            ) && mentions(c.made[longer[i]], longer[i + 1]) by {
                if i > 0 {
                    assert(longer[i] == path[i - 1]);
                    assert(longer[i + 1] == path[i]);
                }
            }
            assert forall|i: int| 0 <= i < longer.len() implies #[trigger] longer[i] >= next by {
                if i > 0 {
                    assert(longer[i] == path[i - 1]);
                }
            }
            assert(longer.last() == path.last());
            assert(chain(c.made, next, kids, n, longer));
        }
    }
}

} // verus!
