//! Objects copied from one document to another, with all that they refer to.
use std::collections::BTreeMap;
use vstd::prelude::*;
use vstd::set_lib::{lemma_int_range, lemma_len_subset, set_int_range};
use crate::document::{DocModel, Document};
use crate::edit_model::{EditError, EditFault, Refusal};
use crate::object::{entry_keys, key_list_unique, lists_keys, models, sorted_keys, DictModel, Dictionary, ObjRef, Object, ObjectModel, Stream};
use crate::number::{real_of_int, Real};
use crate::page::{page_models, pages_in, Page, PageModel};
use crate::table::{empty_table, lookup, put};
use crate::text::same_text;

verus! {

/// The state of a copy: the objects made so far, the next number, and the new number of each
/// object of the source that was met.
pub ghost struct CopyModel {
    pub made: Map<u32, ObjectModel>,
    pub next: int,
    pub map: Map<u32, u32>,
}

/// The numbers of the source that have no new number yet.
pub open spec fn unmapped_set(m: Map<u32, u32>) -> Set<int> {
    set_int_range(0, 0x1_0000_0000).filter(|x: int| !m.contains_key(x as u32))
}

pub open spec fn unmapped(m: Map<u32, u32>) -> nat {
    unmapped_set(m).len()
}

proof fn unmapped_is_finite(m: Map<u32, u32>)
    ensures
        unmapped_set(m).finite(),
{
    lemma_int_range(0, 0x1_0000_0000);
    assert(unmapped_set(m).subset_of(set_int_range(0, 0x1_0000_0000)));
}

pub proof fn mapping_shrinks(m: Map<u32, u32>, n: u32, v: u32)
    requires
        !m.contains_key(n),
    ensures
        unmapped(m.insert(n, v)) < unmapped(m),
{
    unmapped_is_finite(m);
    let x = n as int;
    assert(unmapped_set(m).contains(x));
    assert(unmapped_set(m.insert(n, v)) =~= unmapped_set(m).remove(x)) by {
        assert forall|y: int|
            unmapped_set(m.insert(n, v)).contains(y) <==> unmapped_set(m).remove(x).contains(y) by {
            if 0 <= y < 0x1_0000_0000 && y != x {
                assert(y as u32 != n);
            }
        }
    }
}

pub proof fn mappings_shrink(m: Map<u32, u32>, n: Map<u32, u32>)
    requires
        forall|k: u32| #[trigger] m.contains_key(k) ==> n.contains_key(k),
    ensures
        unmapped(n) <= unmapped(m),
{
    unmapped_is_finite(m);
    assert(unmapped_set(n).subset_of(unmapped_set(m)));
    lemma_len_subset(unmapped_set(n), unmapped_set(m));
}

/// A copy and the state behind it, or why there is none.
pub type Copied = Result<(ObjectModel, CopyModel), EditFault>;

/// The copy of an object. What it refers to is copied once, under a new number that is taken
/// before the object is copied itself, so that references may lead in circles.
pub open spec fn copied(doc: DocModel, o: ObjectModel, c: CopyModel) -> Copied
    decreases unmapped(c.map), o, 0nat,
    via copied_shrinks
{
    match o {
        ObjectModel::Reference(r) => if c.map.contains_key(r.num) {
            Ok((ObjectModel::Reference(ObjRef { num: c.map[r.num], gen: 0 }), c))
        } else if c.next >= u32::MAX || c.next < 0 {
            Err(EditFault::Refused(Refusal::NumbersUsedUp))
        } else {
            let num = c.next as u32;
            let c1 = CopyModel { made: c.made, next: c.next + 1, map: c.map.insert(r.num, num) };
            match doc.resolved(r) {
                Err(e) => Err(EditFault::Pdf(e)),
                Ok(m) => match copied(doc, m, c1) {
                    Err(e) => Err(e),
                    Ok((x, c2)) => Ok(
                        (
                            ObjectModel::Reference(ObjRef { num, gen: 0 }),
                            CopyModel { made: c2.made.insert(num, x), next: c2.next, map: c2.map },
                        ),
                    ),
                },
            }
        },
        ObjectModel::Array(items) => match copied_items(doc, items, 0, seq![], c) {
            Err(e) => Err(e),
            Ok((list, c1)) => Ok((ObjectModel::Array(list), c1)),
        },
        ObjectModel::Dictionary(d) => match copied_dict(doc, d, c) {
            Err(e) => Err(e),
            Ok((x, c1)) => Ok((ObjectModel::Dictionary(x), c1)),
        },
        ObjectModel::Stream(d, raw) => match copied_dict(doc, d, c) {
            Err(e) => Err(e),
            Ok((x, c1)) => Ok((ObjectModel::Stream(x, raw), c1)),
        },
        _ => Ok((o, c)),
    }
}

#[via_fn]
proof fn copied_shrinks(doc: DocModel, o: ObjectModel, c: CopyModel) {
    if let ObjectModel::Reference(r) = o {
        if !c.map.contains_key(r.num) {
            mapping_shrinks(c.map, r.num, c.next as u32);
        }
    }
}

/// The copies of the items from the `i`-th on, behind those in `acc`.
pub open spec fn copied_items(
    doc: DocModel,
    items: Seq<ObjectModel>,
    i: nat,
    acc: Seq<ObjectModel>,
    c: CopyModel,
) -> Result<(Seq<ObjectModel>, CopyModel), EditFault>
    decreases unmapped(c.map), items, items.len() - i,
{
    if i >= items.len() {
        Ok((acc, c))
    } else {
        match copied(doc, items[i as int], c) {
            Err(e) => Err(e),
            Ok((x, c1)) => if unmapped(c1.map) <= unmapped(c.map) {
                copied_items(doc, items, i + 1, acc.push(x), c1)
            } else {
                Ok((acc, c1))
            },
        }
    }
}

/// The copy of a dictionary, its names taken in order.
pub open spec fn copied_dict(doc: DocModel, d: DictModel, c: CopyModel) -> Result<
    (DictModel, CopyModel),
    EditFault,
>
    decreases unmapped(c.map), d, sorted_keys(d).len() + 1,
{
    copied_entries(doc, d, sorted_keys(d), 0, Map::empty(), c)
}

/// The copies of the entries from the `i`-th name on, with those in `acc`.
pub open spec fn copied_entries(
    doc: DocModel,
    d: DictModel,
    keys: Seq<Seq<char>>,
    i: nat,
    acc: DictModel,
    c: CopyModel,
) -> Result<(DictModel, CopyModel), EditFault>
    decreases unmapped(c.map), d, keys.len() - i,
{
    if i >= keys.len() || !d.dom().finite() || !d.contains_key(keys[i as int]) {
        Ok((acc, c))
    } else {
        match copied(doc, d[keys[i as int]], c) {
            Err(e) => Err(e),
            Ok((x, c1)) => if unmapped(c1.map) <= unmapped(c.map) {
                copied_entries(doc, d, keys, i + 1, acc.insert(keys[i as int], x), c1)
            } else {
                Ok((acc, c1))
            },
        }
    }
}

/// New numbers stay once they are given.
pub open spec fn map_grows(a: CopyModel, b: CopyModel) -> bool {
    forall|k: u32|
        #[trigger] a.map.contains_key(k) ==> b.map.contains_key(k) && b.map[k] == a.map[k]
}

pub proof fn copied_grows(doc: DocModel, o: ObjectModel, c: CopyModel)
    ensures
        copied(doc, o, c) is Ok ==> map_grows(c, copied(doc, o, c)->Ok_0.1),
    decreases unmapped(c.map), o, 0nat,
{
    match o {
        ObjectModel::Reference(r) => {
            if !c.map.contains_key(r.num) && 0 <= c.next < u32::MAX {
                let num = c.next as u32;
                let c1 = CopyModel { made: c.made, next: c.next + 1, map: c.map.insert(r.num, num) };
                mapping_shrinks(c.map, r.num, num);
                if let Ok(m) = doc.resolved(r) {
                    copied_grows(doc, m, c1);
                    if let Ok((x, c2)) = copied(doc, m, c1) {
                        assert forall|k: u32| #[trigger] c.map.contains_key(k) implies c2.map.contains_key(k)
                            && c2.map[k] == c.map[k] by {
                            assert(c1.map.contains_key(k));
                        }
                    }
                }
            }
        },
        ObjectModel::Array(items) => {
            copied_items_grows(doc, items, 0, seq![], c);
        },
        ObjectModel::Dictionary(d) => {
            copied_entries_grows(doc, d, sorted_keys(d), 0, Map::empty(), c);
            assert(copied_dict(doc, d, c) == copied_entries(doc, d, sorted_keys(d), 0, Map::empty(), c));
        },
        ObjectModel::Stream(d, _) => {
            copied_entries_grows(doc, d, sorted_keys(d), 0, Map::empty(), c);
            assert(copied_dict(doc, d, c) == copied_entries(doc, d, sorted_keys(d), 0, Map::empty(), c));
        },
        _ => {},
    }
}

proof fn copied_items_grows(
    doc: DocModel,
    items: Seq<ObjectModel>,
    i: nat,
    acc: Seq<ObjectModel>,
    c: CopyModel,
)
    ensures
        copied_items(doc, items, i, acc, c) is Ok ==> map_grows(
            c,
            copied_items(doc, items, i, acc, c)->Ok_0.1,
        ),
    decreases unmapped(c.map), items, items.len() - i,
{
    if i < items.len() {
        copied_grows(doc, items[i as int], c);
        if let Ok((x, c1)) = copied(doc, items[i as int], c) {
            mappings_shrink(c.map, c1.map);
            copied_items_grows(doc, items, i + 1, acc.push(x), c1);
            if let Ok((list, c2)) = copied_items(doc, items, i + 1, acc.push(x), c1) {
                assert forall|k: u32| #[trigger] c.map.contains_key(k) implies c2.map.contains_key(k)
                    && c2.map[k] == c.map[k] by {
                    assert(c1.map.contains_key(k));
                }
            }
        }
    }
}

proof fn copied_entries_grows(
    doc: DocModel,
    d: DictModel,
    keys: Seq<Seq<char>>,
    i: nat,
    acc: DictModel,
    c: CopyModel,
)
    ensures
        copied_entries(doc, d, keys, i, acc, c) is Ok ==> map_grows(
            c,
            copied_entries(doc, d, keys, i, acc, c)->Ok_0.1,
        ),
    decreases unmapped(c.map), d, keys.len() - i,
{
    if i < keys.len() && d.dom().finite() && d.contains_key(keys[i as int]) {
        let k0 = keys[i as int];
        copied_grows(doc, d[k0], c);
        if let Ok((x, c1)) = copied(doc, d[k0], c) {
            mappings_shrink(c.map, c1.map);
            copied_entries_grows(doc, d, keys, i + 1, acc.insert(k0, x), c1);
            if let Ok((list, c2)) = copied_entries(doc, d, keys, i + 1, acc.insert(k0, x), c1) {
                assert forall|k: u32| #[trigger] c.map.contains_key(k) implies c2.map.contains_key(k)
                    && c2.map[k] == c.map[k] by {
                    assert(c1.map.contains_key(k));
                }
            }
        }
    }
}

/// Objects by what they say.
pub open spec fn made_model(m: Map<u32, Object>) -> Map<u32, ObjectModel> {
    m.map_values(|o: Object| o@)
}

/// A copy that is being made.
pub struct Copier {
    made: BTreeMap<u32, Object>,
    next: u32,
    map: BTreeMap<u32, u32>,
}

impl View for Copier {
    type V = CopyModel;

    closed spec fn view(&self) -> CopyModel {
        CopyModel { made: made_model(self.made@), next: self.next as int, map: self.map@ }
    }
}

impl Copier {
    /// A copy of nothing yet, whose first object gets the number `next`.
    pub fn new(next: u32) -> (r: Self)
        ensures
            r@ == (CopyModel { made: Map::empty(), next: next as int, map: Map::empty() }),
    {
        let r = Copier { made: empty_table(), next, map: empty_table() };
        assert(r@.made =~= Map::empty());
        r
    }

    /// The objects that were made, and the next number.
    pub fn into_parts(self) -> (r: (BTreeMap<u32, Object>, u32))
        ensures
            made_model(r.0@) == self@.made,
            r.1 == self@.next,
    {
        (self.made, self.next)
    }

    /// Copies an object, and once each what it refers to.
    pub fn copy_object_recursive(&mut self, source: &Document, object: &Object) -> (r: Result<
        Object,
        EditError,
    >)
        ensures
            match copied(source@, object@, old(self)@) {
                Ok((x, c)) => r is Ok && r->Ok_0@ == x && final(self)@ == c,
                Err(e) => r is Err && r->Err_0@ == e,
            },
        decreases unmapped(old(self)@.map), object,
    {
        match object {
            Object::Reference(x) => {
                match lookup(&self.map, x.num) {
                    Some(n) => {
                        return Ok(Object::Reference(ObjRef::new(*n, 0)));
                    },
                    None => {},
                }
                if self.next == u32::MAX {
                    return Err(EditError::Refused(Refusal::NumbersUsedUp));
                }
                let num: u32 = self.next;
                proof {
                    mapping_shrinks(self@.map, x.num, num);
                }
                self.next = num + 1;
                put(&mut self.map, x.num, num);
                let resolved = match source.resolve(*x) {
                    Ok(o) => o,
                    Err(e) => {
                        return Err(EditError::Pdf(e));
                    },
                };
                let copy = match self.copy_object_recursive(source, &resolved) {
                    Ok(o) => o,
                    Err(e) => {
                        return Err(e);
                    },
                };
                let ghost before = self@;
                put(&mut self.made, num, copy);
                assert(self@.made =~= before.made.insert(num, copy@));
                Ok(Object::Reference(ObjRef::new(num, 0)))
            },
            Object::Array(items) => {
                let ghost goal = copied_items(source@, object@->Array_0, 0, seq![], old(self)@);
                let ghost ms = object@->Array_0;
                let mut out: Vec<Object> = Vec::new();
                assert(models(out@) =~= seq![]);
                let mut i: usize = 0;
                while i < items.len()
                    invariant
                        0 <= i <= items@.len(),
                        object@ == ObjectModel::Array(ms),
                        ms == models(items@),
                        decreases_to!(object => items),
                        unmapped(self@.map) <= unmapped(old(self)@.map),
                        goal == copied_items(source@, ms, 0, seq![], old(self)@),
                        goal == copied_items(source@, ms, i as nat, models(out@), self@),
                    decreases items@.len() - i,
                {
                    let ghost before = self@;
                    let ghost list = models(out@);
                    assert(ms[i as int] == items@[i as int]@);
                    proof {
                        copied_grows(source@, ms[i as int], self@);
                    }
                    match self.copy_object_recursive(source, &items[i]) {
                        Ok(o) => {
                            proof {
                                mappings_shrink(before.map, self@.map);
                            }
                            out.push(o);
                            assert(models(out@) =~= list.push(o@));
                        },
                        Err(e) => {
                            return Err(e);
                        },
                    }
                    i += 1;
                }
                let r = Object::Array(out);
                assert(r@->Array_0 =~= models(out@));
                Ok(r)
            },
            Object::Dictionary(dict) => match self.copy_dict(source, dict) {
                Ok(d) => Ok(Object::Dictionary(d)),
                Err(e) => Err(e),
            },
            Object::Stream(stream) => match self.copy_dict(source, &stream.dict) {
                Ok(dict) => Ok(
                    Object::Stream(
                        Stream {
                            dict,
                            raw_data: crate::object::clone_bytes(stream.raw_data.as_slice()),
                        },
                    ),
                ),
                Err(e) => Err(e),
            },
            _ => Ok(object.clone()),
        }
    }

    /// Copies a dictionary.
    pub fn copy_dict(&mut self, source: &Document, dict: &Dictionary) -> (r: Result<
        Dictionary,
        EditError,
    >)
        ensures
            match copied_dict(source@, dict@, old(self)@) {
                Ok((x, c)) => r is Ok && r->Ok_0@ == x && final(self)@ == c,
                Err(e) => r is Err && r->Err_0@ == e,
            },
        decreases unmapped(old(self)@.map), dict,
    {
        let entries = dict.iter();
        let ghost keys = entry_keys(entries@);
        let ghost goal = copied_dict(source@, dict@, old(self)@);
        proof {
            dict.is_finite();
            key_list_unique(dict@, keys, sorted_keys(dict@));
        }
        let mut out = Dictionary::new();
        let mut i: usize = 0;
        while i < entries.len()
            invariant
                0 <= i <= entries@.len(),
                keys == entry_keys(entries@),
                lists_keys(dict@, keys),
                dict@.dom().finite(),
                forall|j: int|
                    0 <= j < entries@.len() ==> (#[trigger] entries@[j]).1@ == dict@[entries@[j].0@],
                forall|j: int|
                    0 <= j < entries@.len() ==> decreases_to!(dict => (#[trigger] entries@[j]).1),
                unmapped(self@.map) <= unmapped(old(self)@.map),
                goal == copied_dict(source@, dict@, old(self)@),
                goal == copied_entries(source@, dict@, keys, i as nat, out@, self@),
            decreases entries@.len() - i,
        {
            let e = &entries[i];
            let ghost before = self@;
            let ghost k = keys[i as int];
            proof {
                assert(k == e.0@);
                assert(keys.contains(k));
                assert(dict@.contains_key(k));
                copied_grows(source@, dict@[k], self@);
            }
            match self.copy_object_recursive(source, &e.1) {
                Ok(o) => {
                    proof {
                        mappings_shrink(before.map, self@.map);
                    }
                    out.insert(e.0.as_str(), o);
                },
                Err(e) => {
                    return Err(e);
                },
            }
            i += 1;
        }
        Ok(out)
    }
}

/// An object with its references as a table of numbers has them.
pub open spec fn renumbered(o: ObjectModel, map: Map<u32, u32>) -> ObjectModel
    decreases o, 0nat,
{
    match o {
        ObjectModel::Reference(r) => if map.contains_key(r.num) {
            ObjectModel::Reference(ObjRef { num: map[r.num], gen: 0 })
        } else {
            o
        },
        ObjectModel::Array(items) => ObjectModel::Array(
            Seq::new(
                items.len(),
                |i: int|
                    if 0 <= i < items.len() {
                        renumbered(items[i], map)
                    } else {
                        ObjectModel::Null
                    },
            ),
        ),
        ObjectModel::Dictionary(d) => ObjectModel::Dictionary(renumbered_dict(d, map)),
        ObjectModel::Stream(d, raw) => ObjectModel::Stream(renumbered_dict(d, map), raw),
        _ => o,
    }
}

pub open spec fn renumbered_dict(d: DictModel, map: Map<u32, u32>) -> DictModel
    decreases d, 0nat,
{
    if d.dom().finite() {
        Map::new(
            |k: Seq<char>| d.contains_key(k),
            |k: Seq<char>|
                if d.contains_key(k) {
                    renumbered(d[k], map)
                } else {
                    ObjectModel::Null
                },
        )
    } else {
        Map::empty()
    }
}

/// Numbers given are below the next one, and no number is given twice.
pub open spec fn copy_wf(c: CopyModel) -> bool {
    &&& 0 <= c.next <= u32::MAX
    &&& forall|k: u32| #[trigger] c.map.contains_key(k) ==> c.map[k] < c.next
    &&& forall|n: u32| #[trigger] c.made.contains_key(n) ==> n < c.next
    &&& forall|j: u32, k: u32|
        #[trigger] c.map.contains_key(j) && #[trigger] c.map.contains_key(k) && j != k ==> c.map[j]
            != c.map[k]
}

pub open spec fn within(a: Map<u32, u32>, b: Map<u32, u32>) -> bool {
    forall|k: u32| #[trigger] a.contains_key(k) ==> b.contains_key(k) && b[k] == a[k]
}

/// What was made for an object of the source is that object, with its references as `m` has
/// them.
pub open spec fn faithful_at(doc: DocModel, c: CopyModel, k: u32, m: Map<u32, u32>) -> bool {
    &&& c.made.contains_key(c.map[k])
    &&& exists|r: ObjRef|
        r.num == k && (#[trigger] doc.resolved(r)) is Ok && c.made[c.map[k]] == renumbered(
            doc.resolved(r)->Ok_0,
            m,
        )
}

/// A number was given to an object of the source.
pub open spec fn given(map: Map<u32, u32>, n: u32) -> bool {
    exists|k: u32| #[trigger] map.contains_key(k) && map[k] == n
}

/// From `a` to `b`, objects were only added, and each new number stands for a copy.
pub open spec fn renews(doc: DocModel, a: CopyModel, b: CopyModel, m: Map<u32, u32>) -> bool {
    &&& copy_wf(b)
    &&& a.next <= b.next
    &&& map_grows(a, b)
    &&& forall|n: u32| #[trigger] a.made.contains_key(n) ==> b.made.contains_key(n) && b.made[n] == a.made[n]
    &&& forall|n: u32|
        #[trigger] b.made.contains_key(n) && !a.made.contains_key(n) ==> n >= a.next && given(b.map, n)
    &&& forall|k: u32|
        #[trigger] b.map.contains_key(k) && !a.map.contains_key(k) ==> b.map[k] >= a.next && faithful_at(
            doc,
            b,
            k,
            m,
        )
}

pub proof fn renews_on(doc: DocModel, a: CopyModel, b: CopyModel, c: CopyModel, m: Map<u32, u32>)
    requires
        renews(doc, a, b, m),
        renews(doc, b, c, m),
    ensures
        renews(doc, a, c, m),
{
    assert forall|k: u32| #[trigger] a.map.contains_key(k) implies c.map.contains_key(k) && c.map[k] == a.map[k] by {
        assert(b.map.contains_key(k));
    }
    assert forall|n: u32| #[trigger] a.made.contains_key(n) implies c.made.contains_key(n) && c.made[n]
        == a.made[n] by {
        assert(b.made.contains_key(n));
    }
    assert forall|n: u32| #[trigger] c.made.contains_key(n) && !a.made.contains_key(n) implies n
        >= a.next && given(c.map, n) by {
        if b.made.contains_key(n) {
            let k = choose|k: u32| #[trigger] b.map.contains_key(k) && b.map[k] == n;
            assert(c.map.contains_key(k));
        }
    }
    assert forall|k: u32| #[trigger] c.map.contains_key(k) && !a.map.contains_key(k) implies c.map[k]
        >= a.next && faithful_at(doc, c, k, m) by {
        if b.map.contains_key(k) {
            assert(faithful_at(doc, b, k, m));
            assert(c.map[k] == b.map[k]);
            assert(b.made.contains_key(b.map[k]));
        }
    }
}

/// A copy is the object that it was made of, with new numbers; what it refers to was copied in
/// the same way, under numbers that were not in use; and what was there before is unchanged.
pub proof fn copied_renews(doc: DocModel, o: ObjectModel, c: CopyModel, m: Map<u32, u32>)
    requires
        copy_wf(c),
        copied(doc, o, c) is Ok,
        within(copied(doc, o, c)->Ok_0.1.map, m),
    ensures
        renews(doc, c, copied(doc, o, c)->Ok_0.1, m),
        copied(doc, o, c)->Ok_0.0 == renumbered(o, m),
    decreases unmapped(c.map), o, 0nat,
{
    match o {
        ObjectModel::Reference(r) => {
            if !c.map.contains_key(r.num) {
                let num = c.next as u32;
                let c1 = CopyModel { made: c.made, next: c.next + 1, map: c.map.insert(r.num, num) };
                mapping_shrinks(c.map, r.num, num);
                let src = doc.resolved(r)->Ok_0;
                let c2 = copied(doc, src, c1)->Ok_0.1;
                let x = copied(doc, src, c1)->Ok_0.0;
                let c3 = copied(doc, o, c)->Ok_0.1;
                assert(c3 == (CopyModel { made: c2.made.insert(num, x), next: c2.next, map: c2.map }));
                assert(copy_wf(c1));
                copied_renews(doc, src, c1, m);
                copied_grows(doc, src, c1);
                assert(c1.map.contains_key(r.num));
                assert(c2.map[r.num] == num);
                assert(!c1.made.contains_key(num));
                assert(!c2.made.contains_key(num));
                assert forall|k: u32| #[trigger] c3.map.contains_key(k) && !c.map.contains_key(k) implies c3.map[k]
                    >= c.next && faithful_at(doc, c3, k, m) by {
                    if k == r.num {
                        assert(doc.resolved(r) is Ok);
                    } else {
                        assert(!c1.map.contains_key(k));
                        assert(c2.map.contains_key(k));
                        assert(faithful_at(doc, c2, k, m));
                        assert(c2.map[k] != num);
                    }
                }
                assert forall|k: u32| #[trigger] c.map.contains_key(k) implies c3.map.contains_key(k)
                    && c3.map[k] == c.map[k] by {
                    assert(c1.map.contains_key(k));
                }
                assert forall|n: u32| #[trigger] c3.made.contains_key(n) && !c.made.contains_key(n) implies n
                    >= c.next && given(c3.map, n) by {
                    if n != num {
                        assert(c2.made.contains_key(n));
                    } else {
                        assert(c3.map.contains_key(r.num));
                    }
                }
            }
        },
        ObjectModel::Array(items) => {
            copied_items_renews(doc, items, 0, seq![], c, m);
            let list = copied_items(doc, items, 0, seq![], c)->Ok_0.0;
            assert(list =~= renumbered(o, m)->Array_0);
        },
        ObjectModel::Dictionary(d) => {
            copied_dict_renews(doc, d, c, m);
        },
        ObjectModel::Stream(d, raw) => {
            copied_dict_renews(doc, d, c, m);
        },
        _ => {},
    }
}

proof fn copied_items_renews(
    doc: DocModel,
    items: Seq<ObjectModel>,
    i: nat,
    acc: Seq<ObjectModel>,
    c: CopyModel,
    m: Map<u32, u32>,
)
    requires
        copy_wf(c),
        i <= items.len(),
        acc.len() == i,
        forall|j: int| 0 <= j < i ==> #[trigger] acc[j] == renumbered(items[j], m),
        copied_items(doc, items, i, acc, c) is Ok,
        within(copied_items(doc, items, i, acc, c)->Ok_0.1.map, m),
    ensures
        renews(doc, c, copied_items(doc, items, i, acc, c)->Ok_0.1, m),
        copied_items(doc, items, i, acc, c)->Ok_0.0.len() == items.len(),
        forall|j: int|
            0 <= j < items.len() ==> #[trigger] copied_items(doc, items, i, acc, c)->Ok_0.0[j]
                == renumbered(items[j], m),
    decreases unmapped(c.map), items, items.len() - i,
{
    if i < items.len() {
        let (x, c1) = copied(doc, items[i as int], c)->Ok_0;
        copied_grows(doc, items[i as int], c);
        mappings_shrink(c.map, c1.map);
        copied_items_grows(doc, items, i + 1, acc.push(x), c1);
        let c2 = copied_items(doc, items, i + 1, acc.push(x), c1)->Ok_0.1;
        assert(within(c1.map, m)) by {
            assert forall|k: u32| #[trigger] c1.map.contains_key(k) implies m.contains_key(k) && m[k]
                == c1.map[k] by {
                assert(c2.map.contains_key(k));
            }
        }
        copied_renews(doc, items[i as int], c, m);
        copied_items_renews(doc, items, i + 1, acc.push(x), c1, m);
        renews_on(doc, c, c1, c2, m);
    }
}

pub proof fn copied_dict_renews(doc: DocModel, d: DictModel, c: CopyModel, m: Map<u32, u32>)
    requires
        copy_wf(c),
        copied_dict(doc, d, c) is Ok,
        within(copied_dict(doc, d, c)->Ok_0.1.map, m),
    ensures
        renews(doc, c, copied_dict(doc, d, c)->Ok_0.1, m),
        copied_dict(doc, d, c)->Ok_0.0 == renumbered_dict(d, m),
    decreases unmapped(c.map), d, sorted_keys(d).len() + 1,
{
    let keys = sorted_keys(d);
    if d.dom().finite() {
        crate::roundtrip::finite_is_listed(d);
        copied_entries_renews(doc, d, keys, 0, Map::empty(), c, m);
        let x = copied_dict(doc, d, c)->Ok_0.0;
        assert(x == copied_entries(doc, d, keys, 0, Map::empty(), c)->Ok_0.0);
        assert forall|k: Seq<char>| x.contains_key(k) <==> d.contains_key(k) by {
            if d.contains_key(k) {
                assert(keys.contains(k));
                assert(keys[keys.index_of(k)] == k);
            }
            if x.contains_key(k) {
                let j = choose|j: int| 0 <= j < keys.len() && #[trigger] keys[j] == k;
                assert(keys.contains(k));
            }
        }
        assert(x =~= renumbered_dict(d, m));
    } else {
        assert(copied_entries(doc, d, keys, 0, Map::empty(), c) == Ok::<(DictModel, CopyModel), EditFault>((Map::empty(), c)));
    }
}

proof fn copied_entries_renews(
    doc: DocModel,
    d: DictModel,
    keys: Seq<Seq<char>>,
    i: nat,
    acc: DictModel,
    c: CopyModel,
    m: Map<u32, u32>,
)
    requires
        copy_wf(c),
        d.dom().finite(),
        lists_keys(d, keys),
        i <= keys.len(),
        forall|k: Seq<char>|
            #[trigger] acc.contains_key(k) <==> exists|j: int| 0 <= j < i && #[trigger] keys[j] == k,
        forall|k: Seq<char>| #[trigger] acc.contains_key(k) ==> acc[k] == renumbered(d[k], m),
        copied_entries(doc, d, keys, i, acc, c) is Ok,
        within(copied_entries(doc, d, keys, i, acc, c)->Ok_0.1.map, m),
    ensures
        renews(doc, c, copied_entries(doc, d, keys, i, acc, c)->Ok_0.1, m),
        forall|k: Seq<char>|
            #[trigger] copied_entries(doc, d, keys, i, acc, c)->Ok_0.0.contains_key(k) <==> exists|
                j: int,
            |
                0 <= j < keys.len() && #[trigger] keys[j] == k,
        forall|k: Seq<char>|
            #[trigger] copied_entries(doc, d, keys, i, acc, c)->Ok_0.0.contains_key(k) ==> copied_entries(
                doc,
                d,
                keys,
                i,
                acc,
                c,
            )->Ok_0.0[k] == renumbered(d[k], m),
    decreases unmapped(c.map), d, keys.len() - i,
{
    if i < keys.len() {
        let k0 = keys[i as int];
        assert(keys.contains(k0));
        assert(d.contains_key(k0));
        let (x, c1) = copied(doc, d[k0], c)->Ok_0;
        let acc1 = acc.insert(k0, x);
        copied_grows(doc, d[k0], c);
        mappings_shrink(c.map, c1.map);
        copied_entries_grows(doc, d, keys, i + 1, acc1, c1);
        let c2 = copied_entries(doc, d, keys, i + 1, acc1, c1)->Ok_0.1;
        assert(within(c1.map, m)) by {
            assert forall|k: u32| #[trigger] c1.map.contains_key(k) implies m.contains_key(k) && m[k]
                == c1.map[k] by {
                assert(c2.map.contains_key(k));
            }
        }
        copied_renews(doc, d[k0], c, m);
        assert forall|k: Seq<char>|
            #[trigger] acc1.contains_key(k) <==> exists|j: int|
                0 <= j < i + 1 && #[trigger] keys[j] == k by {
            if k == k0 {
                assert(keys[i as int] == k);
            }
            if exists|j: int| 0 <= j < i + 1 && #[trigger] keys[j] == k {
                let j = choose|j: int| 0 <= j < i + 1 && #[trigger] keys[j] == k;
                if j < i {
                    assert(keys[j] == k);
                    assert(acc.contains_key(k));
                }
            }
        }
        copied_entries_renews(doc, d, keys, i + 1, acc1, c1, m);
        renews_on(doc, c, c1, c2, m);
    }
}

/// A box of whole numbers as an array.
pub open spec fn box_array(bounds: Seq<i64>) -> ObjectModel {
    ObjectModel::Array(bounds.map_values(|n: i64| ObjectModel::Real(real_of_int(n as int))))
}

/// A page that hangs from `node` and inherits nothing.
#[verifier::opaque]
pub open spec fn standing(d: DictModel, page: PageModel, node: ObjRef, resources: DictModel) -> DictModel {
    d.insert("Type"@, ObjectModel::Name("Page"@)).insert("Parent"@, ObjectModel::Reference(node)).insert(
        "MediaBox"@,
        box_array(page.media_box),
    ).insert("Rotate"@, ObjectModel::Integer(page.rotate as int)).insert(
        "Resources"@,
        ObjectModel::Dictionary(resources),
    )
}

/// What a page has of its own, without what it may inherit and without its place.
#[verifier::opaque]
pub open spec fn own_entries(d: DictModel) -> DictModel {
    d.remove("Type"@).remove("Parent"@).remove("MediaBox"@).remove("Rotate"@).remove("Resources"@)
}

/// Numbers for the pages that will be copied, taken before anything is copied.
pub open spec fn reserved(pages: Seq<PageModel>, indices: Seq<usize>, i: nat, c: CopyModel) -> Result<
    CopyModel,
    EditFault,
>
    decreases indices.len() - i,
{
    if i >= indices.len() {
        Ok(c)
    } else if indices[i as int] >= pages.len() {
        Err(
            EditFault::Refused(
                Refusal::NoSuchPage { index: indices[i as int], count: pages.len() as usize },
            ),
        )
    } else {
        match pages[indices[i as int] as int].object_ref {
            None => Err(EditFault::Refused(Refusal::PageHasNoReference)),
            Some(r) => if c.map.contains_key(r.num) {
                reserved(pages, indices, i + 1, c)
            } else if c.next >= u32::MAX {
                Err(EditFault::Refused(Refusal::NumbersUsedUp))
            } else {
                reserved(
                    pages,
                    indices,
                    i + 1,
                    CopyModel { made: c.made, next: c.next + 1, map: c.map.insert(r.num, c.next as u32) },
                )
            },
        }
    }
}

/// The copy of a page that has a number: its own entries and the resources that hold for it.
pub open spec fn page_copied(doc: DocModel, page: PageModel, r: ObjRef, node: ObjRef, c: CopyModel) -> Result<
    CopyModel,
    EditFault,
> {
    match doc.resolved(r) {
        Err(e) => Err(EditFault::Pdf(e)),
        Ok(o) => match o.dict() {
            None => Err(EditFault::Refused(Refusal::CopyIsNotADictionary)),
            Some(d) => match copied_dict(doc, own_entries(d), c) {
                Err(e) => Err(e),
                Ok((x, c1)) => match copied_dict(doc, page.resources, c1) {
                    Err(e) => Err(e),
                    Ok((resources, c2)) => Ok(
                        CopyModel {
                            made: c2.made.insert(
                                c.map[r.num],
                                ObjectModel::Dictionary(standing(x, page, node, resources)),
                            ),
                            next: c2.next,
                            map: c2.map,
                        },
                    ),
                },
            },
        },
    }
}

/// The copies of the pages with the indices from the `i`-th on.
pub open spec fn pages_copied(
    doc: DocModel,
    pages: Seq<PageModel>,
    indices: Seq<usize>,
    i: nat,
    node: ObjRef,
    c: CopyModel,
) -> Result<CopyModel, EditFault>
    decreases indices.len() - i,
{
    if i >= indices.len() {
        Ok(c)
    } else {
        let page = pages[indices[i as int] as int];
        match page_copied(doc, page, page.object_ref->0, node, c) {
            Err(e) => Err(e),
            Ok(c1) => pages_copied(doc, pages, indices, i + 1, node, c1),
        }
    }
}

/// The new references of pages.
pub open spec fn new_refs(pages: Seq<PageModel>, indices: Seq<usize>, map: Map<u32, u32>) -> Seq<ObjRef> {
    Seq::new(
        indices.len(),
        |i: int| ObjRef { num: map[(pages[indices[i] as int].object_ref->0).num], gen: 0 },
    )
}

/// Copies of pages below `node`, and their references.
pub open spec fn page_copies(doc: DocModel, indices: Seq<usize>, node: ObjRef, next: int) -> Result<
    (Seq<ObjRef>, CopyModel),
    EditFault,
> {
    match pages_in(doc) {
        Err(e) => Err(EditFault::Pdf(e)),
        Ok(pages) => match reserved(
            pages,
            indices,
            0,
            CopyModel { made: Map::empty(), next, map: Map::empty() },
        ) {
            Err(e) => Err(e),
            Ok(c) => match pages_copied(doc, pages, indices, 0, node, c) {
                Err(e) => Err(e),
                Ok(c1) => Ok((new_refs(pages, indices, c.map), c1)),
            },
        },
    }
}

pub proof fn reserved_is(pages: Seq<PageModel>, indices: Seq<usize>, i: nat, c: CopyModel)
    requires
        copy_wf(c),
        reserved(pages, indices, i, c) is Ok,
    ensures
        copy_wf(reserved(pages, indices, i, c)->Ok_0),
        map_grows(c, reserved(pages, indices, i, c)->Ok_0),
        c.next <= reserved(pages, indices, i, c)->Ok_0.next,
        reserved(pages, indices, i, c)->Ok_0.made == c.made,
        forall|j: int|
            i <= j < indices.len() ==> {
                &&& (#[trigger] indices[j]) < pages.len()
                &&& pages[indices[j] as int].object_ref is Some
                &&& reserved(pages, indices, i, c)->Ok_0.map.contains_key(
                    (pages[indices[j] as int].object_ref->0).num,
                )
            },
        forall|k: u32|
            #[trigger] reserved(pages, indices, i, c)->Ok_0.map.contains_key(k) && !c.map.contains_key(k)
                ==> reserved(pages, indices, i, c)->Ok_0.map[k] >= c.next && exists|j: int|
                i <= j < indices.len() && (pages[(#[trigger] indices[j]) as int].object_ref->0).num == k,
    decreases indices.len() - i,
{
    if i < indices.len() {
        let r = pages[indices[i as int] as int].object_ref->0;
        let c1 = if c.map.contains_key(r.num) {
            c
        } else {
            CopyModel { made: c.made, next: c.next + 1, map: c.map.insert(r.num, c.next as u32) }
        };
        assert(copy_wf(c1));
        reserved_is(pages, indices, i + 1, c1);
        let c2 = reserved(pages, indices, i, c)->Ok_0;
        assert(c2 == reserved(pages, indices, i + 1, c1)->Ok_0);
        assert(c1.map.contains_key(r.num));
        assert forall|k: u32| #[trigger] c2.map.contains_key(k) && !c.map.contains_key(k) implies c2.map[k]
            >= c.next && exists|j: int|
            i <= j < indices.len() && (pages[(#[trigger] indices[j]) as int].object_ref->0).num == k by {
            if k == r.num {
                assert((pages[indices[i as int] as int].object_ref->0).num == k);
            } else {
                assert(!c1.map.contains_key(k));
                let j = choose|j: int|
                    i + 1 <= j < indices.len() && (pages[(#[trigger] indices[j]) as int].object_ref->0).num
                        == k;
                assert((pages[indices[j] as int].object_ref->0).num == k);
            }
        }
        assert forall|k: u32| #[trigger] c.map.contains_key(k) implies c2.map.contains_key(k) && c2.map[k]
            == c.map[k] by {
            assert(c1.map.contains_key(k));
        }
    }
}

/// A box of whole numbers as an array.
pub fn box_object(bounds: &[i64; 4]) -> (r: Object)
    ensures
        r@ == box_array(bounds@),
{
    let mut items: Vec<Object> = Vec::new();
    let mut i: usize = 0;
    while i < 4
        invariant
            0 <= i <= 4,
            items@.len() == i,
            forall|j: int|
                0 <= j < i ==> (#[trigger] items@[j])@ == ObjectModel::Real(
                    real_of_int(bounds@[j] as int),
                ),
        decreases 4 - i,
    {
        items.push(Object::Real(Real::from_int(bounds[i])));
        i += 1;
    }
    let r = Object::Array(items);
    assert(r@->Array_0 =~= box_array(bounds@)->Array_0);
    r
}

/// Makes a page hang from `node` and inherit nothing.
pub fn make_standing(dict: &mut Dictionary, page: &Page, node: ObjRef, resources: Dictionary)
    ensures
        final(dict)@ == standing(old(dict)@, page@, node, resources@),
{
    proof {
        reveal(standing);
    }
    dict.insert("Type", Object::Name("Page".to_owned()));
    dict.insert("Parent", Object::Reference(node));
    dict.insert("MediaBox", box_object(&page.media_box));
    dict.insert("Rotate", Object::Integer(page.rotate as i64));
    dict.insert("Resources", Object::Dictionary(resources));
}

/// What a page has of its own.
fn own_dict(dict: &Dictionary) -> (r: Dictionary)
    ensures
        r@ == own_entries(dict@),
{
    let entries = dict.iter();
    let ghost keys = entry_keys(entries@);
    let mut r = Dictionary::new();
    let mut i: usize = 0;
    while i < entries.len()
        invariant
            0 <= i <= entries@.len(),
            keys == entry_keys(entries@),
            lists_keys(dict@, keys),
            forall|j: int|
                0 <= j < entries@.len() ==> (#[trigger] entries@[j]).1@ == dict@[entries@[j].0@],
            forall|k: Seq<char>|
                #[trigger] r@.contains_key(k) <==> replaced(k) == false && exists|j: int|
                    0 <= j < i && #[trigger] keys[j] == k,
            forall|k: Seq<char>| #[trigger] r@.contains_key(k) ==> r@[k] == dict@[k],
        decreases entries@.len() - i,
    {
        let e = &entries[i];
        let key: &str = e.0.as_str();
        let ghost before = r@;
        let gone = same_text(key, "Type") || same_text(key, "Parent") || same_text(key, "MediaBox")
            || same_text(key, "Rotate") || same_text(key, "Resources");
        if !gone {
            r.insert(key, e.1.clone());
        }
        proof {
            assert(keys[i as int] == e.0@);
            assert forall|k: Seq<char>|
                #[trigger] r@.contains_key(k) <==> replaced(k) == false && exists|j: int|
                    0 <= j < i + 1 && #[trigger] keys[j] == k by {
                if r@.contains_key(k) && k == e.0@ {
                    assert(keys[i as int] == k);
                }
                if exists|j: int| 0 <= j < i + 1 && #[trigger] keys[j] == k {
                    let j = choose|j: int| 0 <= j < i + 1 && #[trigger] keys[j] == k;
                    if j < i {
                        assert(keys[j] == k);
                        assert(replaced(k) || before.contains_key(k));
                    }
                }
            }
        }
        i += 1;
    }
    proof {
        reveal(own_entries);
        let goal = own_entries(dict@);
        assert forall|k: Seq<char>| r@.contains_key(k) <==> goal.contains_key(k) by {
            if dict@.contains_key(k) {
                assert(keys.contains(k));
                assert(keys[keys.index_of(k)] == k);
            }
            if r@.contains_key(k) {
                let j = choose|j: int| 0 <= j < i && #[trigger] keys[j] == k;
                assert(keys.contains(k));
            }
        }
        assert(r@ =~= goal);
    }
    r
}

/// The names that a page gets anew.
spec fn replaced(k: Seq<char>) -> bool {
    k == "Type"@ || k == "Parent"@ || k == "MediaBox"@ || k == "Rotate"@ || k == "Resources"@
}

impl Copier {
    /// Takes numbers for pages.
    fn reserve(&mut self, pages: &Vec<Page>, indices: &[usize]) -> (r: Result<(), EditError>)
        ensures
            match reserved(page_models(pages@), indices@, 0, old(self)@) {
                Ok(c) => r is Ok && final(self)@ == c,
                Err(e) => r is Err && r->Err_0@ == e,
            },
    {
        let ghost ps = page_models(pages@);
        let ghost goal = reserved(ps, indices@, 0, self@);
        let mut i: usize = 0;
        while i < indices.len()
            invariant
                0 <= i <= indices@.len(),
                ps == page_models(pages@),
                goal == reserved(ps, indices@, 0, old(self)@),
                goal == reserved(ps, indices@, i as nat, self@),
            decreases indices@.len() - i,
        {
            let index: usize = indices[i];
            if index >= pages.len() {
                return Err(
                    EditError::Refused(Refusal::NoSuchPage { index, count: pages.len() }),
                );
            }
            assert(ps[index as int] == pages@[index as int]@);
            match pages[index].object_ref {
                None => {
                    return Err(EditError::Refused(Refusal::PageHasNoReference));
                },
                Some(r) => {
                    if lookup(&self.map, r.num).is_none() {
                        if self.next == u32::MAX {
                            return Err(EditError::Refused(Refusal::NumbersUsedUp));
                        }
                        let num: u32 = self.next;
                        self.next = num + 1;
                        put(&mut self.map, r.num, num);
                    }
                },
            }
            i += 1;
        }
        Ok(())
    }

    /// Copies a page that has a number, with all that it refers to.
    fn copy_page(&mut self, source: &Document, page: &Page, r: ObjRef, node: ObjRef) -> (res: Result<
        (),
        EditError,
    >)
        requires
            old(self)@.map.contains_key(r.num),
        ensures
            match page_copied(source@, page@, r, node, old(self)@) {
                Ok(c) => res is Ok && final(self)@ == c,
                Err(e) => res is Err && res->Err_0@ == e,
            },
    {
        let num: u32 = match lookup(&self.map, r.num) {
            Some(n) => *n,
            None => 0,
        };
        let object = match source.resolve(r) {
            Ok(o) => o,
            Err(e) => {
                return Err(EditError::Pdf(e));
            },
        };
        let own = match object.as_dict() {
            Some(d) => own_dict(d),
            None => {
                return Err(EditError::Refused(Refusal::CopyIsNotADictionary));
            },
        };
        let mut dict = match self.copy_dict(source, &own) {
            Ok(d) => d,
            Err(e) => {
                return Err(e);
            },
        };
        let resources = match self.copy_dict(source, &page.resources) {
            Ok(d) => d,
            Err(e) => {
                return Err(e);
            },
        };
        make_standing(&mut dict, page, node, resources);
        let ghost before = self@;
        put(&mut self.made, num, Object::Dictionary(dict));
        assert(self@.made =~= before.made.insert(num, ObjectModel::Dictionary(dict@)));
        Ok(())
    }

    /// Copies pages of `source` below `node`; gives their references.
    pub fn copy_pages(&mut self, source: &Document, indices: &[usize], node: ObjRef) -> (r: Result<
        Vec<ObjRef>,
        EditError,
    >)
        requires
            old(self)@.made == Map::<u32, ObjectModel>::empty(),
            old(self)@.map == Map::<u32, u32>::empty(),
        ensures
            match page_copies(source@, indices@, node, old(self)@.next) {
                Ok((refs, c)) => r is Ok && r->Ok_0@ == refs && final(self)@ == c,
                Err(e) => r is Err && r->Err_0@ == e,
            },
    {
        let pages = match source.pages() {
            Ok(p) => p,
            Err(e) => {
                return Err(EditError::Pdf(e));
            },
        };
        let ghost ps = page_models(pages@);
        let ghost start = self@;
        match self.reserve(&pages, indices) {
            Ok(_) => {},
            Err(e) => {
                return Err(e);
            },
        }
        let ghost taken = self@;
        proof {
            reserved_is(ps, indices@, 0, start);
        }
        let ghost goal = pages_copied(source@, ps, indices@, 0, node, taken);
        let mut refs: Vec<ObjRef> = Vec::new();
        let mut i: usize = 0;
        while i < indices.len()
            invariant
                0 <= i <= indices@.len(),
                ps == page_models(pages@),
                map_grows(taken, self@),
                forall|j: int|
                    0 <= j < indices.len() ==> {
                        &&& (#[trigger] indices[j]) < ps.len()
                        &&& ps[indices[j] as int].object_ref is Some
                        &&& taken.map.contains_key((ps[indices[j] as int].object_ref->0).num)
                    },
                refs@.len() == i,
                forall|j: int|
                    0 <= j < i ==> #[trigger] refs@[j] == new_refs(ps, indices@, taken.map)[j],
                goal == pages_copied(source@, ps, indices@, 0, node, taken),
                goal == pages_copied(source@, ps, indices@, i as nat, node, self@),
                page_copies(source@, indices@, node, old(self)@.next) == (match goal {
                    Ok(c) => Ok((new_refs(ps, indices@, taken.map), c)),
                    Err(e) => Err(e),
                }),
            decreases indices@.len() - i,
        {
            let index: usize = indices[i];
            let page = &pages[index];
            assert(ps[index as int] == page@);
            let r: ObjRef = match page.object_ref {
                Some(r) => r,
                None => ObjRef::new(0, 0),
            };
            let ghost before = self@;
            assert(taken.map.contains_key(r.num));
            let num: u32 = match lookup(&self.map, r.num) {
                Some(n) => *n,
                None => 0,
            };
            match self.copy_page(source, page, r, node) {
                Ok(_) => {},
                Err(e) => {
                    return Err(e);
                },
            }
            proof {
                page_copied_grows(source@, page@, r, node, before);
                assert forall|k: u32| #[trigger] taken.map.contains_key(k) implies self@.map.contains_key(k)
                    && self@.map[k] == taken.map[k] by {
                    assert(before.map.contains_key(k));
                }
            }
            refs.push(ObjRef::new(num, 0));
            i += 1;
        }
        assert(refs@ =~= new_refs(ps, indices@, taken.map));
        Ok(refs)
    }
}

pub proof fn copied_dict_grows(doc: DocModel, d: DictModel, c: CopyModel)
    ensures
        copied_dict(doc, d, c) is Ok ==> map_grows(c, copied_dict(doc, d, c)->Ok_0.1),
{
    copied_entries_grows(doc, d, sorted_keys(d), 0, Map::empty(), c);
    assert(copied_dict(doc, d, c) == copied_entries(doc, d, sorted_keys(d), 0, Map::empty(), c));
}

pub proof fn page_copied_grows(doc: DocModel, page: PageModel, r: ObjRef, node: ObjRef, c: CopyModel)
    ensures
        page_copied(doc, page, r, node, c) is Ok ==> map_grows(
            c,
            page_copied(doc, page, r, node, c)->Ok_0,
        ),
{
    if page_copied(doc, page, r, node, c) is Ok {
        let d = doc.resolved(r)->Ok_0.dict()->0;
        copied_dict_grows(doc, own_entries(d), c);
        let c1 = copied_dict(doc, own_entries(d), c)->Ok_0.1;
        copied_dict_grows(doc, page.resources, c1);
        let c2 = copied_dict(doc, page.resources, c1)->Ok_0.1;
        assert forall|k: u32| #[trigger] c.map.contains_key(k) implies c2.map.contains_key(k) && c2.map[k]
            == c.map[k] by {
            assert(c1.map.contains_key(k));
        }
    }
}

} // verus!
