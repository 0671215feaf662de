//! Which fields of a form are listed, and what stands in them.
use vstd::prelude::*;
use crate::edit_model::{EditFault, Refusal, SessionModel};
use crate::document::DocModel;
use crate::form::{field_of, fields_from, fields_of, form_items, named_field, named_from, number_of, text_under, FieldModel};
use crate::object::{entry, DictModel, ObjRef, ObjectModel};

verus! {

/// The item is a reference to a dictionary that is a field.
pub open spec fn is_field(s: SessionModel, o: ObjectModel) -> bool {
    &&& o is Reference
    &&& s.current(o->Reference_0.num) is Ok
    &&& s.current(o->Reference_0.num)->Ok_0.dict() is Some
    &&& field_of(o->Reference_0, s.current(o->Reference_0.num)->Ok_0.dict()->0) is Some
}

/// The field that such an item refers to.
pub open spec fn field_at(s: SessionModel, o: ObjectModel) -> FieldModel {
    field_of(o->Reference_0, s.current(o->Reference_0.num)->Ok_0.dict()->0)->0
}

/// How many of the first `n` items are fields.
pub open spec fn fields_among(s: SessionModel, items: Seq<ObjectModel>, n: int) -> int
    decreases n,
{
    if n <= 0 {
        0
    } else {
        fields_among(s, items, n - 1) + if is_field(s, items[n - 1]) {
            1int
        } else {
            0
        }
    }
}

proof fn fields_among_grow(s: SessionModel, items: Seq<ObjectModel>, i: int, n: int)
    requires
        0 <= i <= n,
    ensures
        0 <= fields_among(s, items, i) <= fields_among(s, items, n) <= n,
    decreases n,
{
    if i < n {
        fields_among_grow(s, items, i, n - 1);
    } else if n > 0 {
        fields_among_grow(s, items, n - 1, n - 1);
    }
}

proof fn fields_behind(s: SessionModel, items: Seq<ObjectModel>, i: nat, acc: Seq<FieldModel>)
    requires
        fields_from(s, items, i, acc) is Ok,
        i <= items.len(),
        acc.len() == fields_among(s, items, i as int),
    ensures
        ({
            let r = fields_from(s, items, i, acc)->Ok_0;
            &&& r.len() == fields_among(s, items, items.len() as int)
            &&& forall|j: int| 0 <= j < acc.len() ==> #[trigger] r[j] == acc[j]
            &&& forall|k: int|
                i <= k < items.len() && is_field(s, #[trigger] items[k]) ==> r[fields_among(
                    s,
                    items,
                    k,
                )] == field_at(s, items[k])
        }),
    decreases items.len() - i,
{
    if i < items.len() {
        let o = items[i as int];
        if is_field(s, o) {
            fields_behind(s, items, i + 1, acc.push(field_at(s, o)));
            let r = fields_from(s, items, i, acc)->Ok_0;
            fields_among_grow(s, items, i as int + 1, items.len() as int);
            assert(r[acc.len() as int] == acc.push(field_at(s, o))[acc.len() as int]);
            assert forall|j: int| 0 <= j < acc.len() implies #[trigger] r[j] == acc[j] by {
                assert(r[j] == acc.push(field_at(s, o))[j]);
            }
        } else {
            fields_behind(s, items, i + 1, acc);
        }
    }
}

/// The list holds a field for each item of the form that is one, in the order of the items, and
/// nothing else: it is as long as there are such items, and the field of each stands behind those
/// of the items before it.
pub proof fn each_field_is_listed(s: SessionModel, items: Seq<ObjectModel>)
    requires
        form_items(s.doc) == Ok::<Seq<ObjectModel>, EditFault>(items),
        fields_of(s) is Ok,
    ensures
        fields_of(s)->Ok_0.len() == fields_among(s, items, items.len() as int),
        forall|k: int|
            0 <= k < items.len() && is_field(s, #[trigger] items[k]) ==> 0 <= fields_among(s, items, k)
                < fields_of(s)->Ok_0.len() && fields_of(s)->Ok_0[fields_among(s, items, k)]
                == field_at(s, items[k]),
{
    fields_behind(s, items, 0, seq![]);
    assert forall|k: int| 0 <= k < items.len() && is_field(s, #[trigger] items[k]) implies 0
        <= fields_among(s, items, k) < fields_of(s)->Ok_0.len() by {
        fields_among_grow(s, items, k + 1, items.len() as int);
        fields_among_grow(s, items, k, k);
    }
}

/// The list fails only where an item refers to an object that cannot be read.
pub proof fn readable_fields_are_listed(s: SessionModel, items: Seq<ObjectModel>)
    requires
        form_items(s.doc) == Ok::<Seq<ObjectModel>, EditFault>(items),
    ensures
        fields_of(s) is Ok <==> forall|k: int|
            0 <= k < items.len() && (#[trigger] items[k]) is Reference ==> s.current(
                items[k]->Reference_0.num,
            ) is Ok,
{
    readable_from(s, items, 0, seq![]);
}

proof fn readable_from(s: SessionModel, items: Seq<ObjectModel>, i: nat, acc: Seq<FieldModel>)
    ensures
        fields_from(s, items, i, acc) is Ok <==> forall|k: int|
            i <= k < items.len() && (#[trigger] items[k]) is Reference ==> s.current(
                items[k]->Reference_0.num,
            ) is Ok,
    decreases items.len() - i,
{
    if i < items.len() {
        let o = items[i as int];
        if is_field(s, o) {
            readable_from(s, items, i + 1, acc.push(field_at(s, o)));
        } else {
            readable_from(s, items, i + 1, acc);
        }
        if fields_from(s, items, i, acc) is Ok {
            assert forall|k: int| i <= k < items.len() && (#[trigger] items[k]) is Reference implies s.current(
                items[k]->Reference_0.num,
            ) is Ok by {
                assert(k == i || i + 1 <= k);
            }
        }
    }
}

/// A dictionary is a field where its type is that of text, its name is a text and its rectangle has
/// four numbers or more; the field has that name, the first four of the numbers, and the value, or
/// an empty one.
pub proof fn field_is_what_its_entries_say(r: ObjRef, d: DictModel)
    ensures
        field_of(r, d) is Some <==> {
            &&& entry(d, "FT"@) == Some(ObjectModel::Name("Tx"@))
            &&& entry(d, "T"@) is Some
            &&& entry(d, "T"@)->0.text() is Some
            &&& entry(d, "Rect"@) is Some
            &&& entry(d, "Rect"@)->0 is Array
            &&& entry(d, "Rect"@)->0->Array_0.len() >= 4
        },
        field_of(r, d) is Some ==> {
            let f = field_of(r, d)->0;
            &&& f.obj_ref == r
            &&& Some(f.name) == entry(d, "T"@)->0.text()
            &&& f.rect.len() == 4
            &&& forall|k: int|
                0 <= k < 4 ==> #[trigger] f.rect[k] == number_of(entry(d, "Rect"@)->0->Array_0[k])
            &&& entry(d, "V"@) is Some && entry(d, "V"@)->0.text() is Some ==> Some(f.value) == entry(
                d,
                "V"@,
            )->0.text()
            &&& entry(d, "V"@) is None || entry(d, "V"@)->0.text() is None ==> f.value.len() == 0
        },
{
}

/// The item has a name, as the document was read.
pub open spec fn has_name(doc: DocModel, o: ObjectModel, name: Seq<char>) -> bool {
    &&& o is Reference
    &&& doc.resolved(o->Reference_0) is Ok
    &&& doc.resolved(o->Reference_0)->Ok_0.dict() is Some
    &&& text_under(doc.resolved(o->Reference_0)->Ok_0.dict()->0, "T"@) == Some(name)
}

proof fn first_from(doc: DocModel, items: Seq<ObjectModel>, i: nat, k: int, name: Seq<char>)
    requires
        i <= k < items.len(),
        has_name(doc, items[k], name),
        forall|j: int| i <= j < k ==> !has_name(doc, #[trigger] items[j], name),
        forall|j: int|
            i <= j < k && (#[trigger] items[j]) is Reference ==> doc.resolved(items[j]->Reference_0) is Ok,
    ensures
        named_from(doc, items, i, name) == Ok::<ObjRef, EditFault>(items[k]->Reference_0),
    decreases k - i,
{
    if i < k {
        assert(!has_name(doc, items[i as int], name));
        first_from(doc, items, i + 1, k, name);
    }
}

/// A value is set in the first field with the name.
pub proof fn first_field_with_the_name(doc: DocModel, items: Seq<ObjectModel>, k: int, name: Seq<char>)
    requires
        form_items(doc) == Ok::<Seq<ObjectModel>, EditFault>(items),
        0 <= k < items.len(),
        has_name(doc, items[k], name),
        forall|j: int| 0 <= j < k ==> !has_name(doc, #[trigger] items[j], name),
        forall|j: int|
            0 <= j < k && (#[trigger] items[j]) is Reference ==> doc.resolved(items[j]->Reference_0) is Ok,
    ensures
        named_field(doc, name) == Ok::<ObjRef, EditFault>(items[k]->Reference_0),
{
    first_from(doc, items, 0, k, name);
}

/// No field has a name that no item has.
pub proof fn no_field_without_the_name(doc: DocModel, items: Seq<ObjectModel>, name: Seq<char>)
    requires
        form_items(doc) == Ok::<Seq<ObjectModel>, EditFault>(items),
        forall|j: int| 0 <= j < items.len() ==> !has_name(doc, #[trigger] items[j], name),
        forall|j: int|
            0 <= j < items.len() && (#[trigger] items[j]) is Reference ==> doc.resolved(
                items[j]->Reference_0,
            ) is Ok,
    ensures
        named_field(doc, name) == Err::<ObjRef, EditFault>(EditFault::Refused(Refusal::NoSuchField)),
{
    none_from(doc, items, 0, name);
}

proof fn none_from(doc: DocModel, items: Seq<ObjectModel>, i: nat, name: Seq<char>)
    requires
        forall|j: int| i <= j < items.len() ==> !has_name(doc, #[trigger] items[j], name),
        forall|j: int|
            i <= j < items.len() && (#[trigger] items[j]) is Reference ==> doc.resolved(
                items[j]->Reference_0,
            ) is Ok,
    ensures
        named_from(doc, items, i, name) == Err::<ObjRef, EditFault>(
            EditFault::Refused(Refusal::NoSuchField),
        ),
    decreases items.len() - i,
{
    if i < items.len() {
        assert(!has_name(doc, items[i as int], name));
        none_from(doc, items, i + 1, name);
    }
}

} // verus!
