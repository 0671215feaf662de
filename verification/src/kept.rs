//! Saving keeps all that was not saved: what a file said before, it says again when it is opened
//! with more saved behind it.
use vstd::prelude::*;
use crate::bytes::find_last;
use crate::document::{opened, DocModel};
use crate::edit_model::SessionModel;
use crate::error::ErrorModel;
use crate::lasting::{extends, section_inside, section_lasts};
use crate::reading::{reading_lasts, reads_inside};
use crate::lexer::{escape, hex_digit, hex_from, lex, literal_from, octal_len_bounds, skip_blank, whitespace};
use crate::object::{entry, DictModel, ObjRef, ObjectModel};
use crate::reopen::{added_at, added_places, added_table, saved_chain, saved_object_is_found, trailer_back, with_entries};
use crate::roundtrip::{dict_back, read_back, writable, writable_dict};
use crate::save::{ended_line, file_with, listed, ordered, placed, put_in_order, saved, Numbered};
use crate::table::{number_list, number_list_lists};
use crate::xref::{chain_from, offset_of, section_at, seen_shrinks, startxref_offset, startxref_word, tail_start, unseen, xref_of, XrefEntry, XrefModel};

verus! {

/// The sections from `offset` on all end inside the data, as they do in the longer data `b`.
pub open spec fn chain_inside(d: Seq<u8>, b: Seq<u8>, offset: int, seen: Set<int>) -> bool
    decreases unseen(d, seen),
    via chain_inside_shrinks
{
    if seen.contains(offset) || offset < 0 {
        true
    } else if offset >= d.len() {
        false
    } else {
        section_inside(d, b, offset) && match section_at(d, offset) {
            Err(_) => true,
            Ok((_, trailer)) => match entry(trailer, "Prev"@) {
                Some(o) => match o.integer() {
                    Some(n) => chain_inside(d, b, n as int, seen.insert(offset)),
                    None => true,
                },
                None => true,
            },
        }
    }
}

#[via_fn]
proof fn chain_inside_shrinks(d: Seq<u8>, b: Seq<u8>, offset: int, seen: Set<int>) {
    if !seen.contains(offset) && 0 <= offset < d.len() {
        seen_shrinks(d, seen, offset);
    }
}

/// A chain that ends inside the data reads the same when more is written behind them, whatever
/// offset behind the data was seen before.
proof fn chain_lasts(
    d: Seq<u8>,
    b: Seq<u8>,
    offset: int,
    seen: Set<int>,
    x: int,
    table: XrefModel,
    trailer: DictModel,
)
    requires
        extends(b, d),
        d.len() <= x,
        chain_inside(d, b, offset, seen),
    ensures
        chain_from(b, offset, seen.insert(x), table, trailer) == chain_from(
            d,
            offset,
            seen,
            table,
            trailer,
        ),
    decreases unseen(d, seen),
{
    if !seen.contains(offset) && 0 <= offset < d.len() {
        section_lasts(d, b, offset);
        seen_shrinks(d, seen, offset);
        if let Ok((older_table, older_trailer)) = section_at(d, offset) {
            let all_table = older_table.union_prefer_right(table);
            let all_trailer = older_trailer.union_prefer_right(trailer);
            if let Some(o) = entry(older_trailer, "Prev"@) {
                if let Some(n) = o.integer() {
                    assert(seen.insert(x).insert(offset) =~= seen.insert(offset).insert(x));
                    chain_lasts(d, b, n as int, seen.insert(offset), x, all_table, all_trailer);
                }
            }
        }
    }
}

/// What later sections say holds over all that a chain says.
proof fn chain_adds(
    d: Seq<u8>,
    offset: int,
    seen: Set<int>,
    table: XrefModel,
    trailer: DictModel,
    over: XrefModel,
    above: DictModel,
)
    ensures
        chain_from(
            d,
            offset,
            seen,
            table.union_prefer_right(over),
            trailer.union_prefer_right(above),
        ) == (
            chain_from(d, offset, seen, table, trailer).0.union_prefer_right(over),
            chain_from(d, offset, seen, table, trailer).1.union_prefer_right(above),
        ),
    decreases unseen(d, seen),
{
    if !seen.contains(offset) && 0 <= offset < d.len() {
        seen_shrinks(d, seen, offset);
        if let Ok((older_table, older_trailer)) = section_at(d, offset) {
            let all_table = older_table.union_prefer_right(table);
            let all_trailer = older_trailer.union_prefer_right(trailer);
            assert(older_table.union_prefer_right(table.union_prefer_right(over))
                =~= all_table.union_prefer_right(over));
            assert(older_trailer.union_prefer_right(trailer.union_prefer_right(above))
                =~= all_trailer.union_prefer_right(above));
            if let Some(o) = entry(older_trailer, "Prev"@) {
                if let Some(n) = o.integer() {
                    chain_adds(d, n as int, seen.insert(offset), all_table, all_trailer, over, above);
                }
            }
        }
    }
}

/// An object has a number.
pub open spec fn among(objects: Seq<Numbered>, num: u32) -> bool {
    exists|i: int| 0 <= i < objects.len() && (#[trigger] objects[i]).0.num == num
}

/// Entries put in order have no other numbers than those that were given.
proof fn ordered_numbers(s: Seq<(u32, int)>, n: nat, num: u32)
    requires
        n <= s.len(),
        forall|i: int| 0 <= i < n ==> (#[trigger] s[i]).0 != num,
    ensures
        forall|i: int| 0 <= i < ordered(s, n).len() ==> (#[trigger] ordered(s, n)[i]).0 != num,
    decreases n,
{
    if n > 0 {
        ordered_numbers(s, (n - 1) as nat, num);
        put_in_order_numbers(ordered(s, (n - 1) as nat), s[n - 1], num);
    }
}

proof fn put_in_order_numbers(s: Seq<(u32, int)>, e: (u32, int), num: u32)
    requires
        e.0 != num,
        forall|i: int| 0 <= i < s.len() ==> (#[trigger] s[i]).0 != num,
    ensures
        forall|i: int|
            0 <= i < put_in_order(s, e).len() ==> (#[trigger] put_in_order(s, e)[i]).0 != num,
    decreases s.len(),
{
    if s.len() > 0 && s.last().0 > e.0 {
        let front = put_in_order(s.drop_last(), e);
        put_in_order_numbers(s.drop_last(), e, num);
        assert(put_in_order(s, e) == front.push(s.last()));
        assert forall|i: int| 0 <= i < front.len() + 1 implies (#[trigger] put_in_order(
            s,
            e,
        )[i]).0 != num by {
            if i < front.len() {
                assert(front[i].0 != num);
            } else {
                assert(s[s.len() - 1].0 != num);
            }
        }
    } else {
        assert(put_in_order(s, e) == s.push(e));
    }
}

proof fn entries_numbers(table: XrefModel, s: Seq<(u32, int)>, i: int, num: u32)
    requires
        0 <= i <= s.len(),
        !table.contains_key(num),
        table.dom().finite(),
        forall|k: int| 0 <= k < s.len() ==> (#[trigger] s[k]).0 != num,
    ensures
        !with_entries(table, s, i, s.len() as int).contains_key(num),
    decreases s.len() - i,
{
    if i < s.len() {
        entries_numbers(
            table.insert(s[i].0, XrefEntry::Offset(offset_of(s[i].1))),
            s,
            i + 1,
            num,
        );
    }
}

proof fn entries_finite(table: XrefModel, s: Seq<(u32, int)>, i: int)
    requires
        0 <= i <= s.len(),
        table.dom().finite(),
    ensures
        with_entries(table, s, i, s.len() as int).dom().finite(),
    decreases s.len() - i,
{
    if i < s.len() {
        entries_finite(table.insert(s[i].0, XrefEntry::Offset(offset_of(s[i].1))), s, i + 1);
    }
}

/// The table of what was saved has no other numbers.
proof fn added_numbers(doc: DocModel, objects: Seq<Numbered>, num: u32)
    requires
        !among(objects, num),
    ensures
        !added_table(doc, objects).contains_key(num),
{
    let base = ended_line(doc.data).len() as int;
    let places = placed(objects, base);
    assert forall|i: int| 0 <= i < objects.len() implies (#[trigger] places[i]).0 != num by {
        assert(objects[i].0.num != num);
    }
    ordered_numbers(places, objects.len(), num);
    entries_numbers(Map::empty(), added_places(doc, objects), 0, num);
}

/// Neither the object `num` nor any object stream that it is in was saved, and what is read for it,
/// where the table has it, an object or an error, is read inside the data, as it is in the longer
/// data `b`.
pub open spec fn untouched(doc: DocModel, objects: Seq<Numbered>, b: Seq<u8>, num: u32, seen: Set<u32>) -> bool
    decreases doc.xref.dom().difference(seen).len(),
    via untouched_shrinks
{
    &&& !among(objects, num)
    &&& doc.xref.dom().finite()
    &&& doc.xref.contains_key(num) ==> match doc.xref[num] {
        XrefEntry::Offset(offset) => offset <= doc.data.len() && reads_inside(
            doc.data,
            b,
            offset as int,
        ),
        XrefEntry::Compressed { stream_num, index } => seen.contains(num) || untouched(
            doc,
            objects,
            b,
            stream_num,
            seen.insert(num),
        ),
    }
}

#[via_fn]
proof fn untouched_shrinks(doc: DocModel, objects: Seq<Numbered>, b: Seq<u8>, num: u32, seen: Set<u32>) {
    if doc.xref.dom().finite() && doc.xref.contains_key(num) && !seen.contains(num) {
        fewer_left(doc.xref, num, seen);
    }
}

proof fn fewer_left(m: XrefModel, num: u32, seen: Set<u32>)
    requires
        m.dom().finite(),
        m.contains_key(num),
        !seen.contains(num),
    ensures
        m.dom().difference(seen.insert(num)).len() < m.dom().difference(seen).len(),
{
    let a = m.dom().difference(seen);
    assert(a.contains(num));
    assert(m.dom().difference(seen.insert(num)) =~= a.remove(num));
}

proof fn untouched_resolves(
    doc: DocModel,
    now: DocModel,
    objects: Seq<Numbered>,
    num: u32,
    gen: u16,
    seen: Set<u32>,
)
    requires
        extends(now.data, doc.data),
        doc.cipher is None,
        now.cipher is None,
        now.xref.dom().finite(),
        forall|n: u32|
            !among(objects, n) ==> #[trigger] now.xref.contains_key(n) == doc.xref.contains_key(n) && (
            doc.xref.contains_key(n) ==> now.xref[n] == doc.xref[n]),
        untouched(doc, objects, now.data, num, seen),
    ensures
        now.resolved_in(num, gen, seen) == doc.resolved_in(num, gen, seen),
    decreases doc.xref.dom().difference(seen).len(),
{
    assert(now.xref.contains_key(num) == doc.xref.contains_key(num));
    if doc.xref.contains_key(num) {
        match doc.xref[num] {
            XrefEntry::Offset(offset) => {
                reading_lasts(doc.data, now.data, offset as int);
            },
            XrefEntry::Compressed { stream_num, index } => {
                if !seen.contains(num) {
                    fewer_left(doc.xref, num, seen);
                    untouched_resolves(doc, now, objects, stream_num, 0, seen.insert(num));
                }
            },
        }
    }
}

/// What a saved file says: all that was saved, and of other numbers what the file said before.
pub proof fn saved_says(doc: DocModel, objects: Seq<Numbered>, root: ObjectModel, prev: int)
    requires
        writable(root),
        0 <= prev <= i64::MAX,
        file_with(doc, objects, root, prev).len() <= i64::MAX,
        file_with(doc, objects, root, prev).len() <= usize::MAX,
        chain_from(doc.data, prev, Set::empty(), Map::empty(), Map::empty()) == (
            doc.xref,
            doc.trailer,
        ),
        chain_inside(doc.data, file_with(doc, objects, root, prev), prev, Set::empty()),
        entry(doc.trailer, "Encrypt"@) is None,
    ensures
        ({
            let d = file_with(doc, objects, root, prev);
            let x = added_at(doc, objects);
            let t = doc.xref.union_prefer_right(added_table(doc, objects));
            let tr = doc.trailer.union_prefer_right(trailer_back(doc, objects, root, prev));
            &&& startxref_offset(d) == Ok::<usize, ErrorModel>(x as usize)
            &&& 0 <= x < d.len()
            &&& chain_from(d, x, Set::empty(), Map::empty(), Map::empty()) == (t, tr)
            &&& entry(tr, "Root"@) == Some(read_back(root))
            &&& entry(tr, "Encrypt"@) is None
            &&& extends(d, doc.data)
        }),
{
    let d = file_with(doc, objects, root, prev);
    let x = added_at(doc, objects);
    let table = added_table(doc, objects);
    let back = trailer_back(doc, objects, root, prev);
    saved_chain(doc, objects, root, prev);
    assert(extends(d, doc.data));
    chain_lasts(doc.data, d, prev, Set::empty(), x, table, back);
    chain_adds(doc.data, prev, Set::empty(), Map::empty(), Map::empty(), table, back);
    assert(Map::<u32, XrefEntry>::empty().union_prefer_right(table) =~= table);
    assert(Map::<Seq<char>, ObjectModel>::empty().union_prefer_right(back) =~= back);
}

/// A number that was not saved means what it meant when the saved file is opened: the same object,
/// or the same error where there is none. (The document is one that is not encrypted and was opened
/// by its cross-reference sections, which end inside the file; what is read for the number is read
/// inside the file too.)
pub proof fn unsaved_object_is_kept(
    doc: DocModel,
    objects: Seq<Numbered>,
    root: ObjectModel,
    prev: int,
    password: Seq<u8>,
    r: ObjRef,
)
    requires
        writable(root),
        0 <= prev <= i64::MAX,
        file_with(doc, objects, root, prev).len() <= i64::MAX,
        file_with(doc, objects, root, prev).len() <= usize::MAX,
        chain_from(doc.data, prev, Set::empty(), Map::empty(), Map::empty()) == (
            doc.xref,
            doc.trailer,
        ),
        chain_inside(doc.data, file_with(doc, objects, root, prev), prev, Set::empty()),
        doc.cipher is None,
        entry(doc.trailer, "Encrypt"@) is None,
        !(doc.xref.dom() =~= Set::empty()),
        untouched(doc, objects, file_with(doc, objects, root, prev), r.num, Set::empty()),
    ensures
        opened(file_with(doc, objects, root, prev), password) is Ok,
        opened(file_with(doc, objects, root, prev), password)->Ok_0.cipher is None,
        entry(opened(file_with(doc, objects, root, prev), password)->Ok_0.trailer, "Root"@) == Some(
            read_back(root),
        ),
        opened(file_with(doc, objects, root, prev), password)->Ok_0.resolved(r) == doc.resolved(r),
{
    let d = file_with(doc, objects, root, prev);
    let table = added_table(doc, objects);
    saved_says(doc, objects, root, prev);
    let t = doc.xref.union_prefer_right(table);
    let tr = doc.trailer.union_prefer_right(trailer_back(doc, objects, root, prev));
    let some = choose|n: u32| doc.xref.dom().contains(n);
    assert(doc.xref.dom().contains(some));
    assert(t.dom().contains(some));
    assert(xref_of(d) == Ok::<(XrefModel, DictModel), ErrorModel>((t, tr)));
    let now = DocModel { data: d, xref: t, trailer: tr, cipher: None };
    assert(opened(d, password) == Ok::<DocModel, ErrorModel>(now));
    entries_finite(Map::empty(), added_places(doc, objects), 0);
    assert(t.dom() =~= doc.xref.dom().union(table.dom()));
    assert forall|n: u32| !among(objects, n) implies #[trigger] t.contains_key(n)
        == doc.xref.contains_key(n) && (doc.xref.contains_key(n) ==> t[n] == doc.xref[n]) by {
        added_numbers(doc, objects, n);
    }
    untouched_resolves(doc, now, objects, r.num, r.gen, Set::empty());
}

/// A value that is written exactly: neither a real, which is rounded, nor a stream is in it.
pub open spec fn exact(o: ObjectModel) -> bool
    decreases o,
{
    match o {
        ObjectModel::Integer(n) => i64::MIN <= n <= i64::MAX,
        ObjectModel::Real(_) => false,
        ObjectModel::Stream(_, _) => false,
        ObjectModel::Array(items) => forall|i: int|
            0 <= i < items.len() ==> exact(#[trigger] items[i]),
        ObjectModel::Dictionary(d) => exact_dict(d),
        _ => true,
    }
}

/// A dictionary of values that are written exactly.
pub open spec fn exact_dict(d: DictModel) -> bool
    decreases d,
{
    d.dom().finite() && forall|k: Seq<char>| #[trigger] d.contains_key(k) ==> exact(d[k])
}

/// A value that is written exactly is read back as it is.
pub proof fn exact_is_read_back(o: ObjectModel)
    requires
        exact(o),
    ensures
        writable(o),
        read_back(o) == o,
    decreases o,
{
    match o {
        ObjectModel::Array(items) => {
            assert forall|i: int| 0 <= i < items.len() implies writable(#[trigger] items[i])
                && read_back(items[i]) == items[i] by {
                exact_is_read_back(items[i]);
            }
            assert(read_back(o)->Array_0 =~= items);
        },
        ObjectModel::Dictionary(d) => {
            exact_dict_is_read_back(d);
        },
        _ => {},
    }
}

proof fn exact_dict_is_read_back(d: DictModel)
    requires
        exact_dict(d),
    ensures
        writable_dict(d),
        dict_back(d) == d,
    decreases d,
{
    assert forall|k: Seq<char>| #[trigger] d.contains_key(k) implies writable(d[k]) && read_back(
        d[k],
    ) == d[k] by {
        exact_is_read_back(d[k]);
    }
    assert(dict_back(d) =~= d);
}

/// Saving adds to a file and takes nothing away. The file starts with what was there; opened again,
/// it has the same catalog, each object that was saved with its new value, and under every other
/// number what was there before. (The document is not encrypted and was opened by its
/// cross-reference sections, which end inside the file. The objects have different numbers and
/// values that are written exactly. What is read for another number, an object or an error, is read
/// inside the file.)
pub proof fn saving_adds_and_keeps(
    doc: DocModel,
    objects: Seq<Numbered>,
    before: Seq<u8>,
    password: Seq<u8>,
)
    requires
        opened(doc.data, before) == Ok::<DocModel, ErrorModel>(doc),
        entry(doc.trailer, "Encrypt"@) is None,
        startxref_offset(doc.data) is Ok,
        !(chain_from(
            doc.data,
            startxref_offset(doc.data)->Ok_0 as int,
            Set::empty(),
            Map::empty(),
            Map::empty(),
        ).0.dom() =~= Set::empty()),
        entry(doc.trailer, "Root"@) is Some,
        exact(entry(doc.trailer, "Root"@)->0),
        forall|i: int|
            0 <= i < objects.len() ==> exact((#[trigger] objects[i]).1),
        forall|i: int, j: int|
            0 <= i < j < objects.len() ==> (#[trigger] objects[i]).0.num != (#[trigger] objects[j]).0.num,
        saved(doc, objects)->Ok_0.len() <= i64::MAX,
        saved(doc, objects)->Ok_0.len() <= usize::MAX,
        chain_inside(
            doc.data,
            saved(doc, objects)->Ok_0,
            startxref_offset(doc.data)->Ok_0 as int,
            Set::empty(),
        ),
    ensures
        saved(doc, objects) is Ok,
        ({
            let bytes = saved(doc, objects)->Ok_0;
            let now = opened(bytes, password)->Ok_0;
            &&& extends(bytes, doc.data)
            &&& opened(bytes, password) is Ok
            &&& entry(now.trailer, "Root"@) == entry(doc.trailer, "Root"@)
            &&& forall|i: int|
                0 <= i < objects.len() ==> now.resolved((#[trigger] objects[i]).0) == Ok::<
                    ObjectModel,
                    ErrorModel,
                >(objects[i].1)
            &&& forall|r: ObjRef|
                untouched(doc, objects, bytes, r.num, Set::empty()) ==> #[trigger] now.resolved(r)
                    == doc.resolved(r)
        }),
{
    let root = entry(doc.trailer, "Root"@)->0;
    let prev = startxref_offset(doc.data)->Ok_0 as int;
    let bytes = file_with(doc, objects, root, prev);
    startxref_bound(doc.data);
    exact_is_read_back(root);
    assert(saved(doc, objects) == Ok::<Seq<u8>, ErrorModel>(bytes));
    saved_says(doc, objects, root, prev);
    let now = opened(bytes, password)->Ok_0;
    let some = choose|n: u32| doc.xref.dom().contains(n);
    assert(doc.xref.dom().contains(some));
    let t = doc.xref.union_prefer_right(added_table(doc, objects));
    assert(t.dom().contains(some));
    assert forall|i: int| 0 <= i < objects.len() implies now.resolved((#[trigger] objects[i]).0)
        == Ok::<ObjectModel, ErrorModel>(objects[i].1) by {
        exact_is_read_back(objects[i].1);
        assert forall|j: int| i < j < objects.len() implies (#[trigger] objects[j]).0.num
            != objects[i].0.num by {
            assert(objects[i].0.num != objects[j].0.num);
        }
        saved_object_is_found(doc, objects, root, prev, password, i);
    }
    assert forall|r: ObjRef| untouched(doc, objects, bytes, r.num, Set::empty()) implies
        #[trigger] now.resolved(r) == doc.resolved(r) by {
        unsaved_object_is_kept(doc, objects, root, prev, password, r);
    }
}

proof fn hex_is_no_number(d: Seq<u8>, p: int, acc: Seq<u8>)
    ensures
        hex_from(d, p, acc) is Token ==> !(hex_from(d, p, acc)->Token_0 is Integer),
    decreases d.len() - p,
{
    if 0 <= p < d.len() && d[p] != 62 {
        if whitespace(d[p]) {
            hex_is_no_number(d, p + 1, acc);
        } else if hex_digit(d[p]) is Some {
            hex_is_no_number(d, p + 1, acc.push(hex_digit(d[p])->Some_0));
        }
    }
}

proof fn literal_is_no_number(d: Seq<u8>, p: int, depth: nat, acc: Seq<u8>)
    ensures
        literal_from(d, p, depth, acc) is Token ==> !(literal_from(d, p, depth, acc)->Token_0 is Integer),
    decreases d.len() - p,
{
    if 0 <= p < d.len() {
        if d[p] == 40 {
            literal_is_no_number(d, p + 1, depth + 1, acc.push(40));
        } else if d[p] == 41 {
            if depth > 1 {
                literal_is_no_number(d, p + 1, (depth - 1) as nat, acc.push(41));
            }
        } else if d[p] == 92 {
            if p + 1 < d.len() {
                octal_len_bounds(d, p + 1, 3);
                let (bytes, next) = escape(d, p + 1);
                literal_is_no_number(d, next, depth, acc + bytes);
            }
        } else {
            literal_is_no_number(d, p + 1, depth, acc.push(d[p]));
        }
    }
}

/// The offset behind `startxref` is a number that a file can hold.
proof fn startxref_bound(d: Seq<u8>)
    ensures
        startxref_offset(d) is Ok ==> startxref_offset(d)->Ok_0 <= i64::MAX,
{
    reveal(lex);
    if let Some(i) = find_last(d.skip(tail_start(d)), startxref_word()) {
        let p = tail_start(d) + i + 9;
        let s = skip_blank(d, p, false);
        hex_is_no_number(d, s + 1, seq![]);
        literal_is_no_number(d, s + 1, 1, seq![]);
    }
}

/// What a session holds now is what the file that it saves says: an object that was changed or
/// added is found with its reals rounded, any other as it was. (The document is one that is not
/// encrypted and was opened by its cross-reference sections, which end inside the file, as do the
/// objects that were not changed.)
pub proof fn saved_session_reads_back(s: SessionModel, password: Seq<u8>, num: u32)
    requires
        saved(s.doc, listed(s.pending)) is Ok,
        saved(s.doc, listed(s.pending))->Ok_0.len() <= i64::MAX,
        saved(s.doc, listed(s.pending))->Ok_0.len() <= usize::MAX,
        s.doc.cipher is None,
        entry(s.doc.trailer, "Encrypt"@) is None,
        writable(s.doc.trailer["Root"@]),
        chain_from(
            s.doc.data,
            startxref_offset(s.doc.data)->Ok_0 as int,
            Set::empty(),
            Map::empty(),
            Map::empty(),
        ) == (s.doc.xref, s.doc.trailer),
        chain_inside(
            s.doc.data,
            saved(s.doc, listed(s.pending))->Ok_0,
            startxref_offset(s.doc.data)->Ok_0 as int,
            Set::empty(),
        ),
        if s.pending.contains_key(num) {
            writable(s.pending[num])
        } else {
            !(s.doc.xref.dom() =~= Set::empty()) && untouched(
                s.doc,
                listed(s.pending),
                saved(s.doc, listed(s.pending))->Ok_0,
                num,
                Set::empty(),
            )
        },
    ensures
        ({
            let bytes = saved(s.doc, listed(s.pending))->Ok_0;
            let now = opened(bytes, password)->Ok_0;
            &&& opened(bytes, password) is Ok
            &&& now.cipher is None
            &&& entry(now.trailer, "Root"@) == Some(read_back(s.doc.trailer["Root"@]))
            &&& now.resolved(ObjRef { num, gen: 0 }) == if s.pending.contains_key(num) {
                Ok::<ObjectModel, ErrorModel>(read_back(s.pending[num]))
            } else {
                s.current(num)
            }
        }),
{
    let doc = s.doc;
    let objects = listed(s.pending);
    let root = doc.trailer["Root"@];
    let prev = startxref_offset(doc.data)->Ok_0 as int;
    startxref_bound(doc.data);
    assert(saved(doc, objects)->Ok_0 == file_with(doc, objects, root, prev));
    number_list_lists(s.pending);
    let list = number_list(s.pending);
    if s.pending.contains_key(num) {
        assert(list.contains(num));
        let i = list.index_of(num);
        assert(objects[i] == (ObjRef { num, gen: 0 }, s.pending[num]));
        assert forall|j: int| i < j < objects.len() implies (#[trigger] objects[j]).0.num
            != objects[i].0.num by {
            assert(list[i] < list[j]);
        }
        saved_object_is_found(doc, objects, root, prev, password, i);
        saved_says(doc, objects, root, prev);
    } else {
        unsaved_object_is_kept(doc, objects, root, prev, password, ObjRef { num, gen: 0 });
    }
}

} // verus!
