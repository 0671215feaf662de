//! Documents written: changes behind the file as it is, or a new file.
use std::collections::BTreeMap;
use vstd::prelude::*;
use crate::copying::made_model;
use crate::decimal::{decimal, padded, push_decimal, push_padded};
use crate::document::{DocModel, Document};
use crate::error::{ErrorModel, PdfError};
use crate::object::{entry, DictModel, Dictionary, ObjRef, Object, ObjectModel};
use crate::table::{is_greatest, lists_numbers, lookup, number_list, number_list_unique, numbers};
use crate::writer::{indirect_bytes, object_bytes, write_indirect_object, write_object};
use crate::xref::{find_startxref_offset, startxref_offset};

verus! {

/// An object with its number and its generation.
pub type Numbered = (ObjRef, ObjectModel);

/// Objects by what they say.
pub open spec fn numbered(objects: Seq<(ObjRef, Object)>) -> Seq<Numbered> {
    objects.map_values(|e: (ObjRef, Object)| (e.0, e.1@))
}

/// The first `n` objects as they are written.
pub open spec fn bodies(objects: Seq<Numbered>, n: nat) -> Seq<u8>
    decreases n,
{
    if n == 0 {
        seq![]
    } else {
        bodies(objects, (n - 1) as nat) + indirect_bytes(
            objects[n - 1].0.num,
            objects[n - 1].0.gen,
            objects[n - 1].1,
        )
    }
}

/// The numbers of the objects with their offsets, where the first is written at `base`.
pub open spec fn placed(objects: Seq<Numbered>, base: int) -> Seq<(u32, int)> {
    Seq::new(
        objects.len(),
        |i: int| (objects[i].0.num, base + bodies(objects, i as nat).len()),
    )
}

/// Puts an entry behind all those with a number not greater than its own.
pub open spec fn put_in_order(s: Seq<(u32, int)>, e: (u32, int)) -> Seq<(u32, int)>
    decreases s.len(),
{
    if s.len() > 0 && s.last().0 > e.0 {
        put_in_order(s.drop_last(), e).push(s.last())
    } else {
        s.push(e)
    }
}

/// The first `n` entries in the order of their numbers; those with one number keep their order.
pub open spec fn ordered(s: Seq<(u32, int)>, n: nat) -> Seq<(u32, int)>
    decreases n,
{
    if n == 0 {
        seq![]
    } else {
        put_in_order(ordered(s, (n - 1) as nat), s[n - 1])
    }
}

/// Where the run of consecutive numbers that starts at `i` ends.
pub open spec fn run_end(s: Seq<(u32, int)>, i: int) -> int
    decreases s.len() - i,
{
    if 0 <= i && i + 1 < s.len() && s[i + 1].0 == s[i].0 + 1 {
        run_end(s, i + 1)
    } else {
        i + 1
    }
}

/// ` 00000 n ` and the end of the line.
pub open spec fn in_use() -> Seq<u8> {
    seq![32u8, 48, 48, 48, 48, 48, 32, 110, 32, 10]
}

/// The entries from `i` to `j` as they are written.
pub open spec fn row_lines(s: Seq<(u32, int)>, i: int, j: int) -> Seq<u8>
    decreases j - i,
{
    if i >= j {
        seq![]
    } else {
        padded(s[i].1 as nat, 10) + in_use() + row_lines(s, i + 1, j)
    }
}

/// The subsections from the entry `i` on as they are written: one for each run of numbers.
pub open spec fn subsection_lines(s: Seq<(u32, int)>, i: int) -> Seq<u8>
    decreases s.len() - i,
    via subsection_lines_shrink
{
    if i < 0 || i >= s.len() {
        seq![]
    } else {
        let j = run_end(s, i);
        decimal(s[i].0 as nat) + seq![32u8] + decimal((j - i) as nat) + seq![10u8] + row_lines(
            s,
            i,
            j,
        ) + subsection_lines(s, j)
    }
}

#[via_fn]
proof fn subsection_lines_shrink(s: Seq<(u32, int)>, i: int) {
    if 0 <= i < s.len() {
        run_end_bounds(s, i);
    }
}

pub proof fn run_end_bounds(s: Seq<(u32, int)>, i: int)
    requires
        0 <= i < s.len(),
    ensures
        i < run_end(s, i) <= s.len(),
        forall|k: int| i <= k < run_end(s, i) ==> (#[trigger] s[k]).0 == s[i].0 + (k - i),
    decreases s.len() - i,
{
    if i + 1 < s.len() && s[i + 1].0 == s[i].0 + 1 {
        run_end_bounds(s, i + 1);
    }
}

/// `xref` on a line of its own.
pub open spec fn xref_line() -> Seq<u8> {
    seq![120u8, 114, 101, 102, 10]
}

/// `trailer` on a line of its own.
pub open spec fn trailer_line() -> Seq<u8> {
    seq![116u8, 114, 97, 105, 108, 101, 114, 10]
}

/// `startxref` on a line of its own, behind another.
pub open spec fn startxref_line() -> Seq<u8> {
    seq![10u8, 115, 116, 97, 114, 116, 120, 114, 101, 102, 10]
}

/// The last line of a file.
pub open spec fn eof_line() -> Seq<u8> {
    seq![10u8, 37, 37, 69, 79, 70, 10]
}

/// A cross-reference section at `offset` as it is written, up to the end of the file.
pub open spec fn section_text(head: Seq<u8>, s: Seq<(u32, int)>, trailer: DictModel, offset: int) -> Seq<u8> {
    xref_line() + head + subsection_lines(s, 0) + trailer_line() + object_bytes(
        ObjectModel::Dictionary(trailer),
    ) + startxref_line() + decimal(offset as nat) + eof_line()
}

/// The file with a line end behind it.
pub open spec fn ended_line(d: Seq<u8>) -> Seq<u8> {
    if d.len() > 0 && d.last() == 10 {
        d
    } else {
        d.push(10)
    }
}

/// The greatest of a number and those of the objects.
pub open spec fn greatest_with(n: int, s: Seq<(u32, int)>) -> int {
    if s.len() > 0 && s.last().0 > n {
        s.last().0 as int
    } else {
        n
    }
}

/// The greatest number in use.
pub open spec fn greatest_in(doc: DocModel) -> u32 {
    choose|n: u32| is_greatest(doc.xref, n)
}

proof fn greatest_is_one(m: crate::xref::XrefModel, a: u32, b: u32)
    requires
        is_greatest(m, a),
        is_greatest(m, b),
    ensures
        a == b,
{
    assert(m.contains_key(a) ==> a <= b);
    assert(m.contains_key(b) ==> b <= a);
}

/// The trailer of an added section.
pub open spec fn added_trailer(size: int, root: ObjectModel, prev: int) -> DictModel {
    Map::empty().insert("Size"@, ObjectModel::Integer(size)).insert("Root"@, root).insert(
        "Prev"@,
        ObjectModel::Integer(prev),
    )
}

/// A file with objects written behind it.
pub open spec fn file_with(
    doc: DocModel,
    objects: Seq<Numbered>,
    root: ObjectModel,
    prev: int,
) -> Seq<u8> {
    let start = ended_line(doc.data);
    let body = start + bodies(objects, objects.len());
    let s = ordered(placed(objects, start.len() as int), objects.len());
    let trailer = added_trailer(greatest_with(greatest_in(doc) as int, s) + 1, root, prev);
    body + section_text(seq![], s, trailer, body.len() as int)
}

/// What saving objects behind a file gives.
pub open spec fn saved(doc: DocModel, objects: Seq<Numbered>) -> Result<Seq<u8>, ErrorModel> {
    match startxref_offset(doc.data) {
        Err(e) => Err(e),
        Ok(prev) => match entry(doc.trailer, "Root"@) {
            None => Err(ErrorModel::MissingKey("Root"@)),
            Some(root) => Ok(file_with(doc, objects, root, prev as int)),
        },
    }
}

/// The objects of a table in the order of their numbers, all of generation 0.
pub open spec fn listed(m: Map<u32, ObjectModel>) -> Seq<Numbered> {
    number_list(m).map_values(|n: u32| (ObjRef { num: n, gen: 0 }, m[n]))
}

/// The first line of a file.
pub open spec fn header_line() -> Seq<u8> {
    seq![37u8, 80, 68, 70, 45, 49, 46, 55, 10]
}

/// The subsection of the number that no object has.
#[verifier::opaque]
pub open spec fn free_head() -> Seq<u8> {
    seq![
        48u8,
        32,
        49,
        10,
        48,
        48,
        48,
        48,
        48,
        48,
        48,
        48,
        48,
        48,
        32,
        54,
        53,
        53,
        51,
        53,
        32,
        102,
        32,
        10,
    ]
}

/// The trailer of a new file.
pub open spec fn own_trailer(size: int, root: ObjRef) -> DictModel {
    Map::empty().insert("Size"@, ObjectModel::Integer(size)).insert(
        "Root"@,
        ObjectModel::Reference(root),
    )
}

/// A new file with some objects.
pub open spec fn standalone(objects: Seq<Numbered>, root: ObjRef) -> Seq<u8> {
    let start = header_line();
    let body = start + bodies(objects, objects.len());
    let s = ordered(placed(objects, start.len() as int), objects.len());
    body + section_text(
        free_head(),
        s,
        own_trailer(greatest_with(0, s) + 1, root),
        body.len() as int,
    )
}

/// Entries by what they say.
spec fn entry_pairs(s: Seq<(u32, usize)>) -> Seq<(u32, int)> {
    s.map_values(|e: (u32, usize)| (e.0, e.1 as int))
}

/// Puts an entry behind all those with a number not greater than its own.
fn insert_ordered(s: &mut Vec<(u32, usize)>, e: (u32, usize))
    ensures
        entry_pairs(final(s)@) == put_in_order(entry_pairs(old(s)@), (e.0, e.1 as int)),
{
    let ghost all = entry_pairs(s@);
    let mut i: usize = s.len();
    let ghost pair = (e.0, e.1 as int);
    assert(all.take(all.len() as int) =~= all);
    assert(all.skip(all.len() as int) =~= seq![]);
    assert(put_in_order(all, pair) =~= put_in_order(all, pair) + all.skip(all.len() as int));
    while i > 0 && s[i - 1].0 > e.0
        invariant
            0 <= i <= s@.len(),
            all == entry_pairs(s@),
            pair == (e.0, e.1 as int),
            put_in_order(all, pair) == put_in_order(all.take(i as int), pair) + all.skip(i as int),
        decreases i,
    {
        proof {
            let front = all.take(i as int);
            assert(front.last() == all[i - 1]);
            assert(front.drop_last() =~= all.take(i - 1));
            assert(put_in_order(front, pair) == put_in_order(all.take(i - 1), pair).push(
                all[i - 1],
            ));
            assert(put_in_order(all.take(i - 1), pair).push(all[i - 1]) + all.skip(i as int)
                =~= put_in_order(all.take(i - 1), pair) + all.skip(i - 1));
        }
        i -= 1;
    }
    proof {
        let front = all.take(i as int);
        if i > 0 {
            assert(front.last() == all[i - 1]);
            assert(all[i - 1].0 == s@[i - 1].0);
        }
        assert(put_in_order(front, pair) == front.push(pair));
        assert(entry_pairs(s@.insert(i as int, e)) =~= front.push(pair) + all.skip(i as int));
    }
    s.insert(i, e);
}

/// Writes the entries from `i` to `j`.
fn write_rows(s: &Vec<(u32, usize)>, i: usize, j: usize, out: &mut Vec<u8>)
    requires
        i <= j <= s@.len(),
    ensures
        final(out)@ == old(out)@ + row_lines(entry_pairs(s@), i as int, j as int),
{
    let ghost goal = out@ + row_lines(entry_pairs(s@), i as int, j as int);
    let mut k: usize = i;
    while k < j
        invariant
            i <= k <= j <= s@.len(),
            goal == out@ + row_lines(entry_pairs(s@), k as int, j as int),
        decreases j - k,
    {
        let ghost before = out@;
        push_padded(out, s[k].1 as u64, 10);
        let rest: [u8; 10] = [32, 48, 48, 48, 48, 48, 32, 110, 32, 10];
        out.extend_from_slice(rest.as_slice());
        proof {
            let line = padded(s@[k as int].1 as nat, 10) + in_use();
            assert(rest@ =~= in_use());
            assert(entry_pairs(s@)[k as int].1 == s@[k as int].1);
            assert(out@ =~= before + line);
            let more = row_lines(entry_pairs(s@), k + 1, j as int);
            assert(before + (line + more) =~= out@ + more);
        }
        k += 1;
    }
    assert(out@ + row_lines(entry_pairs(s@), k as int, j as int) =~= out@);
}

/// Writes the subsections of a cross-reference table.
fn write_subsections(s: &Vec<(u32, usize)>, out: &mut Vec<u8>)
    ensures
        final(out)@ == old(out)@ + subsection_lines(entry_pairs(s@), 0),
{
    let ghost es = entry_pairs(s@);
    let ghost goal = out@ + subsection_lines(es, 0);
    let mut i: usize = 0;
    while i < s.len()
        invariant
            0 <= i <= s@.len(),
            es == entry_pairs(s@),
            goal == out@ + subsection_lines(es, i as int),
        decreases s@.len() - i,
    {
        let mut j: usize = i;
        while j < s.len() - 1 && s[j].0 < u32::MAX && s[j + 1].0 == s[j].0 + 1
            invariant
                i <= j < s@.len(),
                es == entry_pairs(s@),
                run_end(es, i as int) == run_end(es, j as int),
            decreases s@.len() - j,
        {
            assert(es[j as int].0 == s@[j as int].0);
            assert(es[j + 1].0 == s@[j + 1].0);
            j += 1;
        }
        proof {
            assert(es[j as int].0 == s@[j as int].0);
            if j + 1 < s@.len() {
                assert(es[j + 1].0 == s@[j + 1].0);
            }
            assert(run_end(es, i as int) == j + 1);
        }
        let ghost before = out@;
        push_decimal(out, s[i].0 as u64);
        out.push(32);
        push_decimal(out, (j - i + 1) as u64);
        out.push(10);
        write_rows(s, i, j + 1, out);
        proof {
            let text = decimal(es[i as int].0 as nat) + seq![32u8] + decimal(
                (j + 1 - i) as nat,
            ) + seq![10u8] + row_lines(es, i as int, j + 1);
            assert(out@ =~= before + text);
            let more = subsection_lines(es, j + 1);
            assert(before + (text + more) =~= out@ + more);
        }
        i = j + 1;
    }
    assert(out@ + subsection_lines(es, i as int) =~= out@);
}

/// Writes a cross-reference section where `out` ends, up to the end of the file.
fn write_section(head: &[u8], s: &Vec<(u32, usize)>, trailer: &Dictionary, out: &mut Vec<u8>)
    ensures
        final(out)@ == old(out)@ + section_text(
            head@,
            entry_pairs(s@),
            trailer@,
            old(out)@.len() as int,
        ),
{
    let ghost before = out@;
    let offset: usize = out.len();
    let xref: [u8; 5] = [120, 114, 101, 102, 10];
    out.extend_from_slice(xref.as_slice());
    out.extend_from_slice(head);
    write_subsections(s, out);
    let word: [u8; 8] = [116, 114, 97, 105, 108, 101, 114, 10];
    out.extend_from_slice(word.as_slice());
    let object = Object::Dictionary(trailer.clone());
    write_object(&object, out);
    let start: [u8; 11] = [10, 115, 116, 97, 114, 116, 120, 114, 101, 102, 10];
    out.extend_from_slice(start.as_slice());
    push_decimal(out, offset as u64);
    let eof: [u8; 7] = [10, 37, 37, 69, 79, 70, 10];
    out.extend_from_slice(eof.as_slice());
    assert(xref@ =~= xref_line());
    assert(word@ =~= trailer_line());
    assert(start@ =~= startxref_line());
    assert(eof@ =~= eof_line());
    assert(out@ =~= before + section_text(
        head@,
        entry_pairs(s@),
        trailer@,
        before.len() as int,
    ));
}

/// Writes objects one behind the other; gives their numbers and offsets in order.
fn write_bodies(objects: &[(ObjRef, Object)], out: &mut Vec<u8>) -> (s: Vec<(u32, usize)>)
    ensures
        final(out)@ == old(out)@ + bodies(numbered(objects@), objects@.len()),
        entry_pairs(s@) == ordered(
            placed(numbered(objects@), old(out)@.len() as int),
            objects@.len(),
        ),
{
    let ghost base = out@;
    let ghost ns = numbered(objects@);
    let mut s: Vec<(u32, usize)> = Vec::new();
    assert(entry_pairs(s@) =~= seq![]);
    assert(out@ =~= base + bodies(ns, 0));
    let mut i: usize = 0;
    while i < objects.len()
        invariant
            0 <= i <= objects@.len(),
            ns == numbered(objects@),
            out@ == base + bodies(ns, i as nat),
            entry_pairs(s@) == ordered(placed(ns, base.len() as int), i as nat),
        decreases objects@.len() - i,
    {
        let e = &objects[i];
        let ghost before = out@;
        proof {
            assert(ns[i as int] == (e.0, e.1@));
            assert(placed(ns, base.len() as int)[i as int] == (e.0.num, before.len() as int));
        }
        insert_ordered(&mut s, (e.0.num, out.len()));
        write_indirect_object(e.0.num, e.0.gen, &e.1, out);
        assert(out@ =~= base + bodies(ns, (i + 1) as nat));
        i += 1;
    }
    s
}

impl Document {
    /// Adds objects, new ones or new versions of old ones, behind the file as it is, with a
    /// cross-reference section and a trailer that lead back to those before. The bytes of the
    /// file are not changed.
    pub fn save_incremental(&self, objects: &[(ObjRef, Object)]) -> (r: Result<Vec<u8>, PdfError>)
        ensures
            match saved(self@, numbered(objects@)) {
                Ok(bytes) => r is Ok && r->Ok_0@ == bytes,
                Err(e) => r is Err && r->Err_0@ == e,
            },
    {
        let prev: usize = match find_startxref_offset(self.raw_bytes()) {
            Ok(n) => n,
            Err(e) => {
                return Err(e);
            },
        };
        let root = match self.trailer().get("Root") {
            None => {
                return Err(PdfError::MissingKey("Root".to_owned()));
            },
            Some(o) => o.clone(),
        };
        let mut out = crate::object::clone_bytes(self.raw_bytes());
        if out.len() == 0 || out[out.len() - 1] != 10 {
            out.push(10);
        }
        assert(out@ == ended_line(self@.data));
        let s = write_bodies(objects, &mut out);
        let old_greatest: u32 = self.greatest_object_num();
        let size: i64 = if s.len() > 0 && s[s.len() - 1].0 > old_greatest {
            s[s.len() - 1].0 as i64 + 1
        } else {
            old_greatest as i64 + 1
        };
        proof {
            if s@.len() > 0 {
                assert(entry_pairs(s@).last().0 == s@.last().0);
            }
            assert(is_greatest(self@.xref, old_greatest));
            greatest_is_one(self@.xref, old_greatest, greatest_in(self@));
        }
        let mut trailer = Dictionary::new();
        trailer.insert("Size", Object::Integer(size));
        trailer.insert("Root", root);
        trailer.insert("Prev", Object::Integer(prev as i64));
        let none: [u8; 0] = [];
        assert(none@ =~= seq![]);
        write_section(none.as_slice(), &s, &trailer, &mut out);
        Ok(out)
    }
}

/// The objects of a table in the order of their numbers.
pub fn objects_of(m: &BTreeMap<u32, Object>) -> (r: Vec<(ObjRef, Object)>)
    ensures
        numbered(r@) == listed(made_model(m@)),
{
    let nums = numbers(m);
    let ghost ms = made_model(m@);
    let mut r: Vec<(ObjRef, Object)> = Vec::new();
    let mut i: usize = 0;
    while i < nums.len()
        invariant
            0 <= i <= nums@.len(),
            lists_numbers(m@, nums@),
            ms == made_model(m@),
            r@.len() == i,
            forall|j: int|
                0 <= j < i ==> (#[trigger] r@[j]).0 == (ObjRef { num: nums@[j], gen: 0 }) && r@[j].1@
                    == ms[nums@[j]],
        decreases nums@.len() - i,
    {
        let n: u32 = nums[i];
        assert(nums@.contains(n));
        let o = match lookup(m, n) {
            Some(o) => o.clone(),
            None => Object::Null,
        };
        r.push((ObjRef::new(n, 0), o));
        i += 1;
    }
    proof {
        assert forall|n: u32| ms.contains_key(n) <==> nums@.contains(n) by {
            assert(m@.contains_key(n) <==> nums@.contains(n));
        }
        assert(lists_numbers(ms, nums@));
        number_list_unique(ms, nums@, number_list(ms));
        assert(numbered(r@) =~= listed(ms));
    }
    r
}

/// Writes a new file with some objects.
pub fn write_standalone(objects: &[(ObjRef, Object)], root: ObjRef) -> (r: Vec<u8>)
    ensures
        r@ == standalone(numbered(objects@), root),
{
    let header: [u8; 9] = [37, 80, 68, 70, 45, 49, 46, 55, 10];
    let mut out = crate::object::clone_bytes(header.as_slice());
    assert(out@ =~= header_line());
    let s = write_bodies(objects, &mut out);
    let size: i64 = if s.len() > 0 {
        s[s.len() - 1].0 as i64 + 1
    } else {
        1
    };
    let mut trailer = Dictionary::new();
    trailer.insert("Size", Object::Integer(size));
    trailer.insert("Root", Object::Reference(root));
    let head: [u8; 24] = [
        48,
        32,
        49,
        10,
        48,
        48,
        48,
        48,
        48,
        48,
        48,
        48,
        48,
        48,
        32,
        54,
        53,
        53,
        51,
        53,
        32,
        102,
        32,
        10,
    ];
    proof {
        reveal(free_head);
        assert(head@ =~= free_head());
        if s@.len() > 0 {
            assert(entry_pairs(s@).last().0 == s@.last().0);
        }
        assert(entry_pairs(s@).len() == s@.len());
    }
    write_section(head.as_slice(), &s, &trailer, &mut out);
    out
}

} // verus!
