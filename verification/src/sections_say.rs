//! What the sections of a file and the names of signers say.
use vstd::prelude::*;
use crate::object::{entry, DictModel, ObjectModel};
use crate::sign_text::{blank, comma_from, common_name, first_solid, last_solid, name_from, object_length, size_number};
use crate::lexer::TokenModel;
use crate::xref::{be_value, chain_from, low32, packed_entry, packed_rows, scanned, section_at, seen_shrinks, slid, subsection_list, unseen, XrefEntry, XrefModel};

verus! {

/// What a later section says of an object holds, whatever the ones before it say, and so with the
/// entries of the trailer.
pub proof fn later_sections_hold(
    d: Seq<u8>,
    offset: int,
    seen: Set<int>,
    table: XrefModel,
    trailer: DictModel,
    n: u32,
    key: Seq<char>,
)
    ensures
        table.contains_key(n) ==> chain_from(d, offset, seen, table, trailer).0.contains_key(n)
            && chain_from(d, offset, seen, table, trailer).0[n] == table[n],
        trailer.contains_key(key) ==> chain_from(d, offset, seen, table, trailer).1.contains_key(key)
            && chain_from(d, offset, seen, table, trailer).1[key] == trailer[key],
    decreases unseen(d, seen),
{
    if !seen.contains(offset) && 0 <= offset < d.len() {
        if let Ok((older_table, older_trailer)) = section_at(d, offset) {
            let all_table = older_table.union_prefer_right(table);
            let all_trailer = older_trailer.union_prefer_right(trailer);
            if let Some(o) = entry(older_trailer, "Prev"@) {
                if let Some(k) = o.integer() {
                    seen_shrinks(d, seen, offset);
                    later_sections_hold(d, k as int, seen.insert(offset), all_table, all_trailer, n, key);
                }
            }
        }
    }
}

/// What a section says of an object of which no later one says anything holds, and so down the
/// chain.
pub proof fn older_sections_fill_in(
    d: Seq<u8>,
    offset: int,
    seen: Set<int>,
    table: XrefModel,
    trailer: DictModel,
    older: XrefModel,
    older_trailer: DictModel,
    n: u32,
)
    requires
        !seen.contains(offset),
        0 <= offset < d.len(),
        section_at(d, offset) == Ok::<(XrefModel, DictModel), crate::error::ErrorModel>(
            (older, older_trailer),
        ),
        older.contains_key(n),
        !table.contains_key(n),
    ensures
        chain_from(d, offset, seen, table, trailer).0.contains_key(n),
        chain_from(d, offset, seen, table, trailer).0[n] == older[n],
{
    let all_table = older.union_prefer_right(table);
    let all_trailer = older_trailer.union_prefer_right(trailer);
    assert(all_table.contains_key(n) && all_table[n] == older[n]);
    if let Some(o) = entry(older_trailer, "Prev"@) {
        if let Some(k) = o.integer() {
            later_sections_hold(d, k as int, seen.insert(offset), all_table, all_trailer, n, seq![]);
            let rest = chain_from(d, k as int, seen.insert(offset), all_table, all_trailer);
            assert(rest.0[n] == all_table[n]);
            assert(chain_from(d, offset, seen, table, trailer) == rest);
        }
    }
}

/// An entry of the first kind says where its object stands, one of the second in which stream and
/// at which index, and any other says nothing.
pub proof fn packed_entries_go_by_kind(table: XrefModel, num: u32, kind: nat, a: nat, b: nat, other: u32)
    requires
        a <= u32::MAX,
        b <= u32::MAX,
    ensures
        kind == 1 ==> packed_entry(table, num, kind, a, b).contains_key(num) && packed_entry(
            table,
            num,
            kind,
            a,
            b,
        )[num] == XrefEntry::Offset(a as usize),
        kind == 2 ==> packed_entry(table, num, kind, a, b).contains_key(num) && packed_entry(
            table,
            num,
            kind,
            a,
            b,
        )[num] == (XrefEntry::Compressed { stream_num: a as u32, index: b as u32 }),
        kind != 1 && kind != 2 ==> packed_entry(table, num, kind, a, b) == table,
        other != num && table.contains_key(other) ==> packed_entry(table, num, kind, a, b)[other]
            == table[other],
{
}

/// The number of a field is that of its bytes, the high one first.
pub proof fn fields_are_numbers(s: Seq<u8>, a: u8, b: u8, c: u8)
    ensures
        be_value(seq![]) == 0,
        be_value(seq![a]) == a,
        be_value(seq![a, b]) == a * 256 + b,
        be_value(seq![a, b, c]) == a * 0x1_0000 + b * 256 + c,
        be_value(s.push(a)) == be_value(s) * 256 + a,
{
    assert(s.push(a).drop_last() =~= s);
    assert(seq![a].drop_last() =~= seq![]);
    assert(seq![a, b].drop_last() =~= seq![a]);
    assert(seq![a, b, c].drop_last() =~= seq![a, b]);
    reveal_with_fuel(be_value, 4);
}

/// Rows of a cross-reference stream are of three fields each and stand for the numbers from the
/// first of their part on.
pub proof fn rows_are_three_fields(
    data: Seq<u8>,
    p: int,
    w: (int, int, int),
    list: Seq<int>,
    k: int,
    i: int,
    table: XrefModel,
)
    requires
        0 <= p,
        0 <= k,
        2 * k + 1 < list.len(),
        0 <= i < list[2 * k + 1],
        0 < w.0 && 0 < w.1 && 0 <= w.2,
        p + w.0 + w.1 + w.2 <= data.len(),
    ensures
        packed_rows(data, p, w, list, k, i, table) == packed_rows(
            data,
            p + w.0 + w.1 + w.2,
            w,
            list,
            k,
            i + 1,
            packed_entry(
                table,
                low32(list[2 * k] + i),
                be_value(data.subrange(p, p + w.0)),
                be_value(data.subrange(p + w.0, p + w.0 + w.1)),
                be_value(data.subrange(p + w.0 + w.1, p + w.0 + w.1 + w.2)),
            ),
        ),
{
}

/// Behind the rows of a part those of the next follow, and behind the last there are no more.
pub proof fn parts_follow_each_other(data: Seq<u8>, p: int, w: (int, int, int), list: Seq<int>, k: int, table: XrefModel)
    requires
        0 <= p,
        0 <= k,
        0 <= w.0 && 0 <= w.1 && 0 <= w.2,
    ensures
        2 * k + 1 < list.len() ==> packed_rows(data, p, w, list, k, list[2 * k + 1], table)
            == packed_rows(data, p, w, list, k + 1, 0, table),
        2 * k + 1 >= list.len() ==> packed_rows(data, p, w, list, k, 0, table) == table,
{
}

/// Without a list of parts all numbers up to the size are meant.
pub proof fn one_part_without_a_list(dict: DictModel, n: int)
    requires
        entry(dict, "Index"@) is None,
        entry(dict, "Size"@) == Some(ObjectModel::Integer(n)),
    ensures
        subsection_list(dict) == Some(seq![0int, n]),
{
}

/// A search finds an object by the two numbers and the word before it, where the first number
/// stands.
pub proof fn search_finds_objects(table: XrefModel, at: int, n: int, gen: int, a: int, b: int, word: Seq<char>)
    requires
        0 <= n <= u32::MAX,
        0 <= at <= u32::MAX,
    ensures
        ({
            let window = seq![
                (at, TokenModel::Integer(n)),
                (a, TokenModel::Integer(gen)),
                (b, TokenModel::Keyword(word)),
            ];
            &&& word == "obj"@ ==> scanned(table, window) == table.insert(
                n as u32,
                XrefEntry::Offset(at as usize),
            )
            &&& word != "obj"@ ==> scanned(table, window) == table
        }),
{
}

/// The window of a search holds the last three tokens.
pub proof fn window_holds_three(window: Seq<(int, TokenModel)>, p: int, t: TokenModel)
    requires
        window.len() <= 3,
    ensures
        slid(window, p, t).len() <= 3,
        slid(window, p, t).last() == (p, t),
        window.len() == 3 ==> slid(window, p, t) == seq![window[1], window[2], (p, t)],
        window.len() < 3 ==> slid(window, p, t) == window.push((p, t)),
{
    if window.len() == 3 {
        assert(slid(window, p, t) =~= seq![window[1], window[2], (p, t)]);
    }
}

proof fn comma_is(s: Seq<char>, i: int, end: int)
    requires
        0 <= i <= end <= s.len(),
        forall|k: int| i <= k < end ==> #[trigger] s[k] != ',',
        end < s.len() ==> s[end] == ',',
    ensures
        comma_from(s, i) == end,
    decreases end - i,
{
    if i < end {
        comma_is(s, i + 1, end);
    }
}

proof fn first_solid_is(s: Seq<char>, i: int, a: int, end: int)
    requires
        i <= a < end,
        forall|k: int| i <= k < a ==> blank(#[trigger] s[k]),
        !blank(s[a]),
    ensures
        first_solid(s, i, end) == a,
    decreases a - i,
{
    if i < a {
        first_solid_is(s, i + 1, a, end);
    }
}

proof fn last_solid_is(s: Seq<char>, start: int, b: int, end: int)
    requires
        start < b <= end,
        forall|k: int| b <= k < end ==> blank(#[trigger] s[k]),
        !blank(s[b - 1]),
    ensures
        last_solid(s, start, end) == b,
    decreases end - b,
{
    if b < end {
        assert(blank(s[end - 1]));
        last_solid_is(s, start, b, end - 1);
    }
}

/// The part of a subject from `start` to `end` has blanks around what stands from `a` to `b`.
pub open spec fn is_part(s: Seq<char>, start: int, a: int, b: int, end: int) -> bool {
    &&& 0 <= start <= a < b <= end <= s.len()
    &&& forall|k: int| start <= k < end ==> #[trigger] s[k] != ','
    &&& end < s.len() ==> s[end] == ','
    &&& forall|k: int| start <= k < a ==> blank(#[trigger] s[k])
    &&& forall|k: int| b <= k < end ==> blank(#[trigger] s[k])
    &&& !blank(s[a]) && !blank(s[b - 1])
}

/// The name of a signer is what stands behind `CN=` in the first part of the subject that has it;
/// parts without it are passed over.
pub proof fn signer_is_named_behind_cn(s: Seq<char>, start: int, a: int, b: int, end: int)
    requires
        is_part(s, start, a, b, end),
    ensures
        b - a >= 3 && s[a] == 'C' && s[a + 1] == 'N' && s[a + 2] == '=' ==> name_from(s, start) == Some(
            s.subrange(a + 3, b),
        ),
        !(b - a >= 3 && s[a] == 'C' && s[a + 1] == 'N' && s[a + 2] == '=') && end < s.len()
            ==> name_from(s, start) == name_from(s, end + 1),
        !(b - a >= 3 && s[a] == 'C' && s[a + 1] == 'N' && s[a + 2] == '=') && end == s.len()
            ==> name_from(s, start) is None,
        common_name(s) == name_from(s, 0),
{
    comma_is(s, start, end);
    first_solid_is(s, start, a, end);
    last_solid_is(s, a, b, end);
}

/// The length of an encoded object: that of its header and that which the header says.
pub proof fn header_says_the_length(d: Seq<u8>)
    requires
        d.len() >= 4,
    ensures
        d[1] < 128 ==> object_length(d) == Some(2 + d[1]),
        d[1] == 129 ==> object_length(d) == Some(3 + d[2]),
        d[1] == 130 ==> object_length(d) == Some(4 + d[2] * 256 + d[3]),
{
    let one = d.subrange(2, 3);
    let two = d.subrange(2, 4);
    assert(one.drop_last() =~= seq![]);
    assert(two.drop_last() =~= one);
    reveal_with_fuel(size_number, 3);
    let m = (usize::MAX + 1) as nat;
    vstd::arithmetic::div_mod::lemma_small_mod(d[2] as nat, m);
    vstd::arithmetic::div_mod::lemma_small_mod((d[2] * 256 + d[3]) as nat, m);
    assert(size_number(one) == d[2]);
    assert(size_number(two) == d[2] * 256 + d[3]);
}

} // verus!
