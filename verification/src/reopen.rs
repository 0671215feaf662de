//! What was saved is found when the file is opened again.
use vstd::prelude::*;
use crate::bytes::{find_last_is, occurs_at};
use crate::decimal::{all_digits, decimal, decimal_is_digits, decimal_len_at_most, is_digit, padded, padded_value};
use crate::document::{opened, DocModel};
use crate::error::ErrorModel;
use crate::lexer::{lex, Lexed, TokenModel};
use crate::object::{entry, DictModel, ObjRef, ObjectModel};
use crate::parser::Reader;
use crate::roundtrip::{ascii_text, byte_of, dict_back, lex_int, lex_skips, lex_whole, lex_word, object_reads, part_of, read_back, stands, words, writable, writable_dict, written_indirect_object_is_read};
use crate::save::{added_trailer, bodies, ended_line, eof_line, file_with, free_head, greatest_in, greatest_with, header_line, in_use, ordered, own_trailer, placed, put_in_order, row_lines, run_end, run_end_bounds, section_text, standalone, startxref_line, subsection_lines, trailer_line, xref_line, Numbered};
use crate::writer::{indirect_bytes, object_bytes};
use crate::xref::{chain_from, low32, offset_of, rows_from, section_at, startxref_offset, startxref_word, subsections_from, tail_start, unseen, xref_of, XrefEntry, XrefModel};

verus! {

/// The table with the entries from `i` to `j` put in.
pub open spec fn with_entries(table: XrefModel, s: Seq<(u32, int)>, i: int, j: int) -> XrefModel
    decreases j - i,
{
    if i >= j {
        table
    } else {
        with_entries(table.insert(s[i].0, XrefEntry::Offset(offset_of(s[i].1))), s, i + 1, j)
    }
}

proof fn with_entries_split(table: XrefModel, s: Seq<(u32, int)>, i: int, j: int, k: int)
    requires
        i <= j <= k,
    ensures
        with_entries(with_entries(table, s, i, j), s, j, k) == with_entries(table, s, i, k),
    decreases j - i,
{
    if i < j {
        with_entries_split(
            table.insert(s[i].0, XrefEntry::Offset(offset_of(s[i].1))),
            s,
            i + 1,
            j,
            k,
        );
    }
}

/// The words of a cross-reference section and their bytes.
proof fn section_words()
    ensures
        crate::text::text_of(seq![120u8, 114, 101, 102]) == "xref"@,
        crate::text::text_of(seq![116u8, 114, 97, 105, 108, 101, 114]) == "trailer"@,
        crate::text::text_of(startxref_word()) == "startxref"@,
        crate::text::text_of(seq![110u8]) == "n"@,
        "startxref"@ != "stream"@,
{
    reveal_strlit("xref");
    reveal_strlit("trailer");
    reveal_strlit("startxref");
    reveal_strlit("stream");
    reveal_strlit("n");
    ascii_text("xref"@, seq![120u8, 114, 101, 102]);
    ascii_text("trailer"@, seq![116u8, 114, 97, 105, 108, 101, 114]);
    ascii_text("startxref"@, startxref_word());
    ascii_text("n"@, seq![110u8]);
    assert("startxref"@.len() == 9);
    assert("stream"@.len() == 6);
}

/// The number and the words of one line of a table.
proof fn lex_row(d: Seq<u8>, q: int, offset: nat)
    requires
        0 <= q,
        offset <= i64::MAX,
        occurs_at(d, padded(offset, 10) + in_use(), q),
    ensures
        ({
            let p1 = q + padded(offset, 10).len();
            &&& lex(d, q) == Lexed::Token(TokenModel::Integer(offset as int), p1)
            &&& lex(d, p1) == Lexed::Token(TokenModel::Integer(0), p1 + 6)
            &&& lex(d, p1 + 6) == Lexed::Token(TokenModel::Keyword("n"@), p1 + 8)
            &&& lex(d, p1 + 8) == lex(d, p1 + 10)
            &&& p1 + 10 <= d.len()
        }),
{
    section_words();
    let digits = padded(offset, 10);
    padded_value(offset, 10);
    let p1 = q + digits.len();
    part_of(d, digits, in_use(), q);
    let zeros = seq![48u8, 48, 48, 48, 48];
    let rest2 = seq![110u8] + (seq![32u8] + seq![10u8]);
    let rest1 = seq![32u8] + rest2;
    assert(in_use() =~= seq![32u8] + (zeros + rest1));
    part_of(d, seq![32u8], zeros + rest1, p1);
    part_of(d, zeros, rest1, p1 + 1);
    part_of(d, seq![32u8], rest2, p1 + 6);
    part_of(d, seq![110u8], seq![32u8] + seq![10u8], p1 + 7);
    part_of(d, seq![32u8], seq![10u8], p1 + 8);
    byte_of(d, seq![32u8], p1, 0);
    byte_of(d, seq![32u8], p1 + 6, 0);
    byte_of(d, seq![32u8], p1 + 8, 0);
    byte_of(d, seq![10u8], p1 + 9, 0);
    assert(seq![] + digits =~= digits);
    lex_whole(d, q, false, digits);
    lex_skips(d, p1);
    assert(all_digits(zeros));
    assert(seq![] + zeros =~= zeros);
    lex_whole(d, p1 + 1, false, zeros);
    assert(crate::decimal::digits_value(zeros) == 0) by {
        crate::decimal::digits_value_zeros(5, seq![]);
        assert(Seq::new(5, |i: int| 48u8) + seq![] =~= zeros);
    }
    lex_skips(d, p1 + 6);
    lex_word(d, p1 + 7, seq![110u8]);
    lex_skips(d, p1 + 8);
    lex_skips(d, p1 + 9);
}

/// The lines of a subsection are read into the table.
proof fn rows_read(
    d: Seq<u8>,
    p: int,
    q: int,
    s: Seq<(u32, int)>,
    first: int,
    k: int,
    j: int,
    table: XrefModel,
) -> (after: int)
    requires
        0 <= p <= d.len(),
        0 <= q,
        0 <= first <= k <= j <= s.len(),
        lex(d, p) == lex(d, q),
        occurs_at(d, row_lines(s, k, j), q),
        forall|i: int| first <= i < j ==> (#[trigger] s[i]).0 == s[first].0 + (i - first),
        forall|i: int| first <= i < j ==> 0 <= (#[trigger] s[i]).1 <= i64::MAX,
    ensures
        0 <= after <= d.len(),
        lex(d, after) == lex(d, q + row_lines(s, k, j).len()),
        rows_from(d, p, s[first].0 as int, j - first, k - first, table) == Ok::<
            (XrefModel, int),
            ErrorModel,
        >((with_entries(table, s, k, j), after)),
    decreases j - k,
{
    if k >= j {
        p
    } else {
        let offset = s[k].1 as nat;
        let line = padded(offset, 10) + in_use();
        let rest = row_lines(s, k + 1, j);
        assert(row_lines(s, k, j) =~= line + rest);
        part_of(d, line, rest, q);
        lex_row(d, q, offset);
        let p1 = q + padded(offset, 10).len();
        assert(s[k].0 == s[first].0 + (k - first));
        assert(low32(s[first].0 + (k - first)) == s[k].0);
        let next = table.insert(s[k].0, XrefEntry::Offset(offset_of(s[k].1)));
        rows_read(d, p1 + 8, p1 + 10, s, first, k + 1, j, next)
    }
}

proof fn row_lines_len(s: Seq<(u32, int)>, i: int, j: int)
    requires
        i <= j,
    ensures
        row_lines(s, i, j).len() >= j - i,
    decreases j - i,
{
    if i < j {
        row_lines_len(s, i + 1, j);
    }
}

/// A word ends a table.
spec fn ends_table(d: Seq<u8>, q: int) -> bool {
    lex(d, q) is Token && lex(d, q)->Token_0 == TokenModel::Keyword("trailer"@)
}

/// The subsections are read into the table.
proof fn subsections_read(
    d: Seq<u8>,
    p: int,
    q: int,
    s: Seq<(u32, int)>,
    i: int,
    table: XrefModel,
) -> (after: int)
    requires
        0 <= p <= d.len(),
        0 <= q,
        0 <= i <= s.len(),
        d.len() <= i64::MAX,
        lex(d, p) == lex(d, q),
        occurs_at(d, subsection_lines(s, i), q),
        ends_table(d, q + subsection_lines(s, i).len()),
        forall|k: int| 0 <= k < s.len() ==> 0 <= (#[trigger] s[k]).1 <= i64::MAX,
    ensures
        0 <= after <= d.len(),
        lex(d, after) == lex(d, q + subsection_lines(s, i).len()),
        subsections_from(d, p, table) == Ok::<(XrefModel, int), ErrorModel>(
            (with_entries(table, s, i, s.len() as int), after),
        ),
    decreases s.len() - i,
{
    if i >= s.len() {
        p
    } else {
        run_end_bounds(s, i);
        let j = run_end(s, i);
        let a = decimal(s[i].0 as nat);
        let b = decimal((j - i) as nat);
        let rows = row_lines(s, i, j);
        let more = subsection_lines(s, j);
        let rest3 = rows + more;
        let rest2 = b + (seq![10u8] + rest3);
        assert(subsection_lines(s, i) =~= a + (seq![32u8] + rest2));
        part_of(d, a, seq![32u8] + rest2, q);
        let e1 = q + a.len();
        part_of(d, seq![32u8], rest2, e1);
        part_of(d, b, seq![10u8] + rest3, e1 + 1);
        let e2 = e1 + 1 + b.len();
        part_of(d, seq![10u8], rest3, e2);
        part_of(d, rows, more, e2 + 1);
        let e3 = e2 + 1 + rows.len();
        byte_of(d, seq![32u8], e1, 0);
        byte_of(d, seq![10u8], e2, 0);
        row_lines_len(s, i, j);
        lex_int(d, q, s[i].0 as int);
        lex_skips(d, e1);
        lex_int(d, e1 + 1, j - i);
        lex_skips(d, e2);
        let p3 = rows_read(d, e2, e2 + 1, s, i, i, j, table);
        let after = subsections_read(d, p3, e3, s, j, with_entries(table, s, i, j));
        with_entries_split(table, s, i, j, s.len() as int);
        after
    }
}

/// The offset at the end of a file is found.
proof fn startxref_reads(d: Seq<u8>, p0: int, offset: int)
    requires
        0 <= p0,
        0 <= offset <= i64::MAX,
        offset <= usize::MAX,
        occurs_at(d, startxref_line() + decimal(offset as nat) + eof_line(), p0),
        p0 + (startxref_line() + decimal(offset as nat) + eof_line()).len() == d.len(),
    ensures
        startxref_offset(d) == Ok::<usize, ErrorModel>(offset as usize),
        lex(d, p0) is Token,
        lex(d, p0)->Token_0 == TokenModel::Keyword("startxref"@),
{
    section_words();
    let n = decimal(offset as nat);
    let word = startxref_word();
    decimal_is_digits(offset as nat);
    assert(n.len() <= 19) by {
        assert(vstd::arithmetic::power::pow(10, 19) == 10_000_000_000_000_000_000) by {
            reveal_with_fuel(vstd::arithmetic::power::pow, 20);
        }
        decimal_len_at_most(offset as nat, 19);
    }
    let tail = startxref_line() + n + eof_line();
    assert(tail =~= seq![10u8] + (word + (seq![10u8] + (n + eof_line()))));
    part_of(d, seq![10u8], word + (seq![10u8] + (n + eof_line())), p0);
    part_of(d, word, seq![10u8] + (n + eof_line()), p0 + 1);
    part_of(d, seq![10u8], n + eof_line(), p0 + 10);
    part_of(d, n, eof_line(), p0 + 11);
    byte_of(d, seq![10u8], p0, 0);
    byte_of(d, seq![10u8], p0 + 10, 0);
    byte_of(d, eof_line(), p0 + 11 + n.len(), 0);
    lex_skips(d, p0);
    lex_word(d, p0 + 1, word);
    lex_skips(d, p0 + 10);
    lex_int(d, p0 + 11, offset);
    let start = tail_start(d);
    let zone = d.skip(start);
    let i = p0 + 1 - start;
    assert(occurs_at(zone, word, i)) by {
        assert(zone.subrange(i, i + 9) =~= d.subrange(p0 + 1, p0 + 10));
    }
    assert forall|j: int| i < j implies !#[trigger] occurs_at(zone, word, j) by {
        if occurs_at(zone, word, j) {
            byte_of(zone, word, j, 0);
            let k = j + start - p0;
            assert(d[p0 + k] == 115);
            byte_of(d, tail, p0, k);
            if k >= 11 && k < 11 + n.len() {
                assert(tail[k] == n[k - 11]);
                assert(is_digit(n[k - 11]));
            } else if k >= 11 + n.len() {
                assert(tail[k] == eof_line()[k - 11 - n.len()]);
            } else {
                assert(tail[k] == startxref_line()[k]);
            }
        }
    }
    find_last_is(zone, word, i);
}

/// The subsection of the number that no object has adds nothing to a table.
proof fn free_head_reads(d: Seq<u8>, p: int, q: int, table: XrefModel) -> (after: int)
    requires
        0 <= p <= d.len(),
        0 <= q,
        lex(d, p) == lex(d, q),
        occurs_at(d, free_head(), q),
    ensures
        0 <= after <= d.len(),
        lex(d, after) == lex(d, q + free_head().len()),
        subsections_from(d, p, table) == subsections_from(d, after, table),
{
    section_words();
    reveal(free_head);
    reveal_strlit("n");
    reveal_strlit("f");
    ascii_text("f"@, seq![102u8]);
    assert("n"@[0] != "f"@[0]);
    let zero = seq![48u8];
    let one = seq![49u8];
    let zeros = seq![48u8, 48, 48, 48, 48, 48, 48, 48, 48, 48];
    let most = seq![54u8, 53, 53, 51, 53];
    let space = seq![32u8];
    let line = seq![10u8];
    let word = seq![102u8];
    let rest7 = word + (space + line);
    let rest5 = most + (space + rest7);
    let rest4 = zeros + (space + rest5);
    let rest3 = one + (line + rest4);
    assert(free_head() =~= zero + (space + rest3));
    part_of(d, zero, space + rest3, q);
    part_of(d, space, rest3, q + 1);
    part_of(d, one, line + rest4, q + 2);
    part_of(d, line, rest4, q + 3);
    part_of(d, zeros, space + rest5, q + 4);
    part_of(d, space, rest5, q + 14);
    part_of(d, most, space + rest7, q + 15);
    part_of(d, space, rest7, q + 20);
    part_of(d, word, space + line, q + 21);
    part_of(d, space, line, q + 22);
    byte_of(d, space, q + 1, 0);
    byte_of(d, line, q + 3, 0);
    byte_of(d, space, q + 14, 0);
    byte_of(d, space, q + 20, 0);
    byte_of(d, space, q + 22, 0);
    byte_of(d, line, q + 23, 0);
    reveal_with_fuel(crate::decimal::digits_value, 11);
    assert(seq![] + zero =~= zero);
    assert(seq![] + one =~= one);
    assert(seq![] + zeros =~= zeros);
    assert(seq![] + most =~= most);
    lex_whole(d, q, false, zero);
    lex_skips(d, q + 1);
    lex_whole(d, q + 2, false, one);
    lex_skips(d, q + 3);
    lex_whole(d, q + 4, false, zeros);
    lex_skips(d, q + 14);
    lex_whole(d, q + 15, false, most);
    lex_skips(d, q + 20);
    lex_word(d, q + 21, word);
    lex_skips(d, q + 22);
    lex_skips(d, q + 23);
    assert(crate::decimal::digits_value(one) == 1) by {
        assert(one.drop_last() =~= seq![]);
    }
    assert(crate::decimal::digits_value(zero) == 0) by {
        assert(zero.drop_last() =~= seq![]);
    }
    assert(crate::decimal::digits_value(zeros) == 0) by {
        crate::decimal::digits_value_zeros(10, seq![]);
        assert(Seq::new(10, |i: int| 48u8) + seq![] =~= zeros);
    }
    assert(crate::decimal::digits_value(most) <= i64::MAX) by {
        assert(most.drop_last() =~= seq![54u8, 53, 53, 51]);
        assert(most.drop_last().drop_last() =~= seq![54u8, 53, 53]);
        assert(most.drop_last().drop_last().drop_last() =~= seq![54u8, 53]);
        assert(most.drop_last().drop_last().drop_last().drop_last() =~= seq![54u8]);
    }
    let after = q + 22;
    assert(rows_from(d, after, 0, 1, 1, table) == Ok::<(XrefModel, int), ErrorModel>((table, after)));
    assert(rows_from(d, q + 3, 0, 1, 0, table) == rows_from(d, after, 0, 1, 1, table));
    after
}

proof fn section_parts(head: Seq<u8>, lines: Seq<u8>, dict: Seq<u8>, tail: Seq<u8>, text: Seq<u8>)
    requires
        text =~= xref_line() + head + lines + trailer_line() + dict + tail,
    ensures
        text == seq![120u8, 114, 101, 102] + (seq![10u8] + (head + (lines + (seq![
            116u8,
            114,
            97,
            105,
            108,
            101,
            114,
        ] + (seq![10u8] + (dict + tail)))))),
{
    let word = seq![116u8, 114, 97, 105, 108, 101, 114];
    let xref = seq![120u8, 114, 101, 102];
    assert(xref_line() =~= xref + seq![10u8]);
    assert(trailer_line() =~= word + seq![10u8]);
    assert(text =~= xref + (seq![10u8] + (head + (lines + (word + (seq![10u8] + (dict + tail)))))));
}

/// A section that was written is read back.
#[verifier::rlimit(30)]
proof fn section_reads(d: Seq<u8>, x: int, head: Seq<u8>, s: Seq<(u32, int)>, trailer: DictModel)
    requires
        0 <= x,
        head == Seq::<u8>::empty() || head == free_head(),
        d.len() <= i64::MAX,
        d.len() <= usize::MAX,
        writable_dict(trailer),
        occurs_at(d, section_text(head, s, trailer, x), x),
        x + section_text(head, s, trailer, x).len() == d.len(),
        forall|k: int| 0 <= k < s.len() ==> 0 <= (#[trigger] s[k]).1 <= i64::MAX,
    ensures
        startxref_offset(d) == Ok::<usize, ErrorModel>(x as usize),
        section_at(d, x) == Ok::<(XrefModel, DictModel), ErrorModel>(
            (with_entries(Map::empty(), s, 0, s.len() as int), dict_back(trailer)),
        ),
{
    words();
    section_words();
    let lines = subsection_lines(s, 0);
    let dict = object_bytes(ObjectModel::Dictionary(trailer));
    let tail = startxref_line() + decimal(x as nat) + eof_line();
    let xref = seq![120u8, 114, 101, 102];
    let word = seq![116u8, 114, 97, 105, 108, 101, 114];
    let rest3 = dict + tail;
    let rest2 = word + (seq![10u8] + rest3);
    let rest1 = seq![10u8] + (head + (lines + rest2));
    section_parts(head, lines, dict, tail, section_text(head, s, trailer, x));
    part_of(d, xref, rest1, x);
    part_of(d, seq![10u8], head + (lines + rest2), x + 4);
    part_of(d, head, lines + rest2, x + 5);
    let q = x + 5 + head.len();
    part_of(d, lines, rest2, q);
    let t = q + lines.len();
    part_of(d, word, seq![10u8] + rest3, t);
    part_of(d, seq![10u8], rest3, t + 7);
    part_of(d, dict, tail, t + 8);
    let e = t + 8 + dict.len();
    byte_of(d, seq![10u8], x + 4, 0);
    byte_of(d, seq![10u8], t + 7, 0);
    byte_of(d, tail, e, 0);
    startxref_reads(d, e, x);
    lex_word(d, x, xref);
    lex_skips(d, x + 4);
    lex_word(d, t, word);
    let p0 = if head == Seq::<u8>::empty() {
        x + 4
    } else {
        free_head_reads(d, x + 4, x + 5, Map::empty())
    };
    let p = subsections_read(d, p0, q, s, 0, Map::empty());
    let r = Reader { ahead: seq![], pos: t + 7 };
    lex_skips(d, t + 7);
    assert(stands(d, r, t + 8)) by {
        assert(crate::roundtrip::reads(d, r, t + 8));
    }
    assert(writable(ObjectModel::Dictionary(trailer)));
    object_reads(d, t + 8, ObjectModel::Dictionary(trailer), r);
}

/// A chain of sections keeps what its later sections say.
proof fn chain_keeps(
    d: Seq<u8>,
    offset: int,
    seen: Set<int>,
    table: XrefModel,
    trailer: DictModel,
)
    ensures
        forall|n: u32|
            #[trigger] table.contains_key(n) ==> chain_from(
                d,
                offset,
                seen,
                table,
                trailer,
            ).0.contains_key(n) && chain_from(d, offset, seen, table, trailer).0[n] == table[n],
        forall|k: Seq<char>|
            #[trigger] trailer.contains_key(k) ==> chain_from(
                d,
                offset,
                seen,
                table,
                trailer,
            ).1.contains_key(k) && chain_from(d, offset, seen, table, trailer).1[k] == trailer[k],
    decreases unseen(d, seen),
{
    if !seen.contains(offset) && 0 <= offset < d.len() {
        if let Ok((older_table, older_trailer)) = section_at(d, offset) {
            let all_table = older_table.union_prefer_right(table);
            let all_trailer = older_trailer.union_prefer_right(trailer);
            if let Some(o) = entry(older_trailer, "Prev"@) {
                if let Some(n) = o.integer() {
                    crate::xref::seen_shrinks(d, seen, offset);
                    chain_keeps(d, n as int, seen.insert(offset), all_table, all_trailer);
                    assert forall|k: u32| #[trigger] table.contains_key(k) implies chain_from(
                        d,
                        offset,
                        seen,
                        table,
                        trailer,
                    ).0.contains_key(k) && chain_from(d, offset, seen, table, trailer).0[k]
                        == table[k] by {
                        assert(all_table.contains_key(k));
                    }
                    assert forall|k: Seq<char>| #[trigger] trailer.contains_key(k) implies chain_from(
                        d,
                        offset,
                        seen,
                        table,
                        trailer,
                    ).1.contains_key(k) && chain_from(d, offset, seen, table, trailer).1[k]
                        == trailer[k] by {
                        assert(all_trailer.contains_key(k));
                    }
                }
            }
        }
    }
}

/// The entry for `num` that was put in last.
spec fn last_for(s: Seq<(u32, int)>, num: u32) -> Option<int>
    decreases s.len(),
{
    if s.len() == 0 {
        None
    } else if s.last().0 == num {
        Some(s.last().1)
    } else {
        last_for(s.drop_last(), num)
    }
}

proof fn put_in_order_last(s: Seq<(u32, int)>, e: (u32, int), num: u32)
    ensures
        last_for(put_in_order(s, e), num) == if e.0 == num {
            Some(e.1)
        } else {
            last_for(s, num)
        },
        put_in_order(s, e).len() == s.len() + 1,
        forall|i: int|
            0 <= i < put_in_order(s, e).len() ==> #[trigger] put_in_order(s, e)[i] == e
                || s.contains(put_in_order(s, e)[i]),
    decreases s.len(),
{
    let r = put_in_order(s, e);
    if s.len() > 0 && s.last().0 > e.0 {
        let front = s.drop_last();
        put_in_order_last(front, e, num);
        assert(r.drop_last() =~= put_in_order(front, e));
        assert forall|i: int| 0 <= i < r.len() implies #[trigger] r[i] == e || s.contains(r[i]) by {
            if i < r.len() - 1 {
                assert(put_in_order(front, e)[i] == r[i]);
                if r[i] != e {
                    let k = front.index_of(r[i]);
                    assert(s[k] == r[i]);
                }
            } else {
                assert(s[s.len() - 1] == r[i]);
            }
        }
    } else {
        assert(r.drop_last() =~= s);
        assert forall|i: int| 0 <= i < r.len() implies #[trigger] r[i] == e || s.contains(r[i]) by {
            if i < s.len() {
                assert(s[i] == r[i]);
            }
        }
    }
}

/// Of entries put in order, the one put in last for a number stays the last for it.
proof fn ordered_last(s: Seq<(u32, int)>, n: nat, i: int)
    requires
        0 <= i < n <= s.len(),
        forall|j: int| i < j < n ==> (#[trigger] s[j]).0 != s[i].0,
    ensures
        last_for(ordered(s, n), s[i].0) == Some(s[i].1),
    decreases n,
{
    put_in_order_last(ordered(s, (n - 1) as nat), s[n - 1], s[i].0);
    if i < n - 1 {
        ordered_last(s, (n - 1) as nat, i);
    }
}

/// Entries put in order are those that were given.
proof fn ordered_from(s: Seq<(u32, int)>, n: nat)
    requires
        n <= s.len(),
    ensures
        forall|i: int| 0 <= i < ordered(s, n).len() ==> s.contains(#[trigger] ordered(s, n)[i]),
    decreases n,
{
    if n > 0 {
        ordered_from(s, (n - 1) as nat);
        let before = ordered(s, (n - 1) as nat);
        put_in_order_last(before, s[n - 1], 0);
        assert forall|i: int| 0 <= i < ordered(s, n).len() implies s.contains(
            #[trigger] ordered(s, n)[i],
        ) by {
            let x = ordered(s, n)[i];
            if x == s[n - 1] {
                assert(s[n - 1] == x);
            } else {
                let k = before.index_of(x);
                assert(before[k] == x);
            }
        }
    }
}

proof fn with_entries_last(table: XrefModel, s: Seq<(u32, int)>, n: int, num: u32)
    requires
        0 <= n <= s.len(),
        last_for(s.take(n), num) is Some,
    ensures
        with_entries(table, s, 0, n).contains_key(num),
        with_entries(table, s, 0, n)[num] == XrefEntry::Offset(
            offset_of(last_for(s.take(n), num)->Some_0),
        ),
    decreases n,
{
    if n > 0 {
        with_entries_split(table, s, 0, n - 1, n);
        let before = with_entries(table, s, 0, n - 1);
        assert(with_entries(before, s, n - 1, n) == before.insert(
            s[n - 1].0,
            XrefEntry::Offset(offset_of(s[n - 1].1)),
        )) by {
            reveal_with_fuel(with_entries, 2);
        }
        assert(s.take(n).drop_last() =~= s.take(n - 1));
        assert(s.take(n).last() == s[n - 1]);
        if s[n - 1].0 != num {
            with_entries_last(table, s, n - 1, num);
        }
    }
}

/// Where an object was written.
proof fn body_stands(d: Seq<u8>, objects: Seq<Numbered>, n: nat, base: int, i: int)
    requires
        0 <= i < n <= objects.len(),
        0 <= base,
        occurs_at(d, bodies(objects, n), base),
    ensures
        occurs_at(
            d,
            indirect_bytes(objects[i].0.num, objects[i].0.gen, objects[i].1),
            base + bodies(objects, i as nat).len(),
        ),
    decreases n,
{
    let last = indirect_bytes(objects[n - 1].0.num, objects[n - 1].0.gen, objects[n - 1].1);
    part_of(d, bodies(objects, (n - 1) as nat), last, base);
    if i < n - 1 {
        body_stands(d, objects, (n - 1) as nat, base, i);
    }
}

proof fn bodies_len(objects: Seq<Numbered>, i: nat, n: nat)
    requires
        i <= n,
    ensures
        bodies(objects, i).len() <= bodies(objects, n).len(),
    decreases n,
{
    if i < n {
        bodies_len(objects, i, (n - 1) as nat);
    }
}

/// A saved file starts with the bytes of the file as it was.
pub proof fn saved_file_starts_as_before(
    doc: DocModel,
    objects: Seq<Numbered>,
    root: ObjectModel,
    prev: int,
)
    ensures
        doc.data.len() <= file_with(doc, objects, root, prev).len(),
        file_with(doc, objects, root, prev).take(doc.data.len() as int) == doc.data,
{
    assert(file_with(doc, objects, root, prev).take(doc.data.len() as int) =~= doc.data);
}

/// The places of the objects in a saved file.
pub open spec fn added_places(doc: DocModel, objects: Seq<Numbered>) -> Seq<(u32, int)> {
    ordered(placed(objects, ended_line(doc.data).len() as int), objects.len())
}

/// What the section added to a saved file says of where objects stand.
pub open spec fn added_table(doc: DocModel, objects: Seq<Numbered>) -> XrefModel {
    let s = added_places(doc, objects);
    with_entries(Map::empty(), s, 0, s.len() as int)
}

/// The trailer of the section added to a saved file, as it is read.
pub open spec fn trailer_back(
    doc: DocModel,
    objects: Seq<Numbered>,
    root: ObjectModel,
    prev: int,
) -> DictModel {
    let s = added_places(doc, objects);
    dict_back(added_trailer(greatest_with(greatest_in(doc) as int, s) + 1, root, prev))
}

/// Where the section added to a saved file starts.
pub open spec fn added_at(doc: DocModel, objects: Seq<Numbered>) -> int {
    (ended_line(doc.data) + bodies(objects, objects.len())).len() as int
}

/// The sections of a saved file are the added one and those that the file had before.
pub proof fn saved_chain(doc: DocModel, objects: Seq<Numbered>, root: ObjectModel, prev: int)
    requires
        writable(root),
        0 <= prev <= i64::MAX,
        file_with(doc, objects, root, prev).len() <= i64::MAX,
        file_with(doc, objects, root, prev).len() <= usize::MAX,
    ensures
        ({
            let d = file_with(doc, objects, root, prev);
            let x = added_at(doc, objects);
            let back = trailer_back(doc, objects, root, prev);
            &&& startxref_offset(d) == Ok::<usize, ErrorModel>(x as usize)
            &&& chain_from(d, x, Set::empty(), Map::empty(), Map::empty()) == chain_from(
                d,
                prev,
                Set::<int>::empty().insert(x),
                added_table(doc, objects),
                back,
            )
            &&& back.contains_key("Root"@)
            &&& back["Root"@] == read_back(root)
            &&& entry(back, "Encrypt"@) is None
            &&& occurs_at(d, bodies(objects, objects.len()), ended_line(doc.data).len() as int)
            &&& 0 <= x < d.len()
        }),
{
    let d = file_with(doc, objects, root, prev);
    let start = ended_line(doc.data);
    let base = start.len() as int;
    let n = objects.len();
    let all = bodies(objects, n);
    let body = start + all;
    let x = body.len() as int;
    let places = placed(objects, base);
    let s = ordered(places, n);
    let size = greatest_with(greatest_in(doc) as int, s) + 1;
    let trailer = added_trailer(size, root, prev);
    let text = section_text(seq![], s, trailer, x);
    assert(d == body + text);
    assert(d =~= start + (all + text));
    assert(d.subrange(0, d.len() as int) =~= start + (all + text));
    part_of(d, start, all + text, 0);
    part_of(d, all, text, base);
    ordered_from(places, n);
    assert forall|k: int| 0 <= k < s.len() implies 0 <= (#[trigger] s[k]).1 <= i64::MAX by {
        let m = places.index_of(s[k]);
        assert(places.contains(s[k]));
        assert(places[m] == s[k]);
        bodies_len(objects, m as nat, n);
    }
    trailer_is_writable(size, root, prev);
    section_reads(d, x, seq![], s, trailer);
    let back = dict_back(trailer);
    let table = added_table(doc, objects);
    trailer_reads_back(size, root, prev);
    assert(table.union_prefer_right(Map::empty()) =~= table);
    assert(back.union_prefer_right(Map::empty()) =~= back);
}

/// An object that was saved is found again when the file is opened: the last one saved under its
/// number, with its reals rounded. The catalog is the one that the document had. (An encrypted
/// document stays encrypted, and what was saved into it is not found as it was.)
pub proof fn saved_object_is_found(
    doc: DocModel,
    objects: Seq<Numbered>,
    root: ObjectModel,
    prev: int,
    password: Seq<u8>,
    i: int,
)
    requires
        0 <= i < objects.len(),
        forall|j: int| i < j < objects.len() ==> (#[trigger] objects[j]).0.num != objects[i].0.num,
        writable(objects[i].1),
        writable(root),
        0 <= prev <= i64::MAX,
        file_with(doc, objects, root, prev).len() <= i64::MAX,
        file_with(doc, objects, root, prev).len() <= usize::MAX,
    ensures
        ({
            let d = file_with(doc, objects, root, prev);
            &&& xref_of(d) == Ok::<(XrefModel, DictModel), ErrorModel>(
                chain_from(d, added_at(doc, objects), Set::empty(), Map::empty(), Map::empty()),
            )
            &&& entry(xref_of(d)->Ok_0.1, "Root"@) == Some(read_back(root))
            &&& entry(xref_of(d)->Ok_0.1, "Encrypt"@) is None ==> {
                &&& opened(d, password) is Ok
                &&& opened(d, password)->Ok_0.resolved(objects[i].0) == Ok::<
                    ObjectModel,
                    ErrorModel,
                >(read_back(objects[i].1))
            }
        }),
{
    let d = file_with(doc, objects, root, prev);
    let base = ended_line(doc.data).len() as int;
    let n = objects.len();
    let places = placed(objects, base);
    let s = added_places(doc, objects);
    let table = added_table(doc, objects);
    let back = trailer_back(doc, objects, root, prev);
    saved_chain(doc, objects, root, prev);
    let seen = Set::<int>::empty().insert(added_at(doc, objects));
    chain_keeps(d, prev, seen, table, back);
    let (t, tr) = chain_from(d, prev, seen, table, back);
    let num = objects[i].0.num;
    assert forall|j: int| i < j < n implies (#[trigger] places[j]).0 != places[i].0 by {
        assert(objects[j].0.num != objects[i].0.num);
    }
    ordered_last(places, n, i);
    assert(s.take(s.len() as int) =~= s);
    with_entries_last(Map::empty(), s, s.len() as int, num);
    assert(table.contains_key(num));
    assert(t.contains_key(num));
    assert(t.dom().contains(num));
    assert(xref_of(d) == Ok::<(XrefModel, DictModel), ErrorModel>((t, tr)));
    assert(back.contains_key("Root"@));
    let at = base + bodies(objects, i as nat).len();
    bodies_len(objects, i as nat, n);
    assert(t[num] == XrefEntry::Offset(at as usize));
    body_stands(d, objects, n, base, i);
    written_indirect_object_is_read(d, at, num, objects[i].0.gen, objects[i].1);
}

/// The tables of a new file.
proof fn standalone_reads(objects: Seq<Numbered>, root: ObjRef)
    requires
        standalone(objects, root).len() <= i64::MAX,
        standalone(objects, root).len() <= usize::MAX,
        objects.len() > 0,
    ensures
        ({
            let d = standalone(objects, root);
            let s = ordered(placed(objects, header_line().len() as int), objects.len());
            let table = with_entries(Map::empty(), s, 0, s.len() as int);
            let back = dict_back(own_trailer(greatest_with(0, s) + 1, root));
            &&& chain_from(d, startxref_offset(d)->Ok_0 as int, Set::empty(), Map::empty(), Map::empty())
                == (table, back)
            &&& startxref_offset(d) is Ok
            &&& entry(back, "Root"@) == Some(ObjectModel::Reference(root))
            &&& entry(back, "Encrypt"@) is None
            &&& occurs_at(d, bodies(objects, objects.len()), header_line().len() as int)
        }),
{
    let d = standalone(objects, root);
    let start = header_line();
    let base = start.len() as int;
    let n = objects.len();
    let all = bodies(objects, n);
    let body = start + all;
    let x = body.len() as int;
    let places = placed(objects, base);
    let s = ordered(places, n);
    let size = greatest_with(0, s) + 1;
    let trailer = own_trailer(size, root);
    let text = section_text(free_head(), s, trailer, x);
    assert(d == body + text);
    assert(d =~= start + (all + text));
    assert(d.subrange(0, d.len() as int) =~= start + (all + text));
    part_of(d, start, all + text, 0);
    part_of(d, all, text, base);
    ordered_from(places, n);
    assert forall|k: int| 0 <= k < s.len() implies 0 <= (#[trigger] s[k]).1 <= i64::MAX by {
        let m = places.index_of(s[k]);
        assert(places.contains(s[k]));
        assert(places[m] == s[k]);
        bodies_len(objects, m as nat, n);
    }
    own_trailer_reads(size, root);
    section_reads(d, x, free_head(), s, trailer);
    let back = dict_back(trailer);
    let table = with_entries(Map::empty(), s, 0, s.len() as int);
    assert(table.union_prefer_right(Map::empty()) =~= table);
    assert(back.union_prefer_right(Map::empty()) =~= back);
}

proof fn own_trailer_reads(size: int, root: ObjRef)
    requires
        0 <= size <= i64::MAX,
    ensures
        writable_dict(own_trailer(size, root)),
        entry(dict_back(own_trailer(size, root)), "Root"@) == Some(ObjectModel::Reference(root)),
        entry(dict_back(own_trailer(size, root)), "Prev"@) is None,
        entry(dict_back(own_trailer(size, root)), "Encrypt"@) is None,
{
    trailer_names();
    let trailer = own_trailer(size, root);
    let back = dict_back(trailer);
    assert(writable_dict(trailer)) by {
        assert forall|k: Seq<char>| #[trigger] trailer.contains_key(k) implies writable(trailer[k]) by {
            if k != "Root"@ {
                assert(k == "Size"@);
            }
        }
    }
    reveal_strlit("Encrypt");
    reveal_strlit("Root");
    reveal_strlit("Size");
    assert("Encrypt"@[0] == 'E');
    assert("Root"@[0] == 'R');
    assert("Size"@[0] == 'S');
    assert(trailer["Root"@] == ObjectModel::Reference(root));
    assert(back["Root"@] == read_back(trailer["Root"@]));
}

/// An object of a new file is found when the file is opened, with its reals rounded, and so is
/// the catalog.
pub proof fn standalone_object_is_found(
    objects: Seq<Numbered>,
    root: ObjRef,
    password: Seq<u8>,
    i: int,
)
    requires
        0 <= i < objects.len(),
        forall|j: int| i < j < objects.len() ==> (#[trigger] objects[j]).0.num != objects[i].0.num,
        writable(objects[i].1),
        standalone(objects, root).len() <= i64::MAX,
        standalone(objects, root).len() <= usize::MAX,
    ensures
        ({
            let d = standalone(objects, root);
            &&& opened(d, password) is Ok
            &&& entry(opened(d, password)->Ok_0.trailer, "Root"@) == Some(
                ObjectModel::Reference(root),
            )
            &&& opened(d, password)->Ok_0.resolved(objects[i].0) == Ok::<ObjectModel, ErrorModel>(
                read_back(objects[i].1),
            )
        }),
{
    let d = standalone(objects, root);
    let base = header_line().len() as int;
    let n = objects.len();
    let places = placed(objects, base);
    let s = ordered(places, n);
    let table = with_entries(Map::empty(), s, 0, s.len() as int);
    let back = dict_back(own_trailer(greatest_with(0, s) + 1, root));
    standalone_reads(objects, root);
    let num = objects[i].0.num;
    assert forall|j: int| i < j < n implies (#[trigger] places[j]).0 != places[i].0 by {
        assert(objects[j].0.num != objects[i].0.num);
    }
    ordered_last(places, n, i);
    assert(s.take(s.len() as int) =~= s);
    with_entries_last(Map::empty(), s, s.len() as int, num);
    assert(table.contains_key(num));
    assert(table.dom().contains(num));
    assert(xref_of(d) == Ok::<(XrefModel, DictModel), ErrorModel>((table, back)));
    let at = base + bodies(objects, i as nat).len();
    bodies_len(objects, i as nat, n);
    assert(table[num] == XrefEntry::Offset(at as usize));
    body_stands(d, objects, n, base, i);
    written_indirect_object_is_read(d, at, num, objects[i].0.gen, objects[i].1);
}

proof fn trailer_names()
    ensures
        "Size"@ != "Root"@,
        "Size"@ != "Prev"@,
        "Root"@ != "Prev"@,
{
    reveal_strlit("Size");
    reveal_strlit("Root");
    reveal_strlit("Prev");
    assert("Size"@[0] == 'S');
    assert("Root"@[0] == 'R');
    assert("Prev"@[0] == 'P');
}

proof fn trailer_is_writable(size: int, root: ObjectModel, prev: int)
    requires
        writable(root),
        0 <= size <= i64::MAX,
        0 <= prev <= i64::MAX,
    ensures
        writable_dict(added_trailer(size, root, prev)),
{
    trailer_names();
    let m = added_trailer(size, root, prev);
    assert forall|k: Seq<char>| #[trigger] m.contains_key(k) implies writable(m[k]) by {
        if k == "Prev"@ {
        } else if k == "Root"@ {
        } else {
            assert(k == "Size"@);
        }
    }
}

proof fn trailer_reads_back(size: int, root: ObjectModel, prev: int)
    ensures
        ({
            let back = dict_back(added_trailer(size, root, prev));
            &&& back.contains_key("Root"@)
            &&& back["Root"@] == read_back(root)
            &&& entry(back, "Prev"@) == Some(ObjectModel::Integer(prev))
            &&& entry(back, "Encrypt"@) is None
        }),
{
    trailer_names();
    reveal_strlit("Encrypt");
    reveal_strlit("Root");
    reveal_strlit("Size");
    reveal_strlit("Prev");
    assert("Encrypt"@[0] == 'E');
    assert("Root"@[0] == 'R');
    assert("Size"@[0] == 'S');
    assert("Prev"@[0] == 'P');
    let m = added_trailer(size, root, prev);
    let back = dict_back(m);
    assert(m.dom().finite());
    assert(m["Root"@] == root);
    assert(m["Prev"@] == ObjectModel::Integer(prev));
    assert(back["Prev"@] == read_back(m["Prev"@]));
}

} // verus!
