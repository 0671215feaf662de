//! What is read of a file stays as it is when more is written behind the file.
//!
//! Reading looks at no byte behind what it reads, but for the end of a token and the place where the
//! `Length` of a stream leads to. So what ends inside the file reads the same in every longer file,
//! unless a wrong `Length` leads to an `endstream` that was written behind the file.
use vstd::prelude::*;
use crate::bytes::{find_from_is, occurs_at};
use crate::decimal::is_digit;
use crate::lexer::{escape, hex_digit, hex_from, is_octal, is_sign, lex, lex_progress, lexed_end, literal_from, name_from, name_from_bounds, number_end, number_end_bounds, octal_len, octal_len_bounds, regular, regular_end, regular_end_bounds, skip_blank, skip_blank_bounds, whitespace, Lexed, TokenModel};
use crate::object::{entry, DictModel, ObjectModel};
use crate::parser::{data_end, data_start, endstream_at, endstream_word, entries_from, fill_shrinks, indirect_at, items_from, length_end, natural, next_object, object_end, object_from, object_from_shrinks, stream_at, take_shrinks, Indirect, Next, Parsed, Reader};
use crate::xref::{low32, offset_of, rows_from, rows_progress, section_at, subsections_from, three_tokens_progress, XrefEntry, XrefModel};

verus! {

/// `b` is `d` with more behind it.
pub open spec fn extends(b: Seq<u8>, d: Seq<u8>) -> bool {
    d.len() <= b.len() && forall|i: int| 0 <= i < d.len() ==> #[trigger] b[i] == d[i]
}

pub proof fn blank_lasts(d: Seq<u8>, b: Seq<u8>, p: int, in_comment: bool)
    requires
        extends(b, d),
        0 <= p,
        skip_blank(d, p, in_comment) < d.len(),
    ensures
        skip_blank(b, p, in_comment) == skip_blank(d, p, in_comment),
    decreases d.len() - p,
{
    if p < d.len() {
        assert(b[p] == d[p]);
        if in_comment {
            blank_lasts(d, b, p + 1, d[p] != 10 && d[p] != 13);
        } else if whitespace(d[p]) {
            blank_lasts(d, b, p + 1, false);
        } else if d[p] == 37 {
            blank_lasts(d, b, p + 1, true);
        }
    }
}

proof fn regular_lasts(d: Seq<u8>, b: Seq<u8>, p: int)
    requires
        extends(b, d),
        0 <= p,
        regular_end(d, p) < d.len(),
    ensures
        regular_end(b, p) == regular_end(d, p),
    decreases d.len() - p,
{
    if p < d.len() {
        assert(b[p] == d[p]);
        if regular(d[p]) {
            regular_lasts(d, b, p + 1);
        }
    }
}

proof fn number_lasts(d: Seq<u8>, b: Seq<u8>, p: int)
    requires
        extends(b, d),
        0 <= p,
        number_end(d, p) < d.len(),
    ensures
        number_end(b, p) == number_end(d, p),
    decreases d.len() - p,
{
    if p < d.len() {
        assert(b[p] == d[p]);
        if is_digit(d[p]) || d[p] == 46 {
            number_lasts(d, b, p + 1);
        }
    }
}

proof fn name_lasts(d: Seq<u8>, b: Seq<u8>, p: int, acc: Seq<u8>)
    requires
        extends(b, d),
        0 <= p,
        name_from(d, p, acc).1 < d.len(),
    ensures
        name_from(b, p, acc) == name_from(d, p, acc),
    decreases d.len() - p,
{
    if p < d.len() {
        assert(b[p] == d[p]);
        if regular(d[p]) {
            if d[p] == 35 && p + 2 < d.len() && hex_digit(d[p + 1]) is Some && hex_digit(
                d[p + 2],
            ) is Some {
                assert(b[p + 1] == d[p + 1]);
                assert(b[p + 2] == d[p + 2]);
                name_lasts(
                    d,
                    b,
                    p + 3,
                    acc.push((hex_digit(d[p + 1])->Some_0 * 16 + hex_digit(d[p + 2])->Some_0) as u8),
                );
            } else {
                name_from_bounds(d, p + 1, acc.push(d[p]));
                assert(p + 1 < d.len());
                assert(b[p + 1] == d[p + 1]);
                if p + 2 < d.len() {
                    assert(b[p + 2] == d[p + 2]);
                } else {
                    // The name ends here, so no digit stands here.
                    assert(!regular(d[p + 1])) by {
                        if regular(d[p + 1]) {
                            name_from_bounds(d, p + 2, acc.push(d[p]).push(d[p + 1]));
                        }
                    }
                    assert(hex_digit(d[p + 1]) is None);
                }
                name_lasts(d, b, p + 1, acc.push(d[p]));
            }
        }
    }
}

proof fn octal_lasts(d: Seq<u8>, b: Seq<u8>, p: int, most: nat)
    requires
        extends(b, d),
        0 <= p,
        p + octal_len(d, p, most) < d.len(),
    ensures
        octal_len(b, p, most) == octal_len(d, p, most),
    decreases most,
{
    if most > 0 && p < d.len() {
        assert(b[p] == d[p]);
        if is_octal(d[p]) {
            octal_lasts(d, b, p + 1, (most - 1) as nat);
        }
    }
}

proof fn escape_lasts(d: Seq<u8>, b: Seq<u8>, p: int)
    requires
        extends(b, d),
        0 <= p < d.len(),
        escape(d, p).1 < d.len(),
    ensures
        escape(b, p) == escape(d, p),
        p < escape(d, p).1,
{
    assert(b[p] == d[p]);
    if p + 1 < d.len() {
        assert(b[p + 1] == d[p + 1]);
    }
    octal_len_bounds(d, p, 3);
    if is_octal(d[p]) {
        octal_lasts(d, b, p, 3);
        let n = octal_len(d, p, 3) as int;
        assert(b.subrange(p, p + n) =~= d.subrange(p, p + n));
    }
}

proof fn literal_lasts(d: Seq<u8>, b: Seq<u8>, p: int, depth: nat, acc: Seq<u8>)
    requires
        extends(b, d),
        0 <= p,
        literal_from(d, p, depth, acc) is Token,
    ensures
        literal_from(b, p, depth, acc) == literal_from(d, p, depth, acc),
    decreases d.len() - p,
{
    assert(p < d.len());
    assert(b[p] == d[p]);
    if d[p] == 40 {
        literal_lasts(d, b, p + 1, depth + 1, acc.push(40));
    } else if d[p] == 41 {
        if depth > 1 {
            literal_lasts(d, b, p + 1, (depth - 1) as nat, acc.push(41));
        }
    } else if d[p] == 92 {
        let (bytes, next) = escape(d, p + 1);
        assert(literal_from(d, next, depth, acc + bytes) is Token);
        assert(next < d.len());
        escape_lasts(d, b, p + 1);
        literal_lasts(d, b, next, depth, acc + bytes);
    } else {
        literal_lasts(d, b, p + 1, depth, acc.push(d[p]));
    }
}

proof fn hex_lasts(d: Seq<u8>, b: Seq<u8>, p: int, acc: Seq<u8>)
    requires
        extends(b, d),
        0 <= p,
        hex_from(d, p, acc) is Token,
    ensures
        hex_from(b, p, acc) == hex_from(d, p, acc),
    decreases d.len() - p,
{
    assert(p < d.len());
    assert(b[p] == d[p]);
    if d[p] != 62 {
        if whitespace(d[p]) {
            hex_lasts(d, b, p + 1, acc);
        } else if hex_digit(d[p]) is Some {
            hex_lasts(d, b, p + 1, acc.push(hex_digit(d[p])->Some_0));
        }
    }
}

/// A token that ends before the end of the data stays as it is when more is written behind them.
pub proof fn token_lasts(d: Seq<u8>, b: Seq<u8>, p: int)
    requires
        extends(b, d),
        0 <= p,
        lex(d, p) is Token,
        lexed_end(lex(d, p)) < d.len(),
    ensures
        lex(b, p) == lex(d, p),
{
    reveal(lex);
    skip_blank_bounds(d, p, false);
    let s = skip_blank(d, p, false);
    assert(s < d.len());
    blank_lasts(d, b, p, false);
    assert(b[s] == d[s]);
    if s + 1 < d.len() {
        assert(b[s + 1] == d[s + 1]);
    }
    if d[s] == 91 || d[s] == 93 {
    } else if d[s] == 60 {
        if !(s + 1 < d.len() && d[s + 1] == 60) {
            hex_lasts(d, b, s + 1, seq![]);
            assert(s + 1 < d.len());
        }
    } else if d[s] == 62 && s + 1 < d.len() && d[s + 1] == 62 {
    } else if d[s] == 40 {
        literal_lasts(d, b, s + 1, 1, seq![]);
    } else if d[s] == 47 {
        name_lasts(d, b, s + 1, seq![]);
    } else if is_sign(d[s]) || d[s] == 46 || is_digit(d[s]) {
        let start = if is_sign(d[s]) {
            s + 1
        } else {
            s
        };
        let end = number_end(d, start);
        number_end_bounds(d, start);
        number_lasts(d, b, start);
        assert(b.subrange(start, end) =~= d.subrange(start, end));
    } else if regular(d[s]) {
        let end = regular_end(d, s);
        regular_end_bounds(d, s);
        regular_lasts(d, b, s);
        assert(b.subrange(s, end) =~= d.subrange(s, end));
    }
}

/// The data of a stream whose word `stream` ends at `p` end at the same place in longer data: where
/// `endstream` does not stand where the `Length` of the stream leads to, none was written there.
pub open spec fn same_end(d: Seq<u8>, b: Seq<u8>, dict: DictModel, p: int) -> bool {
    match (length_end(d, dict, data_start(d, p)), length_end(b, dict, data_start(d, p))) {
        (Some(e), Some(longer)) => endstream_at(d, e) || !endstream_at(b, longer),
        _ => true,
    }
}

/// A stream whose `Length` leads to a token that ends inside the data, `endstream` or another, ends
/// at the same place in all longer data.
pub proof fn length_inside_lasts(d: Seq<u8>, b: Seq<u8>, dict: DictModel, p: int, n: int)
    requires
        extends(b, d),
        0 <= p,
        entry(dict, "Length"@) == Some(ObjectModel::Integer(n)),
        0 <= n,
        data_start(d, p) + n <= d.len(),
        lex(d, data_start(d, p) + n) is Token,
        lexed_end(lex(d, data_start(d, p) + n)) < d.len(),
    ensures
        same_end(d, b, dict, p),
{
    token_lasts(d, b, data_start(d, p) + n);
}

/// All streams of the object that starts with the token `t` end at the same place in longer data.
pub open spec fn steady_object(d: Seq<u8>, b: Seq<u8>, t: TokenModel, r: Reader) -> bool
    decreases r.left(d), 1nat,
{
    match t {
        TokenModel::ArrayStart => steady_items(d, b, r),
        TokenModel::DictStart => steady_entries(d, b, r, Map::empty()),
        _ => true,
    }
}

/// All streams among the items of an array from here on end at the same place in longer data.
pub open spec fn steady_items(d: Seq<u8>, b: Seq<u8>, r: Reader) -> bool
    decreases r.left(d), 0nat,
    via steady_items_shrink
{
    match r.take(d) {
        (Next::Token(t), r1) => if t is ArrayEnd {
            true
        } else {
            steady_object(d, b, t, r1) && match object_from(d, t, r1) {
                Parsed::Fault(_) => true,
                Parsed::Object(_, r2) => r2.left(d) < r.left(d) ==> steady_items(d, b, r2),
            }
        },
        _ => true,
    }
}

#[via_fn]
proof fn steady_items_shrink(d: Seq<u8>, b: Seq<u8>, r: Reader) {
    take_shrinks(r, d);
}

/// All streams among the entries of a dictionary from here on end at the same place in longer data,
/// and so does the dictionary where it is one.
pub open spec fn steady_entries(d: Seq<u8>, b: Seq<u8>, r: Reader, dict: DictModel) -> bool
    decreases r.left(d), 0nat,
    via steady_entries_shrink
{
    match r.take(d) {
        (Next::Token(TokenModel::DictEnd), r1) => match r1.peek(d) {
            (Next::Token(TokenModel::Keyword(k)), r2) => k == "stream"@ ==> same_end(
                d,
                b,
                dict,
                r2.pos,
            ),
            _ => true,
        },
        (Next::Token(TokenModel::Name(key)), r1) => match r1.take(d) {
            (Next::Token(t), r2) => steady_object(d, b, t, r2) && match object_from(d, t, r2) {
                Parsed::Fault(_) => true,
                Parsed::Object(o, r3) => r3.left(d) < r.left(d) ==> steady_entries(
                    d,
                    b,
                    r3,
                    dict.insert(key, o),
                ),
            },
            _ => true,
        },
        _ => true,
    }
}

#[via_fn]
proof fn steady_entries_shrink(d: Seq<u8>, b: Seq<u8>, r: Reader, dict: DictModel) {
    take_shrinks(r, d);
    take_shrinks(r.take(d).1, d);
}

proof fn take_grows(d: Seq<u8>, r: Reader)
    requires
        r.wf(d),
        r.pos <= d.len(),
    ensures
        r.take(d).0 is Token ==> r.pos <= r.take(d).1.pos <= d.len() && r.take(d).1.wf(d),
        r.fill(d).0 is Token ==> r.pos <= r.fill(d).1.pos <= d.len() && r.fill(d).1.wf(d),
        r.fill(d).0 is End ==> r.fill(d).1.pos == d.len(),
{
    lex_progress(d, r.pos);
}

proof fn stream_grows(d: Seq<u8>, dict: DictModel, p: int)
    requires
        0 <= p <= d.len(),
    ensures
        stream_at(d, dict, p) is Object ==> p <= stream_at(d, dict, p)->Object_1.pos,
{
    let start = data_start(d, p);
    if let Some(end) = data_end(d, dict, start) {
        lex_progress(d, end);
    }
}

/// Reading an object goes forwards.
proof fn object_grows(d: Seq<u8>, t: TokenModel, r: Reader)
    requires
        r.wf(d),
        r.pos <= d.len(),
    ensures
        object_from(d, t, r) is Object ==> r.pos <= object_from(d, t, r)->Object_1.pos,
    decreases r.left(d), 1nat,
{
    match t {
        TokenModel::Integer(n) => {
            take_grows(d, r);
            fill_shrinks(r, d);
            take_grows(d, r.peek(d).1);
        },
        TokenModel::ArrayStart => {
            items_grow(d, r, seq![]);
        },
        TokenModel::DictStart => {
            entries_grow(d, r, Map::empty());
        },
        _ => {},
    }
}

proof fn items_grow(d: Seq<u8>, r: Reader, acc: Seq<ObjectModel>)
    requires
        r.wf(d),
        r.pos <= d.len(),
    ensures
        items_from(d, r, acc) is Object ==> r.pos <= items_from(d, r, acc)->Object_1.pos,
    decreases r.left(d), 0nat,
{
    take_shrinks(r, d);
    take_grows(d, r);
    if let (Next::Token(t), r1) = r.take(d) {
        if !(t is ArrayEnd) {
            object_from_shrinks(d, t, r1);
            object_grows(d, t, r1);
            if let Parsed::Object(o, r2) = object_from(d, t, r1) {
                if r2.left(d) < r.left(d) {
                    items_grow(d, r2, acc.push(o));
                }
            }
        }
    }
}

proof fn entries_grow(d: Seq<u8>, r: Reader, dict: DictModel)
    requires
        r.wf(d),
        r.pos <= d.len(),
    ensures
        entries_from(d, r, dict) is Object ==> r.pos <= entries_from(d, r, dict)->Object_1.pos,
    decreases r.left(d), 0nat,
{
    take_shrinks(r, d);
    take_grows(d, r);
    if let (Next::Token(t), r1) = r.take(d) {
        take_shrinks(r1, d);
        take_grows(d, r1);
        if t is DictEnd {
            fill_shrinks(r1, d);
            stream_grows(d, dict, r1.peek(d).1.pos);
        } else if let TokenModel::Name(key) = t {
            if let (Next::Token(u), r2) = r1.take(d) {
                object_from_shrinks(d, u, r2);
                object_grows(d, u, r2);
                if let Parsed::Object(o, r3) = object_from(d, u, r2) {
                    if r3.left(d) < r.left(d) {
                        entries_grow(d, r3, dict.insert(key, o));
                    }
                }
            }
        }
    }
}

proof fn take_lasts(d: Seq<u8>, b: Seq<u8>, r: Reader)
    requires
        extends(b, d),
        r.wf(d),
        r.take(d).0 is Token,
        r.take(d).1.pos < d.len(),
    ensures
        r.take(b) == r.take(d),
{
    if r.ahead.len() == 0 {
        token_lasts(d, b, r.pos);
    }
}

proof fn fill_lasts(d: Seq<u8>, b: Seq<u8>, r: Reader)
    requires
        extends(b, d),
        r.wf(d),
        r.fill(d).0 is Token,
        r.fill(d).1.pos < d.len(),
    ensures
        r.fill(b) == r.fill(d),
{
    token_lasts(d, b, r.pos);
}

proof fn number_or_reference_lasts(d: Seq<u8>, b: Seq<u8>, n: int, r: Reader)
    requires
        extends(b, d),
        r.wf(d),
        r.pos <= d.len(),
        crate::parser::number_or_reference(d, n, r) is Object,
        crate::parser::number_or_reference(d, n, r)->Object_1.pos < d.len(),
    ensures
        crate::parser::number_or_reference(b, n, r) == crate::parser::number_or_reference(d, n, r),
{
    if n >= 0 {
        take_grows(d, r);
        let (n1, r1) = r.peek(d);
        fill_shrinks(r, d);
        take_grows(d, r1);
        let (n2, r2) = r1.peek_second(d);
        if r.ahead.len() == 0 {
            if n1 is Token {
                if n1->Token_0 is Integer {
                    if r1.ahead.len() <= 1 {
                        assert(n2 is Token);
                    }
                }
                fill_lasts(d, b, r);
            }
        }
        assert(r.peek(b) == r.peek(d));
        if n1 is Token && n1->Token_0 is Integer {
            if r1.ahead.len() <= 1 {
                fill_lasts(d, b, r1);
            }
            assert(r1.peek_second(b) == r1.peek_second(d));
        }
    }
}

proof fn stream_lasts(d: Seq<u8>, b: Seq<u8>, dict: DictModel, p: int)
    requires
        extends(b, d),
        0 <= p <= d.len(),
        same_end(d, b, dict, p),
        stream_at(d, dict, p) is Object,
        stream_at(d, dict, p)->Object_1.pos < d.len(),
    ensures
        stream_at(b, dict, p) == stream_at(d, dict, p),
{
    let start = data_start(d, p);
    let end = data_end(d, dict, start)->Some_0;
    lex_progress(d, end);
    assert(start <= end);
    assert(p < d.len());
    assert(b[p] == d[p]);
    if p + 1 < d.len() {
        assert(b[p + 1] == d[p + 1]);
    }
    assert(data_start(b, p) == start);
    token_lasts(d, b, end);
    let word = endstream_word();
    assert(endstream_at(b, end));
    if length_end(d, dict, start) is Some && endstream_at(d, length_end(d, dict, start)->Some_0) {
        assert(length_end(d, dict, start) == Some(end));
        assert(end < d.len()) by {
            reveal(lex);
        }
        assert(length_end(b, dict, start) == Some(end));
    } else {
        let i = choose|i: int| crate::bytes::first_at(d, word, start, i);
        assert(crate::bytes::first_at(d, word, start, i));
        assert(i == end);
        assert(b.subrange(end, end + word.len()) =~= d.subrange(end, end + word.len()));
        assert forall|j: int| start <= j < end implies !#[trigger] occurs_at(b, word, j) by {
            if occurs_at(b, word, j) {
                assert(b.subrange(j, j + word.len()) =~= d.subrange(j, j + word.len()));
                assert(occurs_at(d, word, j));
            }
        }
        find_from_is(b, word, start, end);
        assert(data_end(b, dict, start) == Some(end));
    }
    assert(b.subrange(start, end) =~= d.subrange(start, end));
}

/// What is left of a file differs by as much as the files do.
pub proof fn left_differs(d: Seq<u8>, b: Seq<u8>, r: Reader)
    requires
        extends(b, d),
        0 <= r.pos <= d.len(),
    ensures
        r.left(b) == r.left(d) + 2 * (b.len() - d.len()),
{
}

proof fn object_lasts_from(d: Seq<u8>, b: Seq<u8>, t: TokenModel, r: Reader)
    requires
        extends(b, d),
        r.wf(d),
        r.pos <= d.len(),
        steady_object(d, b, t, r),
        object_from(d, t, r) is Object,
        object_from(d, t, r)->Object_1.pos < d.len(),
    ensures
        object_from(b, t, r) == object_from(d, t, r),
    decreases r.left(d), 1nat,
{
    match t {
        TokenModel::Integer(n) => {
            number_or_reference_lasts(d, b, n, r);
        },
        TokenModel::ArrayStart => {
            items_last(d, b, r, seq![]);
        },
        TokenModel::DictStart => {
            entries_last(d, b, r, Map::empty());
        },
        _ => {},
    }
}

proof fn items_last(d: Seq<u8>, b: Seq<u8>, r: Reader, acc: Seq<ObjectModel>)
    requires
        extends(b, d),
        r.wf(d),
        r.pos <= d.len(),
        steady_items(d, b, r),
        items_from(d, r, acc) is Object,
        items_from(d, r, acc)->Object_1.pos < d.len(),
    ensures
        items_from(b, r, acc) == items_from(d, r, acc),
    decreases r.left(d), 0nat,
{
    take_shrinks(r, d);
    take_grows(d, r);
    let (n1, r1) = r.take(d);
    let t = n1->Token_0;
    if t is ArrayEnd {
        take_lasts(d, b, r);
    } else {
        object_from_shrinks(d, t, r1);
        object_grows(d, t, r1);
        let o = object_from(d, t, r1)->Object_0;
        let r2 = object_from(d, t, r1)->Object_1;
        items_grow(d, r2, acc.push(o));
        take_lasts(d, b, r);
        object_lasts_from(d, b, t, r1);
        left_differs(d, b, r);
        left_differs(d, b, r2);
        items_last(d, b, r2, acc.push(o));
    }
}

proof fn entries_last(d: Seq<u8>, b: Seq<u8>, r: Reader, dict: DictModel)
    requires
        extends(b, d),
        r.wf(d),
        r.pos <= d.len(),
        steady_entries(d, b, r, dict),
        entries_from(d, r, dict) is Object,
        entries_from(d, r, dict)->Object_1.pos < d.len(),
    ensures
        entries_from(b, r, dict) == entries_from(d, r, dict),
    decreases r.left(d), 0nat,
{
    take_shrinks(r, d);
    take_grows(d, r);
    let (n1, r1) = r.take(d);
    let t = n1->Token_0;
    take_shrinks(r1, d);
    take_grows(d, r1);
    if t is DictEnd {
        fill_shrinks(r1, d);
        let (n2, r2) = r1.peek(d);
        stream_grows(d, dict, r2.pos);
        assert(n2 is Token);
        assert(r2.pos < d.len());
        take_lasts(d, b, r);
        if r1.ahead.len() == 0 {
            fill_lasts(d, b, r1);
        }
        assert(r1.peek(b) == r1.peek(d));
        if n2->Token_0 is Keyword && n2->Token_0->Keyword_0 == "stream"@ {
            stream_lasts(d, b, dict, r2.pos);
        }
    } else {
        let key = t->Name_0;
        let (n2, r2) = r1.take(d);
        let u = n2->Token_0;
        object_from_shrinks(d, u, r2);
        object_grows(d, u, r2);
        let o = object_from(d, u, r2)->Object_0;
        let r3 = object_from(d, u, r2)->Object_1;
        entries_grow(d, r3, dict.insert(key, o));
        take_lasts(d, b, r);
        take_lasts(d, b, r1);
        object_lasts_from(d, b, u, r2);
        left_differs(d, b, r);
        left_differs(d, b, r3);
        entries_last(d, b, r3, dict.insert(key, o));
    }
}

/// All streams of the object that comes next end at the same place in longer data.
pub open spec fn steady_next(d: Seq<u8>, b: Seq<u8>, r: Reader) -> bool {
    match r.take(d) {
        (Next::Token(t), r1) => steady_object(d, b, t, r1),
        _ => true,
    }
}

/// An object can be read at `p` that ends, with the token behind it, before the end of the data,
/// and whose streams end at the same place in longer data.
pub open spec fn ends_inside(d: Seq<u8>, b: Seq<u8>, p: int) -> bool {
    match indirect_at(d, p) {
        Indirect::Fault(_) => false,
        Indirect::Object(_, _, _, r) => {
            let head = Reader { ahead: seq![], pos: p }.take(d).1.take(d).1.take(d).1;
            r.pos < d.len() && steady_next(d, b, head)
        },
    }
}

proof fn next_lasts(d: Seq<u8>, b: Seq<u8>, r: Reader)
    requires
        extends(b, d),
        r.wf(d),
        r.pos <= d.len(),
        steady_next(d, b, r),
        next_object(d, r) is Object,
        next_object(d, r)->Object_1.pos < d.len(),
    ensures
        next_object(b, r) == next_object(d, r),
        r.pos <= next_object(d, r)->Object_1.pos,
        next_object(d, r)->Object_1.wf(d),
{
    take_shrinks(r, d);
    take_grows(d, r);
    let (n1, r1) = r.take(d);
    let t = n1->Token_0;
    object_from_shrinks(d, t, r1);
    object_grows(d, t, r1);
    take_lasts(d, b, r);
    object_lasts_from(d, b, t, r1);
}

proof fn end_lasts(d: Seq<u8>, b: Seq<u8>, num: u32, gen: u16, o: ObjectModel, r: Reader)
    requires
        extends(b, d),
        r.wf(d),
        r.pos <= d.len(),
        object_end(d, num, gen, o, r) is Object,
        object_end(d, num, gen, o, r)->Object_3.pos < d.len(),
    ensures
        object_end(b, num, gen, o, r) == object_end(d, num, gen, o, r),
        r.pos <= object_end(d, num, gen, o, r)->Object_3.pos,
{
    take_grows(d, r);
    lex_progress(d, r.pos);
    assert(r.take(d).0 is Token);
    take_lasts(d, b, r);
}

/// An object that ends inside the data reads the same when more is written behind them.
pub proof fn object_lasts(d: Seq<u8>, b: Seq<u8>, p: int)
    requires
        extends(b, d),
        0 <= p <= d.len(),
        ends_inside(d, b, p),
    ensures
        indirect_at(b, p) == indirect_at(d, p),
        lex(d, p) is Token,
        lex(b, p) == lex(d, p),
{
    let r = Reader { ahead: seq![], pos: p };
    let (n1, r1) = r.take(d);
    take_grows(d, r);
    let (n2, r2) = r1.take(d);
    take_grows(d, r1);
    let (n3, r3) = r2.take(d);
    take_grows(d, r2);
    let parsed = next_object(d, r3);
    assert(parsed is Object);
    let o = parsed->Object_0;
    let r4 = parsed->Object_1;
    take_shrinks(r3, d);
    take_grows(d, r3);
    let t = r3.take(d).0->Token_0;
    object_from_shrinks(d, t, r3.take(d).1);
    object_grows(d, t, r3.take(d).1);
    let num = natural(n1)->Some_0 as u32;
    let gen = natural(n2)->Some_0 as u16;
    assert(indirect_at(d, p) == object_end(d, num, gen, o, r4));
    end_lasts(d, b, num, gen, o, r4);
    next_lasts(d, b, r3);
    take_lasts(d, b, r2);
    take_lasts(d, b, r1);
    take_lasts(d, b, r);
}

proof fn rows_last(d: Seq<u8>, b: Seq<u8>, p: int, start: int, count: int, i: int, table: XrefModel)
    requires
        extends(b, d),
        0 <= p <= d.len(),
        rows_from(d, p, start, count, i, table) is Ok,
        rows_from(d, p, start, count, i, table)->Ok_0.1 < d.len(),
    ensures
        rows_from(b, p, start, count, i, table) == rows_from(d, p, start, count, i, table),
        p <= rows_from(d, p, start, count, i, table)->Ok_0.1,
    decreases d.len() - p,
{
    three_tokens_progress(d, p);
    rows_progress(d, p, start, count, i, table);
    if i < count {
        let p1 = lex(d, p)->Token_1;
        let offset = lex(d, p)->Token_0->Integer_0;
        let p2 = lex(d, p1)->Token_1;
        let p3 = lex(d, p2)->Token_1;
        let kind = lex(d, p2)->Token_0->Keyword_0;
        lex_progress(d, p);
        lex_progress(d, p1);
        lex_progress(d, p2);
        let more = if kind == "n"@ {
            table.insert(low32(start + i), XrefEntry::Offset(offset_of(offset)))
        } else {
            table
        };
        rows_progress(d, p3, start, count, i + 1, more);
        token_lasts(d, b, p);
        token_lasts(d, b, p1);
        token_lasts(d, b, p2);
        rows_last(d, b, p3, start, count, i + 1, more);
    }
}

/// Reading a table goes forwards.
proof fn subsections_grow(d: Seq<u8>, p: int, table: XrefModel)
    requires
        0 <= p <= d.len(),
    ensures
        subsections_from(d, p, table) is Ok ==> p <= subsections_from(d, p, table)->Ok_0.1 <= d.len(),
    decreases d.len() - p,
{
    three_tokens_progress(d, p);
    if let Lexed::Token(TokenModel::Integer(start), p1) = lex(d, p) {
        if let Lexed::Token(TokenModel::Integer(count), p2) = lex(d, p1) {
            rows_progress(d, p2, start, count, 0, table);
            if let Ok((rows, p3)) = rows_from(d, p2, start, count, 0, table) {
                subsections_grow(d, p3, rows);
            }
        }
    }
}

proof fn subsections_last(d: Seq<u8>, b: Seq<u8>, p: int, table: XrefModel)
    requires
        extends(b, d),
        0 <= p <= d.len(),
        subsections_from(d, p, table) is Ok,
        lex(d, subsections_from(d, p, table)->Ok_0.1) is Token,
        lexed_end(lex(d, subsections_from(d, p, table)->Ok_0.1)) < d.len(),
    ensures
        subsections_from(b, p, table) == subsections_from(d, p, table),
    decreases d.len() - p,
{
    three_tokens_progress(d, p);
    subsections_grow(d, p, table);
    let end = subsections_from(d, p, table)->Ok_0.1;
    lex_progress(d, end);
    if let Lexed::Token(TokenModel::Integer(start), p1) = lex(d, p) {
        let p2 = lex(d, p1)->Token_1;
        let count = lex(d, p1)->Token_0->Integer_0;
        lex_progress(d, p);
        lex_progress(d, p1);
        rows_progress(d, p2, start, count, 0, table);
        let (rows, p3) = rows_from(d, p2, start, count, 0, table)->Ok_0;
        subsections_grow(d, p3, rows);
        token_lasts(d, b, p);
        token_lasts(d, b, p1);
        rows_last(d, b, p2, start, count, 0, table);
        subsections_last(d, b, p3, rows);
    } else {
        assert(end == p);
        token_lasts(d, b, p);
    }
}

/// A cross-reference section can be read at `p` that ends, with the token behind it, before the end
/// of the data. A table has its trailer behind it.
pub open spec fn section_inside(d: Seq<u8>, b: Seq<u8>, p: int) -> bool {
    match lex(d, p) {
        Lexed::Token(t, q) => if t == TokenModel::Keyword("xref"@) {
            match subsections_from(d, q, Map::empty()) {
                Ok((_, p1)) => match lex(d, p1) {
                    Lexed::Token(u, p2) => {
                        let r = Reader { ahead: seq![], pos: p2 };
                        &&& u == TokenModel::Keyword("trailer"@)
                        &&& steady_next(d, b, r)
                        &&& match next_object(d, r) {
                            Parsed::Object(_, r1) => r1.pos < d.len(),
                            Parsed::Fault(_) => false,
                        }
                    },
                    _ => false,
                },
                Err(_) => false,
            }
        } else {
            ends_inside(d, b, p)
        },
        _ => false,
    }
}

/// A cross-reference section that ends inside the data reads the same when more is written behind
/// them.
pub proof fn section_lasts(d: Seq<u8>, b: Seq<u8>, p: int)
    requires
        extends(b, d),
        0 <= p <= d.len(),
        section_inside(d, b, p),
    ensures
        section_at(b, p) == section_at(d, p),
{
    lex_progress(d, p);
    let t = lex(d, p)->Token_0;
    let q = lex(d, p)->Token_1;
    if t == TokenModel::Keyword("xref"@) {
        let p1 = subsections_from(d, q, Map::empty())->Ok_0.1;
        subsections_grow(d, q, Map::empty());
        let p2 = lex(d, p1)->Token_1;
        lex_progress(d, p1);
        next_lasts(d, b, Reader { ahead: seq![], pos: p2 });
        token_lasts(d, b, p1);
        subsections_last(d, b, q, Map::empty());
        token_lasts(d, b, p);
    } else {
        object_lasts(d, b, p);
    }
}

} // verus!
