//! What is read inside a file, an object or an error, is read alike when more is written behind the
//! file.
use vstd::prelude::*;
use crate::bytes::{find_from_is, occurs_at};
use crate::lasting::{blank_lasts, extends, left_differs, same_end, token_lasts};
use crate::lexer::{escape, hex_digit, hex_from, lex, literal_from, octal_len_bounds, skip_blank, skip_blank_bounds, whitespace, Lexed, TokenModel};
use crate::object::{DictModel, ObjectModel};
use crate::parser::{data_end, data_start, endstream_at, endstream_word, entries_from, fill_shrinks, indirect_at, items_from, length_end, natural, number_or_reference, object_from, object_from_shrinks, stream_at, take_shrinks, Next, Parsed, Reader};

verus! {

/// What is read at `p`, a token or a fault, is read inside the data.
pub open spec fn lex_inside(d: Seq<u8>, p: int) -> bool {
    match lex(d, p) {
        Lexed::Token(_, q) => q < d.len(),
        Lexed::Fault(_, q) => q + 1 < d.len(),
        Lexed::End(_) => false,
    }
}

proof fn hex_fault_lasts(d: Seq<u8>, b: Seq<u8>, p: int, acc: Seq<u8>)
    requires
        extends(b, d),
        0 <= p,
        hex_from(d, p, acc) is Fault,
        hex_from(d, p, acc)->Fault_1 + 1 < d.len(),
    ensures
        hex_from(b, p, acc) == hex_from(d, p, acc),
    decreases d.len() - p,
{
    if p < d.len() {
        assert(b[p] == d[p]);
        if d[p] != 62 {
            if whitespace(d[p]) {
                hex_fault_lasts(d, b, p + 1, acc);
            } else if hex_digit(d[p]) is Some {
                hex_fault_lasts(d, b, p + 1, acc.push(hex_digit(d[p])->Some_0));
            }
        }
    }
}

/// A string between round brackets is at fault only where the data end.
proof fn literal_fault_ends(d: Seq<u8>, p: int, depth: nat, acc: Seq<u8>)
    requires
        0 <= p,
    ensures
        literal_from(d, p, depth, acc) is Fault ==> literal_from(d, p, depth, acc)->Fault_1
            >= d.len(),
    decreases d.len() - p,
{
    if p < d.len() {
        if d[p] == 40 {
            literal_fault_ends(d, p + 1, depth + 1, acc.push(40));
        } else if d[p] == 41 {
            if depth > 1 {
                literal_fault_ends(d, p + 1, (depth - 1) as nat, acc.push(41));
            }
        } else if d[p] == 92 {
            if p + 1 < d.len() {
                octal_len_bounds(d, p + 1, 3);
                let (bytes, next) = escape(d, p + 1);
                literal_fault_ends(d, next, depth, acc + bytes);
            }
        } else {
            literal_fault_ends(d, p + 1, depth, acc.push(d[p]));
        }
    }
}

/// What is read inside the data is read alike in longer data.
proof fn lex_lasts(d: Seq<u8>, b: Seq<u8>, p: int)
    requires
        extends(b, d),
        0 <= p,
        lex_inside(d, p),
    ensures
        lex(b, p) == lex(d, p),
{
    if lex(d, p) is Token {
        token_lasts(d, b, p);
    } else {
        reveal(lex);
        skip_blank_bounds(d, p, false);
        let s = skip_blank(d, p, false);
        assert(s < d.len());
        blank_lasts(d, b, p, false);
        assert(b[s] == d[s]);
        if s + 1 < d.len() {
            assert(b[s + 1] == d[s + 1]);
        }
        if d[s] == 60 {
            if !(s + 1 < d.len() && d[s + 1] == 60) {
                if s + 1 < d.len() {
                    hex_fault_lasts(d, b, s + 1, seq![]);
                } else {
                    assert(hex_from(d, s + 1, seq![])->Fault_1 >= d.len());
                }
            }
        } else if d[s] == 40 {
            literal_fault_ends(d, s + 1, 1, seq![]);
        }
    }
}

/// The next token is read inside the data, where it was not read ahead.
pub open spec fn take_inside(d: Seq<u8>, r: Reader) -> bool {
    r.ahead.len() > 0 || lex_inside(d, r.pos)
}

/// The token behind the next one is read inside the data, where it was not read ahead.
pub open spec fn second_inside(d: Seq<u8>, r: Reader) -> bool {
    r.ahead.len() > 1 || lex_inside(d, r.pos)
}

proof fn take_same(d: Seq<u8>, b: Seq<u8>, r: Reader)
    requires
        extends(b, d),
        0 <= r.pos,
        take_inside(d, r),
    ensures
        r.take(b) == r.take(d),
        r.peek(b) == r.peek(d),
{
    if r.ahead.len() == 0 {
        lex_lasts(d, b, r.pos);
    }
}

proof fn second_same(d: Seq<u8>, b: Seq<u8>, r: Reader)
    requires
        extends(b, d),
        0 <= r.pos,
        second_inside(d, r),
    ensures
        r.peek_second(b) == r.peek_second(d),
{
    if r.ahead.len() <= 1 {
        lex_lasts(d, b, r.pos);
    }
}

/// Whether a number starts a reference is decided inside the data.
pub open spec fn number_inside(d: Seq<u8>, n: int, r: Reader) -> bool {
    n < 0 || take_inside(d, r) && match r.peek(d) {
        (Next::Token(TokenModel::Integer(_)), r1) => second_inside(d, r1),
        _ => true,
    }
}

/// The data of a stream whose word `stream` ends at `p` end inside the data, at the same place in
/// the longer data `b`.
pub open spec fn stream_inside(d: Seq<u8>, b: Seq<u8>, dict: DictModel, p: int) -> bool {
    p + 1 < d.len() && same_end(d, b, dict, p) && match data_end(d, dict, data_start(d, p)) {
        Some(end) => lex_inside(d, end),
        None => false,
    }
}

/// The object that starts with the token `t` is read inside the data.
pub open spec fn object_inside(d: Seq<u8>, b: Seq<u8>, t: TokenModel, r: Reader) -> bool
    decreases r.left(d), 1nat,
{
    match t {
        TokenModel::Integer(n) => number_inside(d, n, r),
        TokenModel::ArrayStart => items_inside(d, b, r),
        TokenModel::DictStart => entries_inside(d, b, r, Map::empty()),
        _ => true,
    }
}

/// The items of an array from here on are read inside the data.
pub open spec fn items_inside(d: Seq<u8>, b: Seq<u8>, r: Reader) -> bool
    decreases r.left(d), 0nat,
    via items_inside_shrink
{
    take_inside(d, r) && match r.take(d) {
        (Next::Token(t), r1) => t is ArrayEnd || object_inside(d, b, t, r1) && match object_from(
            d,
            t,
            r1,
        ) {
            Parsed::Fault(_) => true,
            Parsed::Object(_, r2) => r2.left(d) < r.left(d) ==> items_inside(d, b, r2),
        },
        _ => true,
    }
}

#[via_fn]
proof fn items_inside_shrink(d: Seq<u8>, b: Seq<u8>, r: Reader) {
    take_shrinks(r, d);
}

/// The entries of a dictionary from here on, and the stream where it is one, are read inside the
/// data.
pub open spec fn entries_inside(d: Seq<u8>, b: Seq<u8>, r: Reader, dict: DictModel) -> bool
    decreases r.left(d), 0nat,
    via entries_inside_shrink
{
    take_inside(d, r) && match r.take(d) {
        (Next::Token(TokenModel::DictEnd), r1) => take_inside(d, r1) && match r1.peek(d) {
            (Next::Token(TokenModel::Keyword(k)), r2) => k == "stream"@ ==> stream_inside(
                d,
                b,
                dict,
                r2.pos,
            ),
            _ => true,
        },
        (Next::Token(TokenModel::Name(key)), r1) => take_inside(d, r1) && match r1.take(d) {
            (Next::Token(t), r2) => object_inside(d, b, t, r2) && match object_from(d, t, r2) {
                Parsed::Fault(_) => true,
                Parsed::Object(o, r3) => r3.left(d) < r.left(d) ==> entries_inside(
                    d,
                    b,
                    r3,
                    dict.insert(key, o),
                ),
            },
            _ => true,
        },
        _ => true,
    }
}

#[via_fn]
proof fn entries_inside_shrink(d: Seq<u8>, b: Seq<u8>, r: Reader, dict: DictModel) {
    take_shrinks(r, d);
    take_shrinks(r.take(d).1, d);
}

/// All that is read for the indirect object at `p`, as far as it can be read, is read inside the
/// data.
pub open spec fn reads_inside(d: Seq<u8>, b: Seq<u8>, p: int) -> bool {
    let r = Reader { ahead: seq![], pos: p };
    let (n1, r1) = r.take(d);
    let (n2, r2) = r1.take(d);
    let (n3, r3) = r2.take(d);
    take_inside(d, r) && (natural(n1) is None || take_inside(d, r1) && (natural(n2) is None
        || take_inside(d, r2) && (n3 != Next::Token(TokenModel::Keyword("obj"@)) || take_inside(
        d,
        r3,
    ) && match r3.take(d) {
        (Next::Token(t), r4) => object_inside(d, b, t, r4) && match object_from(d, t, r4) {
            Parsed::Fault(_) => true,
            Parsed::Object(_, r5) => take_inside(d, r5),
        },
        _ => true,
    })))
}

proof fn number_same(d: Seq<u8>, b: Seq<u8>, n: int, r: Reader)
    requires
        extends(b, d),
        r.wf(d),
        r.pos <= d.len(),
        number_inside(d, n, r),
    ensures
        number_or_reference(b, n, r) == number_or_reference(d, n, r),
{
    if n >= 0 {
        take_same(d, b, r);
        fill_shrinks(r, d);
        if let (Next::Token(TokenModel::Integer(_)), r1) = r.peek(d) {
            second_same(d, b, r1);
        }
    }
}

proof fn stream_same(d: Seq<u8>, b: Seq<u8>, dict: DictModel, p: int)
    requires
        extends(b, d),
        0 <= p,
        stream_inside(d, b, dict, p),
    ensures
        stream_at(b, dict, p) == stream_at(d, dict, p),
{
    let start = data_start(d, p);
    let end = data_end(d, dict, start)->Some_0;
    assert(b[p] == d[p] && b[p + 1] == d[p + 1]);
    assert(data_start(b, p) == start);
    let word = endstream_word();
    if length_end(d, dict, start) is Some && endstream_at(d, length_end(d, dict, start)->Some_0) {
        assert(length_end(d, dict, start) == Some(end));
        assert(end < d.len()) by {
            reveal(lex);
        }
        assert(start <= end);
        lex_lasts(d, b, end);
        assert(length_end(b, dict, start) == Some(end));
    } else {
        let i = choose|i: int| crate::bytes::first_at(d, word, start, i);
        assert(crate::bytes::first_at(d, word, start, i));
        assert(i == end);
        lex_lasts(d, b, end);
        assert(b.subrange(end, end + word.len()) =~= d.subrange(end, end + word.len()));
        assert forall|j: int| start <= j < end implies !#[trigger] occurs_at(b, word, j) by {
            if occurs_at(b, word, j) {
                assert(b.subrange(j, j + word.len()) =~= d.subrange(j, j + word.len()));
                assert(occurs_at(d, word, j));
            }
        }
        find_from_is(b, word, start, end);
        assert(data_end(b, dict, start) == Some(end));
    }
    assert(b.subrange(start, end) =~= d.subrange(start, end));
}

proof fn object_same(d: Seq<u8>, b: Seq<u8>, t: TokenModel, r: Reader)
    requires
        extends(b, d),
        r.wf(d),
        r.pos <= d.len(),
        object_inside(d, b, t, r),
    ensures
        object_from(b, t, r) == object_from(d, t, r),
    decreases r.left(d), 1nat,
{
    match t {
        TokenModel::Integer(n) => {
            number_same(d, b, n, r);
        },
        TokenModel::ArrayStart => {
            items_same(d, b, r, seq![]);
        },
        TokenModel::DictStart => {
            entries_same(d, b, r, Map::empty());
        },
        _ => {},
    }
}

proof fn items_same(d: Seq<u8>, b: Seq<u8>, r: Reader, acc: Seq<ObjectModel>)
    requires
        extends(b, d),
        r.wf(d),
        r.pos <= d.len(),
        items_inside(d, b, r),
    ensures
        items_from(b, r, acc) == items_from(d, r, acc),
    decreases r.left(d), 0nat,
{
    take_same(d, b, r);
    take_shrinks(r, d);
    if let (Next::Token(t), r1) = r.take(d) {
        if !(t is ArrayEnd) {
            object_same(d, b, t, r1);
            object_from_shrinks(d, t, r1);
            if let Parsed::Object(o, r2) = object_from(d, t, r1) {
                left_differs(d, b, r);
                left_differs(d, b, r2);
                if r2.left(d) < r.left(d) {
                    items_same(d, b, r2, acc.push(o));
                }
            }
        }
    }
}

proof fn entries_same(d: Seq<u8>, b: Seq<u8>, r: Reader, dict: DictModel)
    requires
        extends(b, d),
        r.wf(d),
        r.pos <= d.len(),
        entries_inside(d, b, r, dict),
    ensures
        entries_from(b, r, dict) == entries_from(d, r, dict),
    decreases r.left(d), 0nat,
{
    take_same(d, b, r);
    take_shrinks(r, d);
    if let (Next::Token(t), r1) = r.take(d) {
        take_shrinks(r1, d);
        if t is DictEnd {
            take_same(d, b, r1);
            fill_shrinks(r1, d);
            if let (Next::Token(TokenModel::Keyword(k)), r2) = r1.peek(d) {
                if k == "stream"@ {
                    stream_same(d, b, dict, r2.pos);
                }
            }
        } else if let TokenModel::Name(key) = t {
            take_same(d, b, r1);
            if let (Next::Token(u), r2) = r1.take(d) {
                object_same(d, b, u, r2);
                object_from_shrinks(d, u, r2);
                if let Parsed::Object(o, r3) = object_from(d, u, r2) {
                    left_differs(d, b, r);
                    left_differs(d, b, r3);
                    if r3.left(d) < r.left(d) {
                        entries_same(d, b, r3, dict.insert(key, o));
                    }
                }
            }
        }
    }
}

/// What is read at `p` inside the data, an object or an error, is read alike in longer data.
pub proof fn reading_lasts(d: Seq<u8>, b: Seq<u8>, p: int)
    requires
        extends(b, d),
        0 <= p <= d.len(),
        reads_inside(d, b, p),
    ensures
        indirect_at(b, p) == indirect_at(d, p),
{
    let r = Reader { ahead: seq![], pos: p };
    let (n1, r1) = r.take(d);
    take_same(d, b, r);
    take_shrinks(r, d);
    if natural(n1) is Some {
        let (n2, r2) = r1.take(d);
        take_same(d, b, r1);
        take_shrinks(r1, d);
        if natural(n2) is Some {
            let (n3, r3) = r2.take(d);
            take_same(d, b, r2);
            take_shrinks(r2, d);
            if n3 == Next::Token(TokenModel::Keyword("obj"@)) {
                take_same(d, b, r3);
                take_shrinks(r3, d);
                if let (Next::Token(t), r4) = r3.take(d) {
                    object_same(d, b, t, r4);
                    object_from_shrinks(d, t, r4);
                    if let Parsed::Object(o, r5) = object_from(d, t, r4) {
                        take_same(d, b, r5);
                    }
                }
            }
        }
    }
}

} // verus!
