//! What is written is read back.
use vstd::prelude::*;
use vstd::utf8::{encode_utf8, is_ascii_chars, is_ascii_chars_encode_utf8};
use crate::bytes::{find_from_is, first_at, occurs_at};
use crate::decimal::{all_digits, decimal, decimal_is_digits, decimal_value, is_digit, signed_decimal};
use crate::lexer::{digit_pairs, first_point, has_point, hex_digit, hex_from, is_sign, lex, name_from, number_at, number_end, point_number, regular, regular_end, skip_blank, strip_points, whitespace, whole_token, Lexed, TokenModel};
use crate::number::{real_of, rounded_wf, strip_back, strip_front, RealModel};
use crate::object::{entry, in_key_order, lists_keys, sorted_keys, DictModel, ObjRef, ObjectModel};
use crate::parser::{data_start, dict_or_stream, endstream_word, entries_from, indirect_at, items_from, next_object, number_or_reference, object_from, object_from_shrinks, stream_at, take_shrinks, Next, Parsed, Reader};
use crate::text::{name_lt, name_lt_total, name_lt_transitive, text_of, text_of_encoded};
use crate::writer::{dict_bytes, endstream_line, entries_tail, escaped, false_word, hex_char, hex_pair, hex_text, indirect_bytes, items_tail, name_byte, name_bytes, null_word, object_bytes, plain_in_name, stream_line, true_word};

verus! {

/// The bytes at `p` are `s`.
pub proof fn part_of(d: Seq<u8>, a: Seq<u8>, b: Seq<u8>, p: int)
    requires
        occurs_at(d, a + b, p),
    ensures
        occurs_at(d, a, p),
        occurs_at(d, b, p + a.len()),
{
    let s = d.subrange(p, p + (a + b).len());
    assert(d.subrange(p, p + a.len()) =~= s.subrange(0, a.len() as int));
    assert(s.subrange(0, a.len() as int) =~= a);
    assert(d.subrange(p + a.len(), p + a.len() + b.len()) =~= s.subrange(
        a.len() as int,
        s.len() as int,
    ));
    assert(s.subrange(a.len() as int, s.len() as int) =~= b);
}

pub proof fn byte_of(d: Seq<u8>, s: Seq<u8>, p: int, i: int)
    requires
        occurs_at(d, s, p),
        0 <= i < s.len(),
    ensures
        d[p + i] == s[i],
        p + i < d.len(),
{
    assert(d.subrange(p, p + s.len())[i] == d[p + i]);
}

/// No word, name or number goes on at `e`.
pub open spec fn stops(d: Seq<u8>, e: int) -> bool {
    e >= d.len() || !regular(d[e])
}

proof fn regular_end_is(d: Seq<u8>, p: int, e: int)
    requires
        0 <= p <= e <= d.len(),
        forall|i: int| p <= i < e ==> regular(#[trigger] d[i]),
        stops(d, e),
    ensures
        regular_end(d, p) == e,
    decreases e - p,
{
    if p < e {
        assert(regular(d[p]));
        regular_end_is(d, p + 1, e);
    }
}

proof fn number_end_is(d: Seq<u8>, p: int, e: int)
    requires
        0 <= p <= e <= d.len(),
        forall|i: int| p <= i < e ==> is_digit(#[trigger] d[i]) || d[i] == 46,
        stops(d, e),
    ensures
        number_end(d, p) == e,
    decreases e - p,
{
    if p < e {
        assert(is_digit(d[p]) || d[p] == 46);
        number_end_is(d, p + 1, e);
    }
}

/// The characters of an ASCII text are its bytes.
pub proof fn ascii_text(chars: Seq<char>, w: Seq<u8>)
    requires
        chars.len() == w.len(),
        forall|i: int| 0 <= i < w.len() ==> (#[trigger] chars[i]) as int == w[i] && w[i] < 128,
    ensures
        text_of(w) == chars,
        encode_utf8(chars) == w,
{
    assert(is_ascii_chars(chars));
    is_ascii_chars_encode_utf8(chars);
    assert(encode_utf8(chars) =~= w);
    text_of_encoded(chars);
}

/// A word.
pub proof fn lex_word(d: Seq<u8>, p: int, w: Seq<u8>)
    requires
        occurs_at(d, w, p),
        w.len() > 0,
        forall|i: int| 0 <= i < w.len() ==> regular(#[trigger] w[i]),
        !is_sign(w[0]) && w[0] != 46 && !is_digit(w[0]),
        stops(d, p + w.len()),
    ensures
        lex(d, p) == Lexed::Token(TokenModel::Keyword(text_of(w)), p + w.len()),
{
    assert forall|i: int| p <= i < p + w.len() implies regular(#[trigger] d[i]) by {
        byte_of(d, w, p, i - p);
    }
    byte_of(d, w, p, 0);
    regular_end_is(d, p, p + w.len());
    reveal(lex);
    assert(skip_blank(d, p, false) == p);
}

proof fn lex_number(d: Seq<u8>, p: int)
    requires
        0 <= p < d.len(),
        is_sign(d[p]) || d[p] == 46 || is_digit(d[p]),
    ensures
        lex(d, p) == number_at(d, p),
{
    reveal(lex);
    assert(skip_blank(d, p, false) == p);
}

/// A number without a point.
pub proof fn lex_whole(d: Seq<u8>, p: int, negative: bool, digits: Seq<u8>)
    requires
        occurs_at(
            d,
            (if negative {
                seq![45u8]
            } else {
                seq![]
            }) + digits,
            p,
        ),
        all_digits(digits),
        digits.len() > 0,
        stops(d, p + digits.len() + (if negative { 1int } else { 0 })),
    ensures
        lex(d, p) == Lexed::Token(
            whole_token(negative, digits),
            p + digits.len() + (if negative { 1int } else { 0 }),
        ),
{
    let sign = if negative {
        seq![45u8]
    } else {
        seq![]
    };
    let s = sign + digits;
    part_of(d, sign, digits, p);
    let start = p + sign.len();
    let e = start + digits.len();
    assert forall|i: int| start <= i < e implies is_digit(#[trigger] d[i]) || d[i] == 46 by {
        byte_of(d, digits, start, i - start);
        assert(is_digit(digits[i - start]));
    }
    byte_of(d, s, p, 0);
    byte_of(d, digits, start, 0);
    assert(is_digit(digits[0]));
    number_end_is(d, start, e);
    assert(d.subrange(start, e) =~= digits);
    assert(!has_point(digits)) by {
        if has_point(digits) {
            let i = choose|i: int| 0 <= i < digits.len() && digits[i] == 46;
            assert(is_digit(digits[i]));
        }
    }
    lex_number(d, p);
}

/// A whole number as it is written.
pub proof fn lex_int(d: Seq<u8>, p: int, n: int)
    requires
        occurs_at(d, signed_decimal(n), p),
        i64::MIN <= n <= i64::MAX,
        stops(d, p + signed_decimal(n).len()),
    ensures
        lex(d, p) == Lexed::Token(TokenModel::Integer(n), p + signed_decimal(n).len()),
{
    let m = if n < 0 {
        (-n) as nat
    } else {
        n as nat
    };
    decimal_is_digits(m);
    decimal_value(m);
    assert(signed_decimal(n) =~= (if n < 0 {
        seq![45u8]
    } else {
        seq![]
    }) + decimal(m));
    lex_whole(d, p, n < 0, decimal(m));
}

/// What a real is read back as: rounded to six digits after the point, and a whole number where
/// no digit is left there.
pub open spec fn real_back(r: RealModel) -> ObjectModel {
    let q = r.rounded(6);
    if q.frac.len() > 0 {
        ObjectModel::Real(q)
    } else {
        match whole_token(
            q.negative,
            if q.whole.len() == 0 {
                seq![48u8]
            } else {
                q.whole
            },
        ) {
            TokenModel::Integer(n) => ObjectModel::Integer(n),
            _ => ObjectModel::Real(q),
        }
    }
}

proof fn strip_points_keeps(s: Seq<u8>)
    requires
        s.len() > 0 ==> s.last() != 46,
    ensures
        strip_points(s) == s,
{
}

proof fn first_point_is(s: Seq<u8>, i: int, k: int)
    requires
        0 <= i <= k < s.len(),
        s[k] == 46,
        forall|j: int| i <= j < k ==> #[trigger] s[j] != 46,
    ensures
        first_point(s, i) == k,
    decreases k - i,
{
    if i < k {
        assert(s[i] != 46);
        first_point_is(s, i + 1, k);
    }
}

/// The digits before the point as they are written.
spec fn whole_digits(q: RealModel) -> Seq<u8> {
    if q.whole.len() == 0 {
        seq![48u8]
    } else {
        q.whole
    }
}

proof fn whole_digits_read(q: RealModel)
    requires
        q.wf(),
    ensures
        all_digits(whole_digits(q)),
        whole_digits(q).len() > 0,
        strip_front(whole_digits(q)) == q.whole,
{
    if q.whole.len() == 0 {
        assert(seq![48u8].drop_first() =~= seq![]);
        reveal_with_fuel(strip_front, 2);
        assert(strip_front(whole_digits(q)) =~= q.whole);
    }
}

/// Digits with a point among them are the real that they were written for.
proof fn point_number_reads(q: RealModel)
    requires
        q.wf(),
        q.frac.len() > 0,
    ensures
        has_point(whole_digits(q) + seq![46u8] + q.frac),
        point_number(q.negative, whole_digits(q) + seq![46u8] + q.frac) == q,
{
    whole_digits_read(q);
    let whole = whole_digits(q);
    let body = whole + seq![46u8] + q.frac;
    assert(body[whole.len() as int] == 46);
    assert(body.last() == q.frac.last());
    assert(is_digit(q.frac[q.frac.len() - 1]));
    strip_points_keeps(body);
    assert forall|j: int| 0 <= j < whole.len() implies #[trigger] body[j] != 46 by {
        assert(is_digit(whole[j]));
    }
    first_point_is(body, 0, whole.len() as int);
    assert(body.skip(whole.len() as int + 1) =~= q.frac);
    assert(body.take(whole.len() as int) =~= whole);
    assert(!has_point(q.frac)) by {
        if has_point(q.frac) {
            let i = choose|i: int| 0 <= i < q.frac.len() && q.frac[i] == 46;
            assert(is_digit(q.frac[i]));
        }
    }
    assert(strip_back(q.frac) == q.frac);
    assert(real_of(q.negative, whole, q.frac) =~= q);
}

/// The digits and the point of a real are all taken for its number.
proof fn point_number_lexes(d: Seq<u8>, p: int, negative: bool, whole: Seq<u8>, frac: Seq<u8>)
    requires
        all_digits(whole),
        all_digits(frac),
        whole.len() > 0,
        occurs_at(
            d,
            (if negative {
                seq![45u8]
            } else {
                seq![]
            }) + (whole + seq![46u8] + frac),
            p,
        ),
        stops(d, p + whole.len() + 1 + frac.len() + (if negative { 1int } else { 0 })),
        has_point(whole + seq![46u8] + frac),
    ensures
        lex(d, p) == Lexed::Token(
            TokenModel::Real(point_number(negative, whole + seq![46u8] + frac)),
            p + whole.len() + 1 + frac.len() + (if negative { 1int } else { 0 }),
        ),
{
    let sign = if negative {
        seq![45u8]
    } else {
        seq![]
    };
    let body = whole + seq![46u8] + frac;
    part_of(d, sign, body, p);
    let start = p + sign.len();
    let e = start + body.len();
    assert forall|i: int| start <= i < e implies is_digit(#[trigger] d[i]) || d[i] == 46 by {
        byte_of(d, body, start, i - start);
        let j = i - start;
        if j < whole.len() {
            assert(is_digit(whole[j]));
        } else if j > whole.len() {
            assert(is_digit(frac[j - whole.len() - 1]));
        }
    }
    byte_of(d, sign + body, p, 0);
    byte_of(d, body, start, 0);
    assert(is_digit(whole[0]));
    number_end_is(d, start, e);
    assert(d.subrange(start, e) =~= body);
    lex_number(d, p);
}

/// The token of a real as it is written.
proof fn lex_real(d: Seq<u8>, p: int, r: RealModel)
    requires
        r.wf(),
        occurs_at(d, r.text(), p),
        stops(d, p + r.text().len()),
    ensures
        match real_back(r) {
            ObjectModel::Integer(n) => lex(d, p) == Lexed::Token(
                TokenModel::Integer(n),
                p + r.text().len(),
            ),
            ObjectModel::Real(q) => lex(d, p) == Lexed::Token(
                TokenModel::Real(q),
                p + r.text().len(),
            ),
            _ => false,
        },
{
    rounded_wf(r, 6);
    let q = r.rounded(6);
    let sign = if q.negative {
        seq![45u8]
    } else {
        seq![]
    };
    let whole = whole_digits(q);
    whole_digits_read(q);
    if q.frac.len() == 0 {
        assert(r.text() =~= sign + whole);
        lex_whole(d, p, q.negative, whole);
        assert(real_of(q.negative, whole, seq![]) =~= q);
    } else {
        let body = whole + seq![46u8] + q.frac;
        assert(r.text() =~= sign + body);
        point_number_reads(q);
        point_number_lexes(d, p, q.negative, whole, q.frac);
    }
}

/// The digits of bytes.
spec fn nibbles(s: Seq<u8>) -> Seq<u8> {
    Seq::new(
        2 * s.len(),
        |i: int|
            if i % 2 == 0 {
                s[i / 2] / 16
            } else {
                s[i / 2] % 16
            },
    )
}

proof fn hex_char_reads(v: u8)
    requires
        v < 16,
    ensures
        hex_digit(hex_char(v as int)) == Some(v),
        !whitespace(hex_char(v as int)),
        hex_char(v as int) != 62,
        hex_char(v as int) != 60,
        regular(hex_char(v as int)),
{
}

proof fn hex_from_text(d: Seq<u8>, p: int, acc: Seq<u8>, s: Seq<u8>)
    requires
        occurs_at(d, hex_text(s) + seq![62u8], p),
    ensures
        hex_text(s).len() == 2 * s.len(),
        hex_from(d, p, acc) == Lexed::Token(
            TokenModel::HexString(digit_pairs(acc + nibbles(s))),
            p + 2 * s.len() + 1,
        ),
    decreases s.len(),
{
    if s.len() == 0 {
        assert(hex_text(s) + seq![62u8] =~= seq![62u8]);
        byte_of(d, hex_text(s) + seq![62u8], p, 0);
        assert(acc + nibbles(s) =~= acc);
    } else {
        let rest = s.drop_first();
        let hi = (s[0] / 16) as u8;
        let lo = (s[0] % 16) as u8;
        assert(hex_text(s) + seq![62u8] =~= hex_pair(s[0]) + (hex_text(rest) + seq![62u8]));
        part_of(d, hex_pair(s[0]), hex_text(rest) + seq![62u8], p);
        byte_of(d, hex_pair(s[0]), p, 0);
        byte_of(d, hex_pair(s[0]), p, 1);
        hex_char_reads(hi);
        hex_char_reads(lo);
        let acc2 = acc.push(hi).push(lo);
        hex_from_text(d, p + 2, acc2, rest);
        assert(hex_from(d, p, acc) == hex_from(d, p + 1, acc.push(hi)));
        assert(hex_from(d, p + 1, acc.push(hi)) == hex_from(d, p + 2, acc2));
        assert(acc2 + nibbles(rest) =~= acc + nibbles(s)) by {
            assert forall|i: int| 0 <= i < nibbles(rest).len() implies nibbles(rest)[i]
                == #[trigger] nibbles(s)[i + 2] by {
                assert(rest[i / 2] == s[i / 2 + 1]);
                assert((i + 2) / 2 == i / 2 + 1);
                assert((i + 2) % 2 == i % 2);
            }
        }
    }
}

/// A string as it is written.
proof fn lex_hex(d: Seq<u8>, p: int, s: Seq<u8>)
    requires
        occurs_at(d, seq![60u8] + hex_text(s) + seq![62u8], p),
    ensures
        lex(d, p) == Lexed::Token(
            TokenModel::HexString(s),
            p + (seq![60u8] + hex_text(s) + seq![62u8]).len(),
        ),
{
    let t = hex_text(s) + seq![62u8];
    assert(seq![60u8] + hex_text(s) + seq![62u8] =~= seq![60u8] + t);
    part_of(d, seq![60u8], t, p);
    byte_of(d, seq![60u8], p, 0);
    byte_of(d, t, p + 1, 0);
    hex_from_text(d, p + 1, seq![], s);
    if s.len() > 0 {
        hex_char_reads((s[0] / 16) as u8);
        assert(t[0] == hex_char((s[0] / 16) as int));
    }
    assert(seq![] + nibbles(s) =~= nibbles(s));
    assert(digit_pairs(nibbles(s)) =~= s) by {
        assert forall|i: int| 0 <= i < s.len() implies #[trigger] digit_pairs(nibbles(s))[i]
            == s[i] by {
            assert((2 * i) / 2 == i);
            assert((2 * i + 1) / 2 == i);
            let n = nibbles(s);
            assert(n[2 * i] == s[i] / 16);
            assert(n[2 * i + 1] == s[i] % 16);
        }
    }
    reveal(lex);
    assert(skip_blank(d, p, false) == p);
}

proof fn name_from_text(d: Seq<u8>, p: int, acc: Seq<u8>, s: Seq<u8>)
    requires
        occurs_at(d, escaped(s), p),
        stops(d, p + escaped(s).len()),
    ensures
        name_from(d, p, acc) == (acc + s, p + escaped(s).len()),
    decreases s.len(),
{
    if s.len() == 0 {
        assert(acc + s =~= acc);
    } else {
        let rest = s.drop_first();
        let b = s[0];
        part_of(d, name_byte(b), escaped(rest), p);
        byte_of(d, name_byte(b), p, 0);
        if plain_in_name(b) {
            name_from_text(d, p + 1, acc.push(b), rest);
            assert(acc.push(b) + rest =~= acc + s);
        } else {
            byte_of(d, name_byte(b), p, 1);
            byte_of(d, name_byte(b), p, 2);
            hex_char_reads((b / 16) as u8);
            hex_char_reads((b % 16) as u8);
            name_from_text(d, p + 3, acc.push(b), rest);
            assert(acc.push(b) + rest =~= acc + s);
            assert((b / 16) * 16 + b % 16 == b);
        }
    }
}

/// A name as it is written.
proof fn lex_name(d: Seq<u8>, p: int, name: Seq<char>)
    requires
        occurs_at(d, name_bytes(name), p),
        stops(d, p + name_bytes(name).len()),
    ensures
        lex(d, p) == Lexed::Token(TokenModel::Name(name), p + name_bytes(name).len()),
{
    let s = encode_utf8(name);
    part_of(d, seq![47u8], escaped(s), p);
    byte_of(d, seq![47u8], p, 0);
    name_from_text(d, p + 1, seq![], s);
    assert(seq![] + s =~= s);
    text_of_encoded(name);
    reveal(lex);
    assert(skip_blank(d, p, false) == p);
}

/// White space counts for nothing.
pub proof fn lex_skips(d: Seq<u8>, p: int)
    requires
        0 <= p < d.len(),
        whitespace(d[p]),
    ensures
        lex(d, p) == lex(d, p + 1),
{
    reveal(lex);
}

/// The words of the syntax and their bytes.
pub proof fn words()
    ensures
        text_of(null_word()) == "null"@,
        text_of(true_word()) == "true"@,
        text_of(false_word()) == "false"@,
        text_of(seq![82u8]) == "R"@,
        text_of(seq![111u8, 98, 106]) == "obj"@,
        text_of(seq![101u8, 110, 100, 111, 98, 106]) == "endobj"@,
        text_of(seq![115u8, 116, 114, 101, 97, 109]) == "stream"@,
        text_of(seq![101u8, 110, 100, 115, 116, 114, 101, 97, 109]) == "endstream"@,
        "null"@ != "R"@,
        "true"@ != "R"@,
        "false"@ != "R"@,
        "endobj"@ != "R"@,
        "null"@ != "stream"@,
        "true"@ != "stream"@,
        "false"@ != "stream"@,
        "endobj"@ != "stream"@,
        "true"@ != "false"@,
        "true"@ != "null"@,
        "false"@ != "null"@,
{
    reveal_strlit("null");
    reveal_strlit("true");
    reveal_strlit("false");
    reveal_strlit("R");
    reveal_strlit("obj");
    reveal_strlit("endobj");
    reveal_strlit("stream");
    reveal_strlit("endstream");
    ascii_text("null"@, null_word());
    ascii_text("true"@, true_word());
    ascii_text("false"@, false_word());
    ascii_text("R"@, seq![82u8]);
    ascii_text("obj"@, seq![111u8, 98, 106]);
    ascii_text("endobj"@, seq![101u8, 110, 100, 111, 98, 106]);
    ascii_text("stream"@, seq![115u8, 116, 114, 101, 97, 109]);
    ascii_text("endstream"@, seq![101u8, 110, 100, 115, 116, 114, 101, 97, 109]);
    assert("null"@.len() == 4);
    assert("R"@.len() == 1);
    assert("true"@.len() == 4);
    assert("false"@.len() == 5);
    assert("endobj"@.len() == 6);
    assert("stream"@.len() == 6);
    assert("true"@[0] == 't');
    assert("null"@[0] == 'n');
    assert("endobj"@[0] == 'e');
    assert("stream"@[0] == 's');
}

/// Behind data without a `Length`, the first `endstream` is the one that was written.
pub open spec fn ends_first(raw: Seq<u8>) -> bool {
    first_at(raw + endstream_line(), endstream_word(), 0, raw.len() as int + 1)
}

/// An object that can be written: its numbers fit, its dictionaries are finite, and the `Length`
/// of a stream is that of its data, or is missing while no `endstream` stands in the data.
pub open spec fn writable(o: ObjectModel) -> bool
    decreases o,
{
    match o {
        ObjectModel::Integer(n) => i64::MIN <= n <= i64::MAX,
        ObjectModel::Real(r) => r.wf(),
        ObjectModel::Array(items) => forall|i: int|
            0 <= i < items.len() ==> writable(#[trigger] items[i]),
        ObjectModel::Dictionary(d) => writable_dict(d),
        ObjectModel::Stream(d, raw) => writable_dict(d) && (match entry(d, "Length"@) {
            Some(n) => n == ObjectModel::Integer(raw.len() as int),
            None => ends_first(raw),
        }),
        _ => true,
    }
}

pub open spec fn writable_dict(d: DictModel) -> bool
    decreases d,
{
    d.dom().finite() && forall|k: Seq<char>| #[trigger] d.contains_key(k) ==> writable(d[k])
}

/// What data are read back as: without a `Length`, the line end before `endstream` belongs to
/// them.
pub open spec fn data_back(d: DictModel, raw: Seq<u8>) -> Seq<u8> {
    if entry(d, "Length"@) is None {
        raw.push(10)
    } else {
        raw
    }
}

/// What an object is read back as: itself, with its reals rounded.
pub open spec fn read_back(o: ObjectModel) -> ObjectModel
    decreases o,
{
    match o {
        ObjectModel::Real(r) => real_back(r),
        ObjectModel::Array(items) => ObjectModel::Array(
            Seq::new(
                items.len(),
                |i: int|
                    if 0 <= i < items.len() {
                        read_back(items[i])
                    } else {
                        ObjectModel::Null
                    },
            ),
        ),
        ObjectModel::Dictionary(d) => ObjectModel::Dictionary(dict_back(d)),
        ObjectModel::Stream(d, raw) => ObjectModel::Stream(dict_back(d), data_back(d, raw)),
        _ => o,
    }
}

pub open spec fn dict_back(d: DictModel) -> DictModel
    decreases d,
{
    Map::new(
        |k: Seq<char>| d.contains_key(k),
        |k: Seq<char>|
            if d.dom().finite() && d.contains_key(k) {
                read_back(d[k])
            } else {
                ObjectModel::Null
            },
    )
}

/// The reader stands at `p`, whatever it has read ahead.
pub open spec fn reads(d: Seq<u8>, r: Reader, p: int) -> bool
    decreases r.ahead.len(),
{
    if r.ahead.len() == 0 {
        lex(d, r.pos) == lex(d, p)
    } else {
        match lex(d, p) {
            Lexed::Token(t, q) => t == r.ahead[0] && reads(
                d,
                Reader { ahead: r.ahead.drop_first(), pos: r.pos },
                q,
            ),
            _ => false,
        }
    }
}

/// The reader stands at `p`; it has read a second token ahead only behind a number.
pub open spec fn stands(d: Seq<u8>, r: Reader, p: int) -> bool {
    &&& reads(d, r, p)
    &&& r.ahead.len() <= 2
    &&& r.ahead.len() == 2 ==> r.ahead[0] is Integer
    &&& r.wf(d)
    &&& r.pos <= d.len()
}

pub proof fn stands_moves(d: Seq<u8>, r: Reader, p: int, q: int)
    requires
        stands(d, r, p),
        lex(d, p) == lex(d, q),
    ensures
        stands(d, r, q),
{
}

pub proof fn take_stands(d: Seq<u8>, r: Reader, p: int)
    requires
        stands(d, r, p),
        lex(d, p) is Token,
    ensures
        r.take(d).0 == Next::Token(lex(d, p)->Token_0),
        stands(d, r.take(d).1, lex(d, p)->Token_1),
        r.take(d).1.ahead.len() <= 1,
        !(lex(d, p)->Token_0 is Integer) ==> r.take(d).1.ahead.len() == 0,
{
    take_shrinks(r, d);
    crate::lexer::lex_progress(d, r.pos);
    if r.ahead.len() == 2 {
        assert(r.ahead.drop_first().len() == 1);
    }
}

proof fn peek_stands(d: Seq<u8>, r: Reader, p: int)
    requires
        stands(d, r, p),
        lex(d, p) is Token,
        r.ahead.len() <= 1,
    ensures
        r.peek(d).0 == Next::Token(lex(d, p)->Token_0),
        stands(d, r.peek(d).1, p),
        r.peek(d).1.ahead.len() == 1,
        r.ahead.len() == 0 ==> r.peek(d).1.pos == lex(d, p)->Token_1,
{
    crate::lexer::lex_progress(d, r.pos);
    if r.ahead.len() == 0 {
        let t = lex(d, p)->Token_0;
        let q = lex(d, p)->Token_1;
        let r1 = r.peek(d).1;
        assert(r1.ahead =~= seq![t]);
        assert(r1.ahead.drop_first() =~= seq![]);
        assert(reads(d, Reader { ahead: seq![], pos: q }, q));
        assert(reads(d, r1, p));
    }
}

proof fn peek_second_stands(d: Seq<u8>, r: Reader, p: int)
    requires
        stands(d, r, p),
        lex(d, p) is Token,
        lex(d, p)->Token_0 is Integer,
        lex(d, lex(d, p)->Token_1) is Token,
        r.ahead.len() == 1,
    ensures
        r.peek_second(d).0 == Next::Token(lex(d, lex(d, p)->Token_1)->Token_0),
        stands(d, r.peek_second(d).1, p),
        r.peek_second(d).1.ahead.len() == 2,
        r.peek_second(d).1.pos == lex(d, lex(d, p)->Token_1)->Token_1,
{
    let t = lex(d, p)->Token_0;
    let q = lex(d, p)->Token_1;
    let u = lex(d, q)->Token_0;
    let q2 = lex(d, q)->Token_1;
    assert(r.ahead.drop_first() =~= seq![]);
    assert(reads(d, Reader { ahead: seq![], pos: r.pos }, q));
    crate::lexer::lex_progress(d, r.pos);
    let r2 = r.peek_second(d).1;
    assert(r2.ahead =~= seq![t, u]);
    let r3 = Reader { ahead: r2.ahead.drop_first(), pos: r2.pos };
    assert(r3.ahead =~= seq![u]);
    assert(r3.ahead.drop_first() =~= seq![]);
    assert(reads(d, Reader { ahead: seq![], pos: q2 }, q2));
    assert(reads(d, r3, q));
    assert(reads(d, r2, p));
}

/// What stands at `e` does not join what was read before.
pub open spec fn solid(d: Seq<u8>, e: int) -> bool {
    match lex(d, e) {
        Lexed::End(_) => true,
        Lexed::Fault(_, _) => false,
        Lexed::Token(t, q) => {
            &&& t != TokenModel::Keyword("stream"@)
            &&& t is Integer ==> lex(d, q) is Token && lex(d, q)->Token_0 != TokenModel::Keyword(
                "R"@,
            )
        },
    }
}

/// What is known of the reader behind an object.
pub open spec fn goes_on(d: Seq<u8>, r: Reader, e: int) -> bool {
    lex(d, e) is Token ==> stands(d, r, e)
}

/// The first token of an object.
proof fn lead_token(d: Seq<u8>, p: int, o: ObjectModel)
    requires
        writable(o),
        occurs_at(d, object_bytes(o), p),
        stops(d, p + object_bytes(o).len()),
    ensures
        match lex(d, p) {
            Lexed::Token(t, q) => {
                &&& t != TokenModel::Keyword("stream"@)
                &&& t != TokenModel::Keyword("R"@)
                &&& !(t is ArrayEnd)
                &&& !(t is DictEnd)
                &&& t is Integer ==> (q == p + object_bytes(o).len() || (lex(d, q) is Token && lex(
                    d,
                    q,
                )->Token_0 is Integer))
            },
            _ => false,
        },
{
    words();
    let s = object_bytes(o);
    match o {
        ObjectModel::Null => {
            lex_word(d, p, null_word());
        },
        ObjectModel::Boolean(b) => {
            if b {
                lex_word(d, p, true_word());
            } else {
                lex_word(d, p, false_word());
            }
        },
        ObjectModel::Integer(n) => {
            lex_int(d, p, n);
        },
        ObjectModel::Real(r) => {
            lex_real(d, p, r);
        },
        ObjectModel::String(b) => {
            lex_hex(d, p, b);
        },
        ObjectModel::Name(n) => {
            lex_name(d, p, n);
        },
        ObjectModel::Array(items) => {
            byte_of(d, s, p, 0);
            reveal(lex);
            assert(skip_blank(d, p, false) == p);
        },
        ObjectModel::Dictionary(m) => {
            byte_of(d, s, p, 0);
            byte_of(d, s, p, 1);
            reveal(lex);
            assert(skip_blank(d, p, false) == p);
        },
        ObjectModel::Stream(m, raw) => {
            byte_of(d, s, p, 0);
            byte_of(d, s, p, 1);
            reveal(lex);
            assert(skip_blank(d, p, false) == p);
        },
        ObjectModel::Reference(r) => {
            lex_reference(d, p, r);
        },
    }
}

/// The three tokens of a reference.
proof fn lex_reference(d: Seq<u8>, p: int, r: ObjRef)
    requires
        occurs_at(d, object_bytes(ObjectModel::Reference(r)), p),
        stops(d, p + object_bytes(ObjectModel::Reference(r)).len()),
    ensures
        ({
            let e1 = p + decimal(r.num as nat).len();
            let e2 = e1 + 1 + decimal(r.gen as nat).len();
            &&& lex(d, p) == Lexed::Token(TokenModel::Integer(r.num as int), e1)
            &&& lex(d, e1) == Lexed::Token(TokenModel::Integer(r.gen as int), e2)
            &&& lex(d, e2) == Lexed::Token(TokenModel::Keyword("R"@), e2 + 2)
            &&& e2 + 2 == p + object_bytes(ObjectModel::Reference(r)).len()
        }),
{
    words();
    let a = decimal(r.num as nat);
    let b = decimal(r.gen as nat);
    let s = object_bytes(ObjectModel::Reference(r));
    assert(s =~= a + (seq![32u8] + (b + (seq![32u8] + seq![82u8]))));
    let e1 = p + a.len();
    let e2 = e1 + 1 + b.len();
    part_of(d, a, seq![32u8] + (b + (seq![32u8] + seq![82u8])), p);
    part_of(d, seq![32u8], b + (seq![32u8] + seq![82u8]), e1);
    part_of(d, b, seq![32u8] + seq![82u8], e1 + 1);
    part_of(d, seq![32u8], seq![82u8], e2);
    byte_of(d, seq![32u8], e1, 0);
    byte_of(d, seq![32u8], e2, 0);
    lex_int(d, p, r.num as int);
    lex_skips(d, e1);
    lex_int(d, e1 + 1, r.gen as int);
    lex_skips(d, e2);
    lex_word(d, e2 + 1, seq![82u8]);
}

/// A number is read as such where what follows does not make it a reference.
proof fn int_reads(d: Seq<u8>, n: int, r: Reader, e: int)
    requires
        goes_on(d, r, e),
        lex(d, e) is End ==> r.ahead.len() == 0 && lex(d, r.pos) is End,
        r.ahead.len() <= 1,
        solid(d, e),
    ensures
        number_or_reference(d, n, r) is Object,
        number_or_reference(d, n, r)->Object_0 == ObjectModel::Integer(n),
        goes_on(d, number_or_reference(d, n, r)->Object_1, e),
{
    if n >= 0 && lex(d, e) is Token {
        peek_stands(d, r, e);
        if lex(d, e)->Token_0 is Integer {
            peek_second_stands(d, r.peek(d).1, e);
        }
    }
}

/// Behind an item of an array stands another or the end of the array.
proof fn tail_solid(d: Seq<u8>, q: int, items: Seq<ObjectModel>, k: nat)
    requires
        1 <= k <= items.len(),
        forall|i: int| 0 <= i < items.len() ==> writable(#[trigger] items[i]),
        occurs_at(d, items_tail(items, k), q),
    ensures
        stops(d, q),
        solid(d, q),
        lex(d, q) is Token,
        lex(d, q)->Token_0 != TokenModel::Keyword("R"@),
    decreases items.len() - k,
{
    byte_of(d, items_tail(items, k), q, 0);
    if k == items.len() {
        reveal(lex);
        assert(skip_blank(d, q, false) == q);
    } else {
        let o = items[k as int];
        let body = object_bytes(o);
        let rest = items_tail(items, k + 1);
        assert(items_tail(items, k) =~= seq![32u8] + (body + rest));
        part_of(d, seq![32u8], body + rest, q);
        part_of(d, body, rest, q + 1);
        lex_skips(d, q);
        tail_solid(d, q + 1 + body.len(), items, k + 1);
        lead_token(d, q + 1, o);
    }
}

spec fn items_back(items: Seq<ObjectModel>, k: nat) -> Seq<ObjectModel> {
    Seq::new(k, |i: int| read_back(items[i]))
}

proof fn items_read(d: Seq<u8>, q: int, items: Seq<ObjectModel>, k: nat, r: Reader)
    requires
        0 <= q,
        k <= items.len(),
        forall|i: int| 0 <= i < items.len() ==> writable(#[trigger] items[i]),
        occurs_at(d, items_tail(items, k), q),
        stands(d, r, q),
    ensures
        items_from(d, r, items_back(items, k)) is Object,
        items_from(d, r, items_back(items, k))->Object_0 == ObjectModel::Array(
            items_back(items, items.len()),
        ),
        stands(
            d,
            items_from(d, r, items_back(items, k))->Object_1,
            q + items_tail(items, k).len(),
        ),
    decreases items, items.len() - k, 0nat,
{
    take_shrinks(r, d);
    if k == items.len() {
        byte_of(d, items_tail(items, k), q, 0);
        reveal(lex);
        assert(skip_blank(d, q, false) == q);
        take_stands(d, r, q);
    } else {
        let o = items[k as int];
        let body = object_bytes(o);
        let rest = items_tail(items, k + 1);
        let space = if k > 0 {
            seq![32u8]
        } else {
            seq![]
        };
        let p = q + space.len();
        let e = p + body.len();
        assert(items_tail(items, k) =~= space + (body + rest));
        part_of(d, space, body + rest, q);
        part_of(d, body, rest, p);
        if k > 0 {
            byte_of(d, seq![32u8], q, 0);
            lex_skips(d, q);
        }
        stands_moves(d, r, q, p);
        tail_solid(d, e, items, k + 1);
        lead_token(d, p, o);
        take_stands(d, r, p);
        object_reads(d, p, o, r);
        let (n, r1) = r.take(d);
        object_from_shrinks(d, n->Token_0, r1);
        let r2 = next_object(d, r)->Object_1;
        assert(items_back(items, k).push(read_back(o)) =~= items_back(items, k + 1));
        items_read(d, e, items, k + 1, r2);
    }
}

spec fn entries_back(m: DictModel, keys: Seq<Seq<char>>, k: nat) -> DictModel
    decreases k,
{
    if k == 0 {
        Map::empty()
    } else {
        entries_back(m, keys, (k - 1) as nat).insert(keys[k - 1], read_back(m[keys[k - 1]]))
    }
}

proof fn entries_back_all(m: DictModel, keys: Seq<Seq<char>>, k: nat)
    requires
        m.dom().finite(),
        k <= keys.len(),
        in_key_order(keys),
        forall|x: Seq<char>| keys.contains(x) ==> m.contains_key(x),
    ensures
        forall|x: Seq<char>|
            entries_back(m, keys, k).contains_key(x) <==> exists|i: int|
                0 <= i < k && #[trigger] keys[i] == x,
        forall|x: Seq<char>|
            #[trigger] entries_back(m, keys, k).contains_key(x) ==> entries_back(m, keys, k)[x]
                == read_back(m[x]),
    decreases k,
{
    if k > 0 {
        entries_back_all(m, keys, (k - 1) as nat);
        assert forall|x: Seq<char>|
            entries_back(m, keys, k).contains_key(x) <==> exists|i: int|
                0 <= i < k && #[trigger] keys[i] == x by {
            if entries_back(m, keys, k).contains_key(x) && x == keys[k - 1] {
                assert(keys[k - 1] == x);
            }
            if exists|i: int| 0 <= i < k && #[trigger] keys[i] == x {
                let i = choose|i: int| 0 <= i < k && #[trigger] keys[i] == x;
                if i < k - 1 {
                    assert(keys[i] == x);
                }
            }
        }
    }
}

/// Behind an entry of a dictionary stands another or the end of the dictionary.
proof fn entries_solid(d: Seq<u8>, q: int, m: DictModel, keys: Seq<Seq<char>>, k: nat)
    requires
        k <= keys.len(),
        m.dom().finite(),
        occurs_at(d, entries_tail(m, keys, k), q),
    ensures
        stops(d, q),
        solid(d, q),
        lex(d, q) is Token,
        d[q] == 32,
{
    let tail = entries_tail(m, keys, k);
    byte_of(d, tail, q, 0);
    lex_skips(d, q);
    if k == keys.len() || !m.contains_key(keys[k as int]) {
        byte_of(d, tail, q, 1);
        byte_of(d, tail, q, 2);
        reveal(lex);
        assert(skip_blank(d, q + 1, false) == q + 1);
    } else {
        let name = name_bytes(keys[k as int]);
        let rest = seq![32u8] + (object_bytes(m[keys[k as int]]) + entries_tail(m, keys, k + 1));
        assert(tail =~= seq![32u8] + (name + rest));
        part_of(d, seq![32u8], name + rest, q);
        part_of(d, name, rest, q + 1);
        byte_of(d, rest, q + 1 + name.len(), 0);
        lex_name(d, q + 1, keys[k as int]);
    }
}

/// Reads the entries of a dictionary; gives the reader behind them.
proof fn entries_read(
    d: Seq<u8>,
    q: int,
    m: DictModel,
    keys: Seq<Seq<char>>,
    k: nat,
    r: Reader,
) -> (after: Reader)
    requires
        0 <= q,
        k <= keys.len(),
        writable_dict(m),
        lists_keys(m, keys),
        occurs_at(d, entries_tail(m, keys, k), q),
        stands(d, r, q),
    ensures
        entries_from(d, r, entries_back(m, keys, k)) == dict_or_stream(d, dict_back(m), after),
        stands(d, after, q + entries_tail(m, keys, k).len()),
        after.ahead.len() == 0,
    decreases m, keys.len() - k, 0nat,
{
    let tail = entries_tail(m, keys, k);
    take_shrinks(r, d);
    byte_of(d, tail, q, 0);
    if k == keys.len() {
        byte_of(d, tail, q, 1);
        byte_of(d, tail, q, 2);
        lex_skips(d, q);
        reveal(lex);
        assert(skip_blank(d, q + 1, false) == q + 1);
        take_stands(d, r, q);
        entries_back_all(m, keys, k);
        assert(entries_back(m, keys, k) =~= dict_back(m)) by {
            assert forall|x: Seq<char>|
                entries_back(m, keys, k).contains_key(x) <==> m.contains_key(x) by {
                if m.contains_key(x) {
                    assert(keys.contains(x));
                    let i = keys.index_of(x);
                    assert(keys[i] == x);
                }
                if entries_back(m, keys, k).contains_key(x) {
                    let i = choose|i: int| 0 <= i < k && #[trigger] keys[i] == x;
                    assert(keys.contains(x));
                }
            }
        }
        r.take(d).1
    } else {
        let key = keys[k as int];
        assert(keys.contains(key));
        let name = name_bytes(key);
        let o = m[key];
        let body = object_bytes(o);
        let rest = entries_tail(m, keys, k + 1);
        assert(tail =~= seq![32u8] + (name + (seq![32u8] + (body + rest))));
        part_of(d, seq![32u8], name + (seq![32u8] + (body + rest)), q);
        part_of(d, name, seq![32u8] + (body + rest), q + 1);
        let e1 = q + 1 + name.len();
        part_of(d, seq![32u8], body + rest, e1);
        part_of(d, body, rest, e1 + 1);
        let e2 = e1 + 1 + body.len();
        byte_of(d, seq![32u8], q, 0);
        byte_of(d, seq![32u8], e1, 0);
        lex_skips(d, q);
        lex_skips(d, e1);
        lex_name(d, q + 1, key);
        take_stands(d, r, q);
        let r1 = r.take(d).1;
        entries_solid(d, e2, m, keys, k + 1);
        stands_moves(d, r1, e1, e1 + 1);
        lead_token(d, e1 + 1, o);
        take_shrinks(r1, d);
        take_stands(d, r1, e1 + 1);
        object_reads(d, e1 + 1, o, r1);
        let (n, r2) = r1.take(d);
        object_from_shrinks(d, n->Token_0, r2);
        let r3 = next_object(d, r1)->Object_1;
        assert(entries_back(m, keys, k + 1) == entries_back(m, keys, k).insert(key, read_back(o)));
        entries_read(d, e2, m, keys, k + 1, r3)
    }
}

/// An object that was written is read back, wherever it stands, and the reader goes on behind it.
pub proof fn object_reads(d: Seq<u8>, p: int, o: ObjectModel, r: Reader)
    requires
        0 <= p,
        writable(o),
        occurs_at(d, object_bytes(o), p),
        stops(d, p + object_bytes(o).len()),
        solid(d, p + object_bytes(o).len()),
        stands(d, r, p),
    ensures
        next_object(d, r) is Object,
        next_object(d, r)->Object_0 == read_back(o),
        goes_on(d, next_object(d, r)->Object_1, p + object_bytes(o).len()),
    decreases o, 0int, 1nat,
{
    words();
    let s = object_bytes(o);
    let e = p + s.len();
    lead_token(d, p, o);
    take_stands(d, r, p);
    let r1 = r.take(d).1;
    match o {
        ObjectModel::Null => {
            lex_word(d, p, null_word());
            assert(object_from(d, TokenModel::Keyword("null"@), r1) == Parsed::Object(o, r1));
        },
        ObjectModel::Boolean(b) => {
            if b {
                lex_word(d, p, true_word());
                assert(object_from(d, TokenModel::Keyword("true"@), r1) == Parsed::Object(o, r1));
            } else {
                lex_word(d, p, false_word());
                assert(object_from(d, TokenModel::Keyword("false"@), r1) == Parsed::Object(o, r1));
            }
        },
        ObjectModel::Integer(n) => {
            lex_int(d, p, n);
            int_reads(d, n, r1, e);
        },
        ObjectModel::Real(x) => {
            lex_real(d, p, x);
            if let ObjectModel::Integer(n) = real_back(x) {
                int_reads(d, n, r1, e);
            }
        },
        ObjectModel::String(b) => {
            lex_hex(d, p, b);
        },
        ObjectModel::Name(n) => {
            lex_name(d, p, n);
        },
        ObjectModel::Array(items) => {
            part_of(d, seq![91u8], items_tail(items, 0), p);
            byte_of(d, seq![91u8], p, 0);
            reveal(lex);
            assert(skip_blank(d, p, false) == p);
            items_read(d, p + 1, items, 0, r1);
            assert(items_back(items, 0) =~= seq![]);
            assert(items_back(items, items.len()) =~= read_back(o)->Array_0);
        },
        ObjectModel::Dictionary(m) => {
            let after = dict_reads(d, p, m, r);
            if lex(d, e) is Token {
                peek_stands(d, after, e);
            }
        },
        ObjectModel::Stream(m, raw) => {
            assert(s =~= dict_bytes(m) + (stream_line() + raw + endstream_line()));
            part_of(d, dict_bytes(m), stream_line() + raw + endstream_line(), p);
            let after = dict_reads(d, p, m, r);
            stream_reads(d, p, m, raw, after);
        },
        ObjectModel::Reference(x) => {
            lex_reference(d, p, x);
            reference_reads(d, p, x, r1);
        },
    }
}

proof fn reference_reads(d: Seq<u8>, p: int, x: ObjRef, r1: Reader)
    requires
        occurs_at(d, object_bytes(ObjectModel::Reference(x)), p),
        stops(d, p + object_bytes(ObjectModel::Reference(x)).len()),
        stands(d, r1, p + decimal(x.num as nat).len()),
        r1.ahead.len() <= 1,
    ensures
        number_or_reference(d, x.num as int, r1) is Object,
        number_or_reference(d, x.num as int, r1)->Object_0 == ObjectModel::Reference(x),
        stands(
            d,
            number_or_reference(d, x.num as int, r1)->Object_1,
            p + object_bytes(ObjectModel::Reference(x)).len(),
        ),
{
    lex_reference(d, p, x);
    let e = p + object_bytes(ObjectModel::Reference(x)).len();
    let e1 = p + decimal(x.num as nat).len();
    peek_stands(d, r1, e1);
    let r2 = r1.peek(d).1;
    peek_second_stands(d, r2, e1);
    let r3 = r2.peek_second(d).1;
    assert(r3.ahead.skip(2) =~= seq![]);
    assert(reads(d, Reader { ahead: seq![], pos: e }, e));
}

/// What follows the dictionary of a stream is read as its data.
proof fn stream_reads(d: Seq<u8>, p: int, m: DictModel, raw: Seq<u8>, after: Reader)
    requires
        0 <= p,
        writable(ObjectModel::Stream(m, raw)),
        occurs_at(d, object_bytes(ObjectModel::Stream(m, raw)), p),
        stops(d, p + object_bytes(ObjectModel::Stream(m, raw)).len()),
        stands(d, after, p + dict_bytes(m).len()),
        after.ahead.len() == 0,
    ensures
        dict_or_stream(d, dict_back(m), after) is Object,
        dict_or_stream(d, dict_back(m), after)->Object_0 == ObjectModel::Stream(
            dict_back(m),
            data_back(m, raw),
        ),
        stands(
            d,
            dict_or_stream(d, dict_back(m), after)->Object_1,
            p + object_bytes(ObjectModel::Stream(m, raw)).len(),
        ),
{
    words();
    let s = object_bytes(ObjectModel::Stream(m, raw));
    let e = p + s.len();
    let head = dict_bytes(m);
    let rest = stream_line() + (raw + endstream_line());
    assert(s =~= head + rest);
    part_of(d, head, rest, p);
    let e1 = p + head.len();
    part_of(d, stream_line(), raw + endstream_line(), e1);
    let e2 = e1 + 8;
    part_of(d, raw, endstream_line(), e2);
    let e3 = e2 + raw.len();
    let word = seq![115u8, 116, 114, 101, 97, 109];
    let end_word = seq![101u8, 110, 100, 115, 116, 114, 101, 97, 109];
    assert(stream_line() =~= seq![10u8] + (word + seq![10u8]));
    assert(endstream_line() =~= seq![10u8] + end_word);
    part_of(d, seq![10u8], word + seq![10u8], e1);
    part_of(d, word, seq![10u8], e1 + 1);
    part_of(d, seq![10u8], end_word, e3);
    byte_of(d, seq![10u8], e1, 0);
    byte_of(d, seq![10u8], e1 + 7, 0);
    byte_of(d, seq![10u8], e3, 0);
    lex_skips(d, e1);
    lex_word(d, e1 + 1, word);
    lex_skips(d, e3);
    lex_word(d, e3 + 1, end_word);
    peek_stands(d, after, e1);
    let back = dict_back(m);
    assert(writable_dict(m));
    assert(data_start(d, e1 + 7) == e2);
    assert(d.subrange(e2, e3) =~= raw);
    let r4 = Reader { ahead: seq![], pos: e };
    if m.contains_key("Length"@) {
        assert(m["Length"@] == ObjectModel::Integer(raw.len() as int));
        assert(back["Length"@] == read_back(m["Length"@]));
        assert(entry(back, "Length"@) == Some(ObjectModel::Integer(raw.len() as int)));
    } else {
        let tail = raw + endstream_line();
        assert(endstream_word() =~= end_word);
        assert forall|j: int| e2 <= j < e3 + 1 implies !#[trigger] occurs_at(d, end_word, j) by {
            if occurs_at(d, end_word, j) {
                assert(tail.subrange(j - e2, j - e2 + 9) =~= d.subrange(j, j + 9));
                assert(occurs_at(tail, end_word, j - e2));
            }
        }
        find_from_is(d, end_word, e2, e3 + 1);
        assert(d.subrange(e2, e3 + 1) =~= raw.push(10));
    }
    assert(stream_at(d, back, e1 + 7) == Parsed::Object(
        ObjectModel::Stream(back, data_back(m, raw)),
        r4,
    ));
    assert(reads(d, r4, e));
}

/// Reads a dictionary up to its end; gives the reader behind it.
proof fn dict_reads(d: Seq<u8>, p: int, m: DictModel, r: Reader) -> (after: Reader)
    requires
        0 <= p,
        writable_dict(m),
        occurs_at(d, dict_bytes(m), p),
        stands(d, r, p),
    ensures
        next_object(d, r) == dict_or_stream(d, dict_back(m), after),
        stands(d, after, p + dict_bytes(m).len()),
        after.ahead.len() == 0,
    decreases m, sorted_keys(m).len() + 1, 0nat,
{
    let keys = sorted_keys(m);
    finite_is_listed(m);
    let tail = entries_tail(m, keys, 0);
    part_of(d, seq![60u8, 60], tail, p);
    byte_of(d, seq![60u8, 60], p, 0);
    byte_of(d, seq![60u8, 60], p, 1);
    reveal(lex);
    assert(skip_blank(d, p, false) == p);
    take_stands(d, r, p);
    entries_read(d, p + 2, m, keys, 0, r.take(d).1)
}

/// The names of a finite dictionary can be listed in order.
pub proof fn finite_is_listed(m: DictModel)
    requires
        m.dom().finite(),
    ensures
        lists_keys(m, sorted_keys(m)),
{
    let keys = key_list(m);
    assert(lists_keys(m, keys));
}

proof fn key_list(m: DictModel) -> (keys: Seq<Seq<char>>)
    requires
        m.dom().finite(),
    ensures
        lists_keys(m, keys),
    decreases m.dom().len(),
{
    if m.dom().len() == 0 {
        let keys = Seq::<Seq<char>>::empty();
        assert forall|k: Seq<char>| m.contains_key(k) <==> keys.contains(k) by {
            if m.contains_key(k) {
                assert(m.dom().contains(k));
            }
        }
        keys
    } else {
        let x = m.dom().choose();
        let rest = m.remove(x);
        let a = key_list(rest);
        assert(rest.dom() =~= m.dom().remove(x));
        let i = place(a, x, 0);
        let keys = a.insert(i, x);
        assert forall|k: Seq<char>| m.contains_key(k) <==> keys.contains(k) by {
            if m.contains_key(k) {
                if k == x {
                    assert(keys[i] == k);
                } else {
                    assert(rest.contains_key(k));
                    assert(a.contains(k));
                    let j = a.index_of(k);
                    if j < i {
                        assert(keys[j] == k);
                    } else {
                        assert(keys[j + 1] == k);
                    }
                }
            }
            if keys.contains(k) {
                let j = keys.index_of(k);
                if j < i {
                    assert(a[j] == k);
                    assert(a.contains(k));
                } else if j > i {
                    assert(a[j - 1] == k);
                    assert(a.contains(k));
                }
            }
        }
        assert forall|j: int, l: int| 0 <= j < l < keys.len() implies #[trigger] name_lt(
            keys[j],
            keys[l],
        ) by {
            let jj = if j < i {
                j
            } else {
                j - 1
            };
            let ll = if l < i {
                l
            } else {
                l - 1
            };
            if j == i {
                assert(name_lt(x, a[ll]));
            } else if l == i {
                assert(name_lt(a[jj], x));
            } else {
                assert(name_lt(a[jj], a[ll]));
            }
        }
        keys
    }
}

/// Where `x` belongs among keys in order.
proof fn place(a: Seq<Seq<char>>, x: Seq<char>, from: int) -> (i: int)
    requires
        in_key_order(a),
        !a.contains(x),
        0 <= from <= a.len(),
        forall|j: int| 0 <= j < from ==> name_lt(#[trigger] a[j], x),
    ensures
        0 <= i <= a.len(),
        forall|j: int| 0 <= j < i ==> name_lt(#[trigger] a[j], x),
        forall|j: int| i <= j < a.len() ==> name_lt(x, #[trigger] a[j]),
    decreases a.len() - from,
{
    if from == a.len() {
        from
    } else if name_lt(a[from], x) {
        place(a, x, from + 1)
    } else {
        assert(a.contains(a[from]));
        name_lt_total(a[from], x);
        assert forall|j: int| from <= j < a.len() implies name_lt(x, #[trigger] a[j]) by {
            if j > from {
                assert(name_lt(a[from], a[j]));
                name_lt_transitive(x, a[from], a[j]);
            }
        }
        from
    }
}

/// Reading what was written gives the object back.
pub proof fn written_object_is_read(o: ObjectModel)
    requires
        writable(o),
    ensures
        next_object(object_bytes(o), Reader { ahead: seq![], pos: 0 }) is Object,
        next_object(object_bytes(o), Reader { ahead: seq![], pos: 0 })->Object_0 == read_back(o),
{
    let d = object_bytes(o);
    assert(d.subrange(0, d.len() as int) =~= d);
    assert(lex(d, d.len() as int) is End) by {
        reveal(lex);
    }
    object_reads(d, 0, o, Reader { ahead: seq![], pos: 0 });
}

/// An indirect object that was written is read back from where it stands in a file.
pub proof fn written_indirect_object_is_read(d: Seq<u8>, p: int, num: u32, gen: u16, o: ObjectModel)
    requires
        0 <= p,
        writable(o),
        occurs_at(d, indirect_bytes(num, gen, o), p),
    ensures
        indirect_at(d, p) is Object,
        indirect_at(d, p)->Object_0 == num,
        indirect_at(d, p)->Object_1 == gen,
        indirect_at(d, p)->Object_2 == read_back(o),
{
    words();
    let a = decimal(num as nat);
    let b = decimal(gen as nat);
    let body = object_bytes(o);
    let obj = seq![111u8, 98, 106];
    let endobj = seq![101u8, 110, 100, 111, 98, 106];
    let rest3 = seq![10u8] + (body + (seq![10u8] + (endobj + seq![10u8])));
    let rest2 = seq![32u8] + (obj + rest3);
    let rest1 = seq![32u8] + (b + rest2);
    assert(indirect_bytes(num, gen, o) =~= a + rest1);
    part_of(d, a, rest1, p);
    let e1 = p + a.len();
    part_of(d, seq![32u8], b + rest2, e1);
    part_of(d, b, rest2, e1 + 1);
    let e2 = e1 + 1 + b.len();
    part_of(d, seq![32u8], obj + rest3, e2);
    part_of(d, obj, rest3, e2 + 1);
    let e3 = e2 + 4;
    part_of(d, seq![10u8], body + (seq![10u8] + (endobj + seq![10u8])), e3);
    part_of(d, body, seq![10u8] + (endobj + seq![10u8]), e3 + 1);
    let e4 = e3 + 1 + body.len();
    part_of(d, seq![10u8], endobj + seq![10u8], e4);
    part_of(d, endobj, seq![10u8], e4 + 1);
    byte_of(d, seq![32u8], e1, 0);
    byte_of(d, seq![32u8], e2, 0);
    byte_of(d, seq![10u8], e3, 0);
    byte_of(d, seq![10u8], e4, 0);
    byte_of(d, seq![10u8], e4 + 7, 0);
    lex_int(d, p, num as int);
    lex_skips(d, e1);
    lex_int(d, e1 + 1, gen as int);
    lex_skips(d, e2);
    lex_word(d, e2 + 1, obj);
    lex_skips(d, e3);
    lex_skips(d, e4);
    lex_word(d, e4 + 1, endobj);
    let r0 = Reader { ahead: seq![], pos: p };
    take_stands(d, r0, p);
    let r1 = r0.take(d).1;
    take_stands(d, r1, e1);
    let r2 = r1.take(d).1;
    take_stands(d, r2, e2);
    let r3 = r2.take(d).1;
    stands_moves(d, r3, e3, e3 + 1);
    object_reads(d, e3 + 1, o, r3);
    let r4 = next_object(d, r3)->Object_1;
    take_stands(d, r4, e4);
}

} // verus!
