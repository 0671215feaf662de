//! A text written between round brackets shows the text.
use vstd::prelude::*;
use vstd::utf8::{encode_scalar, encode_utf8, last_continuation_byte, leading_byte_width_1, leading_byte_width_2};
use crate::appearance::{literal_char, literal_text};
use crate::bytes::occurs_at;
use crate::lexer::{escape, lex, literal_from, skip_blank, Lexed, TokenModel};
use crate::roundtrip::{byte_of, part_of};

verus! {

/// A character as it can be shown: what is not in Latin-1 is shown as `?`.
pub open spec fn shown_char(c: char) -> char {
    if (c as u32) < 256 {
        c
    } else {
        '?'
    }
}

/// A text as it can be shown.
pub open spec fn shown_text(text: Seq<char>) -> Seq<char> {
    text.map_values(|c: char| shown_char(c))
}

proof fn encoded_parts(a: Seq<char>, b: Seq<char>)
    ensures
        encode_utf8(a + b) == encode_utf8(a) + encode_utf8(b),
    decreases a.len(),
{
    if a.len() == 0 {
        assert(a + b =~= b);
        assert(encode_utf8(a) + encode_utf8(b) =~= encode_utf8(b));
    } else {
        encoded_parts(a.drop_first(), b);
        assert((a + b).drop_first() =~= a.drop_first() + b);
        assert((a + b)[0] == a[0]);
        assert(encode_scalar(a[0] as u32) + (encode_utf8(a.drop_first()) + encode_utf8(b))
            =~= encode_utf8(a) + encode_utf8(b));
    }
}

proof fn encoded_char(c: char)
    ensures
        encode_utf8(seq![c]) == encode_scalar(c as u32),
{
    assert(seq![c].drop_first() =~= seq![]);
    assert(encode_utf8(seq![c].drop_first()) =~= seq![]);
    assert(encode_scalar(c as u32) + Seq::<u8>::empty() =~= encode_scalar(c as u32));
}

proof fn small_bytes(v: u32)
    requires
        v < 256,
    ensures
        v < 128 ==> leading_byte_width_1(v) == v,
        v >= 128 ==> leading_byte_width_2(v) >= 128 && last_continuation_byte(v) >= 128,
{
    assert(v < 128 ==> (v & 0x7f) as u8 == v) by (bit_vector);
    assert(128 <= v < 256 ==> 0xc0u8 | ((v >> 6) & 0x1f) as u8 >= 128) by (bit_vector);
    assert(128 <= v < 256 ==> 0x80u8 | (v & 0x3f) as u8 >= 128) by (bit_vector);
}

/// One character of a text between round brackets stands for itself.
proof fn char_is_read(d: Seq<u8>, p: int, c: char, acc: Seq<u8>)
    requires
        0 <= p,
        occurs_at(d, encode_utf8(literal_char(c)), p),
    ensures
        literal_from(d, p, 1, acc) == literal_from(
            d,
            p + encode_utf8(literal_char(c)).len(),
            1,
            acc + encode_utf8(seq![shown_char(c)]),
        ),
{
    let written = encode_utf8(literal_char(c));
    if c == '\\' || c == '(' || c == ')' {
        assert(seq!['\\', c] =~= seq!['\\'] + seq![c]);
        encoded_parts(seq!['\\'], seq![c]);
        encoded_char('\\');
        encoded_char(c);
        small_bytes('\\' as u32);
        small_bytes(c as u32);
        assert(written =~= seq![92u8, c as u8]);
        byte_of(d, written, p, 0);
        byte_of(d, written, p, 1);
        assert(escape(d, p + 1) == (seq![c as u8], p + 2));
        assert(encode_utf8(seq![c]) =~= seq![c as u8]);
    } else {
        let x = shown_char(c);
        assert(literal_char(c) == seq![x]);
        encoded_char(x);
        small_bytes(x as u32);
        byte_of(d, written, p, 0);
        if (x as u32) < 128 {
            assert(written =~= seq![x as u8]);
            assert(acc + written =~= acc.push(d[p]));
        } else {
            byte_of(d, written, p, 1);
            assert(acc + written =~= acc.push(d[p]).push(d[p + 1]));
            reveal_with_fuel(literal_from, 3);
        }
    }
}

proof fn chars_are_read(d: Seq<u8>, p: int, text: Seq<char>, acc: Seq<u8>)
    requires
        0 <= p,
        occurs_at(d, encode_utf8(literal_text(text)), p),
    ensures
        literal_from(d, p, 1, acc) == literal_from(
            d,
            p + encode_utf8(literal_text(text)).len(),
            1,
            acc + encode_utf8(shown_text(text)),
        ),
    decreases text.len(),
{
    if text.len() == 0 {
        assert(shown_text(text) =~= seq![]);
        assert(acc + encode_utf8(shown_text(text)) =~= acc);
    } else {
        let front = text.drop_last();
        let c = text.last();
        let a = encode_utf8(literal_text(front));
        let b = encode_utf8(literal_char(c));
        encoded_parts(literal_text(front), literal_char(c));
        part_of(d, a, b, p);
        chars_are_read(d, p, front, acc);
        let now = acc + encode_utf8(shown_text(front));
        char_is_read(d, p + a.len(), c, now);
        assert(shown_text(text) =~= shown_text(front) + seq![shown_char(c)]);
        encoded_parts(shown_text(front), seq![shown_char(c)]);
        assert(now + encode_utf8(seq![shown_char(c)]) =~= acc + encode_utf8(shown_text(text)));
    }
}

/// A text written between round brackets is read as the text, with `?` for all that is not in
/// Latin-1.
pub proof fn written_text_is_read(d: Seq<u8>, p: int, text: Seq<char>)
    requires
        0 <= p,
        occurs_at(d, seq![40u8] + encode_utf8(literal_text(text)) + seq![41u8], p),
    ensures
        lex(d, p) == Lexed::Token(
            TokenModel::LiteralString(encode_utf8(shown_text(text))),
            p + encode_utf8(literal_text(text)).len() + 2,
        ),
{
    let written = encode_utf8(literal_text(text));
    let open = seq![40u8];
    let close = seq![41u8];
    assert(open + written + close =~= open + (written + close));
    part_of(d, open, written + close, p);
    part_of(d, written, close, p + 1);
    byte_of(d, open, p, 0);
    byte_of(d, close, p + 1 + written.len(), 0);
    reveal(lex);
    assert(skip_blank(d, p, false) == p);
    chars_are_read(d, p + 1, text, seq![]);
    assert(Seq::<u8>::empty() + encode_utf8(shown_text(text)) =~= encode_utf8(shown_text(text)));
}

} // verus!
