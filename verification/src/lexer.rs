//! Bytes cut into tokens.
use vstd::prelude::*;
use vstd::slice::slice_subrange;
use crate::decimal::{all_digits, digits_value, is_digit, parse_digits};
use crate::error::{ErrorModel, PdfError};
use crate::number::{real_of, Real, RealModel};
use crate::text::{decode_lossy, text_of};

verus! {

#[derive(Debug, PartialEq)]
pub enum Token {
    Integer(i64),
    Real(Real),
    LiteralString(Vec<u8>),
    HexString(Vec<u8>),
    Name(String),
    ArrayStart,
    ArrayEnd,
    DictStart,
    DictEnd,
    /// A bare word: `obj`, `endobj`, `stream`, `R`, `true`, `xref`, `n`, `f` and the like.
    Keyword(String),
}

/// A token by what it says.
pub ghost enum TokenModel {
    Integer(int),
    Real(RealModel),
    LiteralString(Seq<u8>),
    HexString(Seq<u8>),
    Name(Seq<char>),
    ArrayStart,
    ArrayEnd,
    DictStart,
    DictEnd,
    Keyword(Seq<char>),
}

impl View for Token {
    type V = TokenModel;

    open spec fn view(&self) -> TokenModel {
        match *self {
            Token::Integer(n) => TokenModel::Integer(n as int),
            Token::Real(r) => TokenModel::Real(r@),
            Token::LiteralString(s) => TokenModel::LiteralString(s@),
            Token::HexString(s) => TokenModel::HexString(s@),
            Token::Name(n) => TokenModel::Name(n@),
            Token::ArrayStart => TokenModel::ArrayStart,
            Token::ArrayEnd => TokenModel::ArrayEnd,
            Token::DictStart => TokenModel::DictStart,
            Token::DictEnd => TokenModel::DictEnd,
            Token::Keyword(k) => TokenModel::Keyword(k@),
        }
    }
}

/// What stands at a position: a token, the end of the data or a fault, each with the position
/// behind it.
pub ghost enum Lexed {
    Token(TokenModel, int),
    End(int),
    Fault(ErrorModel, int),
}

/// Null, tab, line feed, form feed, carriage return and space.
pub open spec fn whitespace(b: u8) -> bool {
    b == 0 || b == 9 || b == 10 || b == 12 || b == 13 || b == 32
}

/// `(`, `)`, `<`, `>`, `[`, `]`, `{`, `}`, `/` and `%`.
pub open spec fn delimiter(b: u8) -> bool {
    b == 40 || b == 41 || b == 60 || b == 62 || b == 91 || b == 93 || b == 123 || b == 125 || b
        == 47 || b == 37
}

pub open spec fn regular(b: u8) -> bool {
    !whitespace(b) && !delimiter(b)
}

pub fn is_whitespace(b: u8) -> (r: bool)
    ensures
        r == whitespace(b),
{
    b == 0 || b == 9 || b == 10 || b == 12 || b == 13 || b == 32
}

pub fn is_delimiter(b: u8) -> (r: bool)
    ensures
        r == delimiter(b),
{
    b == 40 || b == 41 || b == 60 || b == 62 || b == 91 || b == 93 || b == 123 || b == 125 || b
        == 47 || b == 37
}

pub fn is_regular(b: u8) -> (r: bool)
    ensures
        r == regular(b),
{
    !is_whitespace(b) && !is_delimiter(b)
}

/// The value of a hexadecimal digit.
pub open spec fn hex_digit(b: u8) -> Option<u8> {
    if 48 <= b <= 57 {
        Some((b - 48) as u8)
    } else if 97 <= b <= 102 {
        Some((b - 87) as u8)
    } else if 65 <= b <= 70 {
        Some((b - 55) as u8)
    } else {
        None
    }
}

pub fn hex_val(b: u8) -> (r: Option<u8>)
    ensures
        r == hex_digit(b),
        r is Some ==> r->Some_0 < 16,
{
    if 48 <= b && b <= 57 {
        Some(b - 48)
    } else if 97 <= b && b <= 102 {
        Some(b - 87)
    } else if 65 <= b && b <= 70 {
        Some(b - 55)
    } else {
        None
    }
}

/// The first position from `p` on that is neither white space nor inside a comment. A comment
/// runs from `%` to the end of its line.
pub open spec fn skip_blank(d: Seq<u8>, p: int, in_comment: bool) -> int
    decreases d.len() - p,
{
    if p < 0 || p >= d.len() {
        p
    } else if in_comment {
        skip_blank(d, p + 1, d[p] != 10 && d[p] != 13)
    } else if whitespace(d[p]) {
        skip_blank(d, p + 1, false)
    } else if d[p] == 37 {
        skip_blank(d, p + 1, true)
    } else {
        p
    }
}

/// The end of the run of regular characters that starts at `p`.
pub open spec fn regular_end(d: Seq<u8>, p: int) -> int
    decreases d.len() - p,
{
    if 0 <= p < d.len() && regular(d[p]) {
        regular_end(d, p + 1)
    } else {
        p
    }
}

/// The end of the run of digits and points that starts at `p`.
pub open spec fn number_end(d: Seq<u8>, p: int) -> int
    decreases d.len() - p,
{
    if 0 <= p < d.len() && (is_digit(d[p]) || d[p] == 46) {
        number_end(d, p + 1)
    } else {
        p
    }
}

pub open spec fn is_sign(b: u8) -> bool {
    b == 43 || b == 45
}

/// Whether a decimal point stands in `s`.
pub open spec fn has_point(s: Seq<u8>) -> bool {
    exists|i: int| 0 <= i < s.len() && s[i] == 46
}

/// `s` without the points at its end.
pub open spec fn strip_points(s: Seq<u8>) -> Seq<u8>
    decreases s.len(),
{
    if s.len() > 0 && s.last() == 46 {
        strip_points(s.drop_last())
    } else {
        s
    }
}

/// The position of the first point from `i` on.
pub open spec fn first_point(s: Seq<u8>, i: int) -> int
    decreases s.len() - i,
{
    if 0 <= i < s.len() && s[i] != 46 {
        first_point(s, i + 1)
    } else {
        i
    }
}

/// A whole number without its sign; one that does not fit is real, one without digits is zero.
pub open spec fn whole_token(negative: bool, digits: Seq<u8>) -> TokenModel {
    let value = if negative {
        -(digits_value(digits) as int)
    } else {
        digits_value(digits) as int
    };
    if digits.len() == 0 {
        TokenModel::Real(real_of(false, seq![], seq![]))
    } else if i64::MIN <= value <= i64::MAX {
        TokenModel::Integer(value)
    } else {
        TokenModel::Real(real_of(negative, digits, seq![]))
    }
}

/// Digits with points among them. Points at the end count for nothing; with more than one other
/// the number is zero.
pub open spec fn point_number(negative: bool, body: Seq<u8>) -> RealModel {
    let s = strip_points(body);
    if !has_point(s) {
        real_of(negative, s, seq![])
    } else {
        let i = first_point(s, 0);
        if has_point(s.skip(i + 1)) {
            real_of(false, seq![], seq![])
        } else {
            real_of(negative, s.take(i), s.skip(i + 1))
        }
    }
}

/// The number that starts at `p`.
pub open spec fn number_at(d: Seq<u8>, p: int) -> Lexed {
    let start = if is_sign(d[p]) {
        p + 1
    } else {
        p
    };
    let end = number_end(d, start);
    let body = d.subrange(start, end);
    if has_point(body) {
        Lexed::Token(TokenModel::Real(point_number(d[p] == 45, body)), end)
    } else {
        Lexed::Token(whole_token(d[p] == 45, body), end)
    }
}

/// The bytes of the name whose text starts at `p`, behind those in `acc`, and where it ends.
/// `#` and two hexadecimal digits stand for one byte.
pub open spec fn name_from(d: Seq<u8>, p: int, acc: Seq<u8>) -> (Seq<u8>, int)
    decreases d.len() - p,
{
    if !(0 <= p < d.len()) || !regular(d[p]) {
        (acc, p)
    } else if d[p] == 35 && p + 2 < d.len() && hex_digit(d[p + 1]) is Some && hex_digit(
        d[p + 2],
    ) is Some {
        name_from(
            d,
            p + 3,
            acc.push((hex_digit(d[p + 1])->Some_0 * 16 + hex_digit(d[p + 2])->Some_0) as u8),
        )
    } else {
        name_from(d, p + 1, acc.push(d[p]))
    }
}

pub open spec fn is_octal(b: u8) -> bool {
    48 <= b <= 55
}

/// How many of the bytes from `p` on, at most `most`, are octal digits.
pub open spec fn octal_len(d: Seq<u8>, p: int, most: nat) -> nat
    decreases most,
{
    if most > 0 && 0 <= p < d.len() && is_octal(d[p]) {
        1 + octal_len(d, p + 1, (most - 1) as nat)
    } else {
        0
    }
}

/// The number that octal digits write.
pub open spec fn octal_value(s: Seq<u8>) -> nat
    decreases s.len(),
{
    if s.len() == 0 {
        0
    } else {
        octal_value(s.drop_last()) * 8 + (s.last() - 48) as nat
    }
}

/// What a backslash and the characters from `p` on stand for, and where they end.
pub open spec fn escape(d: Seq<u8>, p: int) -> (Seq<u8>, int) {
    let e = d[p];
    if e == 110 {
        (seq![10u8], p + 1)
    } else if e == 114 {
        (seq![13u8], p + 1)
    } else if e == 116 {
        (seq![9u8], p + 1)
    } else if e == 98 {
        (seq![8u8], p + 1)
    } else if e == 102 {
        (seq![12u8], p + 1)
    } else if e == 13 {
        if p + 1 < d.len() && d[p + 1] == 10 {
            (seq![], p + 2)
        } else {
            (seq![], p + 1)
        }
    } else if e == 10 {
        (seq![], p + 1)
    } else if is_octal(e) {
        let n = octal_len(d, p, 3) as int;
        (seq![(octal_value(d.subrange(p, p + n)) % 256) as u8], p + n)
    } else {
        (seq![e], p + 1)
    }
}

/// The string in round brackets whose text goes on at `p`, inside `depth` open brackets and
/// behind the bytes in `acc`.
pub open spec fn literal_from(d: Seq<u8>, p: int, depth: nat, acc: Seq<u8>) -> Lexed
    decreases d.len() - p,
    via literal_from_shrinks
{
    if !(0 <= p < d.len()) {
        Lexed::Fault(ErrorModel::UnexpectedEof(p), p)
    } else if d[p] == 40 {
        literal_from(d, p + 1, depth + 1, acc.push(40))
    } else if d[p] == 41 {
        if depth <= 1 {
            Lexed::Token(TokenModel::LiteralString(acc), p + 1)
        } else {
            literal_from(d, p + 1, (depth - 1) as nat, acc.push(41))
        }
    } else if d[p] == 92 {
        if p + 1 >= d.len() {
            Lexed::Fault(ErrorModel::UnexpectedEof(p + 1), p + 1)
        } else {
            let (bytes, next) = escape(d, p + 1);
            literal_from(d, next, depth, acc + bytes)
        }
    } else {
        literal_from(d, p + 1, depth, acc.push(d[p]))
    }
}

#[via_fn]
proof fn literal_from_shrinks(d: Seq<u8>, p: int, depth: nat, acc: Seq<u8>) {
    if 0 <= p && p + 1 < d.len() {
        escape_bounds(d, p + 1);
    }
}

/// Digits taken two by two, the last with a zero where it stands alone.
pub open spec fn digit_pairs(digits: Seq<u8>) -> Seq<u8> {
    let even = if digits.len() % 2 == 1 {
        digits.push(0)
    } else {
        digits
    };
    Seq::new(even.len() / 2, |i: int| (even[2 * i] * 16 + even[2 * i + 1]) as u8)
}

/// The string in angle brackets whose digits go on at `p`, behind those in `acc`.
pub open spec fn hex_from(d: Seq<u8>, p: int, acc: Seq<u8>) -> Lexed
    decreases d.len() - p,
{
    if !(0 <= p < d.len()) {
        Lexed::Fault(ErrorModel::UnexpectedEof(p), p)
    } else if d[p] == 62 {
        Lexed::Token(TokenModel::HexString(digit_pairs(acc)), p + 1)
    } else if whitespace(d[p]) {
        hex_from(d, p + 1, acc)
    } else {
        match hex_digit(d[p]) {
            Some(v) => hex_from(d, p + 1, acc.push(v)),
            None => Lexed::Fault(ErrorModel::UnexpectedByte(d[p], p), p + 1),
        }
    }
}

/// What stands at `p`, which is neither white space nor a comment.
pub open spec fn lex_at(d: Seq<u8>, p: int) -> Lexed {
    if p < 0 || p >= d.len() {
        Lexed::End(p)
    } else if d[p] == 91 {
        Lexed::Token(TokenModel::ArrayStart, p + 1)
    } else if d[p] == 93 {
        Lexed::Token(TokenModel::ArrayEnd, p + 1)
    } else if d[p] == 60 {
        if p + 1 < d.len() && d[p + 1] == 60 {
            Lexed::Token(TokenModel::DictStart, p + 2)
        } else {
            hex_from(d, p + 1, seq![])
        }
    } else if d[p] == 62 && p + 1 < d.len() && d[p + 1] == 62 {
        Lexed::Token(TokenModel::DictEnd, p + 2)
    } else if d[p] == 40 {
        literal_from(d, p + 1, 1, seq![])
    } else if d[p] == 47 {
        let (bytes, end) = name_from(d, p + 1, seq![]);
        Lexed::Token(TokenModel::Name(text_of(bytes)), end)
    } else if is_sign(d[p]) || d[p] == 46 || is_digit(d[p]) {
        number_at(d, p)
    } else if regular(d[p]) {
        let end = regular_end(d, p);
        Lexed::Token(TokenModel::Keyword(text_of(d.subrange(p, end))), end)
    } else {
        Lexed::Fault(ErrorModel::UnexpectedByte(d[p], p), p)
    }
}

/// The next token from `p` on.
#[verifier::opaque]
pub open spec fn lex(d: Seq<u8>, p: int) -> Lexed {
    lex_at(d, skip_blank(d, p, false))
}

/// `r` is what was lexed.
pub open spec fn returns_lexed(r: Result<Option<Token>, PdfError>, l: Lexed) -> bool {
    match l {
        Lexed::Token(t, _) => r is Ok && r->Ok_0 is Some && r->Ok_0->Some_0@ == t,
        Lexed::End(_) => r is Ok && r->Ok_0 is None,
        Lexed::Fault(e, _) => r is Err && r->Err_0@ == e,
    }
}

/// Where reading goes on.
pub open spec fn lexed_end(l: Lexed) -> int {
    match l {
        Lexed::Token(_, p) => p,
        Lexed::End(p) => p,
        Lexed::Fault(_, p) => p,
    }
}

/// The byte at `i` stands in a comment that starts at or behind `p`: a `%` stands before it, with
/// no end of a line between them.
pub open spec fn in_comment_at(d: Seq<u8>, p: int, i: int) -> bool {
    exists|k: int|
        p <= k <= i && #[trigger] d[k] == 37 && forall|j: int|
            k <= j < i ==> #[trigger] d[j] != 10 && d[j] != 13
}

proof fn blank_is_skipped(d: Seq<u8>, p: int, start: int, in_comment: bool)
    requires
        0 <= start <= p <= d.len(),
        in_comment ==> start < p && in_comment_at(d, start, p - 1) && d[p - 1] != 10 && d[p - 1]
            != 13,
    ensures
        forall|i: int|
            p <= i < skip_blank(d, p, in_comment) ==> whitespace(#[trigger] d[i]) || in_comment_at(
                d,
                start,
                i,
            ),
    decreases d.len() - p,
{
    if p < d.len() {
        if in_comment {
            let k = choose|k: int|
                start <= k <= p - 1 && #[trigger] d[k] == 37 && forall|j: int|
                    k <= j < p - 1 ==> #[trigger] d[j] != 10 && d[j] != 13;
            assert(d[k] == 37);
            assert(in_comment_at(d, start, p));
            blank_is_skipped(d, p + 1, start, d[p] != 10 && d[p] != 13);
        } else if whitespace(d[p]) {
            blank_is_skipped(d, p + 1, start, false);
        } else if d[p] == 37 {
            assert(in_comment_at(d, start, p));
            blank_is_skipped(d, p + 1, start, true);
        }
    }
}

proof fn blank_ends(d: Seq<u8>, p: int, in_comment: bool)
    requires
        0 <= p <= d.len(),
    ensures
        ({
            let e = skip_blank(d, p, in_comment);
            e < d.len() ==> !whitespace(d[e]) && d[e] != 37
        }),
    decreases d.len() - p,
{
    if p < d.len() {
        if in_comment {
            blank_ends(d, p + 1, d[p] != 10 && d[p] != 13);
        } else if whitespace(d[p]) {
            blank_ends(d, p + 1, false);
        } else if d[p] == 37 {
            blank_ends(d, p + 1, true);
        }
    }
}

/// White space and comments are skipped and nothing else: the skip goes forwards inside the data,
/// every byte of it is white space or in a comment, and what stands behind it is neither white
/// space nor the start of a comment, or the end of the data. A second skip changes nothing.
pub proof fn only_blank_is_skipped(d: Seq<u8>, p: int)
    requires
        0 <= p <= d.len(),
    ensures
        p <= skip_blank(d, p, false) <= d.len(),
        forall|i: int|
            p <= i < skip_blank(d, p, false) ==> whitespace(#[trigger] d[i]) || in_comment_at(
                d,
                p,
                i,
            ),
        skip_blank(d, p, false) < d.len() ==> !whitespace(d[skip_blank(d, p, false)])
            && d[skip_blank(d, p, false)] != 37,
        skip_blank(d, skip_blank(d, p, false), false) == skip_blank(d, p, false),
{
    skip_blank_bounds(d, p, false);
    blank_is_skipped(d, p, p, false);
    blank_ends(d, p, false);
}

pub proof fn skip_blank_bounds(d: Seq<u8>, p: int, in_comment: bool)
    requires
        0 <= p,
    ensures
        p <= skip_blank(d, p, in_comment),
        p <= d.len() ==> skip_blank(d, p, in_comment) <= d.len(),
        p > d.len() ==> skip_blank(d, p, in_comment) == p,
    decreases d.len() - p,
{
    if p < d.len() {
        skip_blank_bounds(d, p + 1, if in_comment { d[p] != 10 && d[p] != 13 } else { !whitespace(d[p]) });
    }
}

pub proof fn regular_end_bounds(d: Seq<u8>, p: int)
    requires
        0 <= p <= d.len(),
    ensures
        p <= regular_end(d, p) <= d.len(),
        p < d.len() && regular(d[p]) ==> p < regular_end(d, p),
        forall|i: int| p <= i < regular_end(d, p) ==> regular(#[trigger] d[i]),
        regular_end(d, p) < d.len() ==> !regular(d[regular_end(d, p)]),
    decreases d.len() - p,
{
    if p < d.len() && regular(d[p]) {
        regular_end_bounds(d, p + 1);
    }
}

pub proof fn number_end_bounds(d: Seq<u8>, p: int)
    requires
        0 <= p <= d.len(),
    ensures
        p <= number_end(d, p) <= d.len(),
        p < d.len() && (is_digit(d[p]) || d[p] == 46) ==> p < number_end(d, p),
        forall|i: int|
            p <= i < number_end(d, p) ==> is_digit(#[trigger] d[i]) || d[i] == 46,
    decreases d.len() - p,
{
    if p < d.len() && (is_digit(d[p]) || d[p] == 46) {
        number_end_bounds(d, p + 1);
    }
}

pub proof fn name_from_bounds(d: Seq<u8>, p: int, acc: Seq<u8>)
    requires
        0 <= p <= d.len(),
    ensures
        p <= name_from(d, p, acc).1 <= d.len(),
    decreases d.len() - p,
{
    if p < d.len() && regular(d[p]) {
        if d[p] == 35 && p + 2 < d.len() && hex_digit(d[p + 1]) is Some && hex_digit(
            d[p + 2],
        ) is Some {
            name_from_bounds(
                d,
                p + 3,
                acc.push((hex_digit(d[p + 1])->Some_0 * 16 + hex_digit(d[p + 2])->Some_0) as u8),
            );
        } else {
            name_from_bounds(d, p + 1, acc.push(d[p]));
        }
    }
}

pub proof fn octal_len_bounds(d: Seq<u8>, p: int, most: nat)
    requires
        0 <= p <= d.len(),
    ensures
        octal_len(d, p, most) <= most,
        p + octal_len(d, p, most) <= d.len(),
        forall|i: int| p <= i < p + octal_len(d, p, most) ==> is_octal(#[trigger] d[i]),
    decreases most,
{
    if most > 0 && p < d.len() && is_octal(d[p]) {
        octal_len_bounds(d, p + 1, (most - 1) as nat);
    }
}

proof fn escape_bounds(d: Seq<u8>, p: int)
    requires
        0 <= p < d.len(),
    ensures
        p < escape(d, p).1 <= d.len(),
{
    octal_len_bounds(d, p, 3);
}

proof fn literal_from_bounds(d: Seq<u8>, p: int, depth: nat, acc: Seq<u8>)
    requires
        0 <= p <= d.len(),
    ensures
        p <= lexed_end(literal_from(d, p, depth, acc)) <= d.len(),
        !(literal_from(d, p, depth, acc) is End),
    decreases d.len() - p,
{
    if p < d.len() {
        if d[p] == 40 {
            literal_from_bounds(d, p + 1, depth + 1, acc.push(40));
        } else if d[p] == 41 {
            if depth > 1 {
                literal_from_bounds(d, p + 1, (depth - 1) as nat, acc.push(41));
            }
        } else if d[p] == 92 {
            if p + 1 < d.len() {
                escape_bounds(d, p + 1);
                literal_from_bounds(d, escape(d, p + 1).1, depth, acc + escape(d, p + 1).0);
            }
        } else {
            literal_from_bounds(d, p + 1, depth, acc.push(d[p]));
        }
    }
}

proof fn hex_from_bounds(d: Seq<u8>, p: int, acc: Seq<u8>)
    requires
        0 <= p <= d.len(),
    ensures
        p <= lexed_end(hex_from(d, p, acc)) <= d.len(),
        !(hex_from(d, p, acc) is End),
    decreases d.len() - p,
{
    if p < d.len() && d[p] != 62 {
        if whitespace(d[p]) {
            hex_from_bounds(d, p + 1, acc);
        } else if hex_digit(d[p]) is Some {
            hex_from_bounds(d, p + 1, acc.push(hex_digit(d[p])->Some_0));
        }
    }
}

/// A token takes at least one byte and ends inside the data.
pub proof fn lex_progress(d: Seq<u8>, p: int)
    requires
        0 <= p,
    ensures
        match lex(d, p) {
            Lexed::Token(_, q) => p < q <= d.len(),
            Lexed::End(q) => p <= q && q >= d.len() && (p <= d.len() ==> q == d.len()),
            Lexed::Fault(_, q) => p <= q <= d.len(),
        },
{
    reveal(lex);
    skip_blank_bounds(d, p, false);
    let s = skip_blank(d, p, false);
    if s < d.len() {
        if d[s] == 60 {
            hex_from_bounds(d, s + 1, seq![]);
        } else if d[s] == 40 {
            literal_from_bounds(d, s + 1, 1, seq![]);
        } else if d[s] == 47 {
            name_from_bounds(d, s + 1, seq![]);
        } else if is_sign(d[s]) {
            number_end_bounds(d, s + 1);
        } else {
            number_end_bounds(d, s);
            regular_end_bounds(d, s);
        }
    }
}

/// A reader of tokens over `data`.
pub struct Lexer<'a> {
    data: &'a [u8],
    pos: usize,
}

impl<'a> Lexer<'a> {
    /// The data that is read.
    pub closed spec fn bytes(&self) -> Seq<u8> {
        self.data@
    }

    /// The position of the reader.
    pub closed spec fn at(&self) -> int {
        self.pos as int
    }

    /// Positions and the length of the data are sizes.
    pub proof fn at_bounds(&self)
        ensures
            0 <= self.at() <= usize::MAX,
            self.bytes().len() <= usize::MAX,
    {
        assert(self.data.len() == self.data@.len());
    }

    pub fn new(data: &'a [u8]) -> (r: Self)
        ensures
            r.bytes() == data@,
            r.at() == 0,
    {
        Self { data, pos: 0 }
    }

    pub fn with_pos(data: &'a [u8], pos: usize) -> (r: Self)
        ensures
            r.bytes() == data@,
            r.at() == pos,
    {
        Self { data, pos }
    }

    pub fn pos(&self) -> (r: usize)
        ensures
            r == self.at(),
    {
        self.pos
    }

    /// Goes to `pos`, or to the end of the data where that comes first.
    pub fn seek(&mut self, pos: usize)
        ensures
            final(self).bytes() == old(self).bytes(),
            final(self).at() == if pos <= old(self).bytes().len() {
                pos as int
            } else {
                old(self).bytes().len() as int
            },
    {
        if pos <= self.data.len() {
            self.pos = pos;
        } else {
            self.pos = self.data.len();
        }
    }

    /// The bytes from the position on.
    pub fn remaining(&self) -> (r: &'a [u8])
        requires
            self.at() <= self.bytes().len(),
        ensures
            r@ == self.bytes().skip(self.at()),
    {
        let r = slice_subrange(self.data, self.pos, self.data.len());
        assert(r@ =~= self.bytes().skip(self.at()));
        r
    }

    /// Goes behind white space and comments, and behind nothing else. A second call goes no
    /// further.
    pub fn skip_whitespace_and_comments(&mut self)
        ensures
            final(self).bytes() == old(self).bytes(),
            final(self).at() == skip_blank(old(self).bytes(), old(self).at(), false),
            old(self).at() <= old(self).bytes().len() ==> {
                &&& old(self).at() <= final(self).at() <= old(self).bytes().len()
                &&& final(self).at() < old(self).bytes().len() ==> !whitespace(
                    old(self).bytes()[final(self).at()],
                ) && old(self).bytes()[final(self).at()] != 37
                &&& forall|i: int|
                    old(self).at() <= i < final(self).at() ==> whitespace(
                        #[trigger] old(self).bytes()[i],
                    ) || in_comment_at(old(self).bytes(), old(self).at(), i)
                &&& skip_blank(old(self).bytes(), final(self).at(), false) == final(self).at()
            },
    {
        proof {
            if self.pos <= self.data@.len() {
                only_blank_is_skipped(self.data@, self.pos as int);
            }
        }
        let ghost goal = skip_blank(self.data@, self.pos as int, false);
        loop
            invariant
                self.data == old(self).data,
                goal == skip_blank(self.data@, self.pos as int, false),
            ensures
                self.pos == goal,
            decreases self.data@.len() - self.pos,
        {
            if self.pos >= self.data.len() {
                break;
            }
            let b: u8 = self.data[self.pos];
            if is_whitespace(b) {
                self.pos += 1;
            } else if b == 37 {
                self.pos += 1;
                let ghost start = self.pos;
                while self.pos < self.data.len() && self.data[self.pos] != 10
                    && self.data[self.pos] != 13
                    invariant
                        self.data == old(self).data,
                        start <= self.pos <= self.data@.len(),
                        goal == skip_blank(self.data@, self.pos as int, true),
                    decreases self.data@.len() - self.pos,
                {
                    self.pos += 1;
                }
                proof {
                    if self.pos < self.data@.len() {
                        assert(whitespace(self.data@[self.pos as int]));
                    }
                }
            } else {
                break;
            }
        }
    }

    /// Reads the next token, or `None` at the end of the data.
    pub fn next_token(&mut self) -> (r: Result<Option<Token>, PdfError>)
        ensures
            final(self).bytes() == old(self).bytes(),
            returns_lexed(r, lex(old(self).bytes(), old(self).at())),
            final(self).at() == lexed_end(lex(old(self).bytes(), old(self).at())),
    {
        proof {
            reveal(lex);
        }
        self.skip_whitespace_and_comments();
        let start: usize = self.pos;
        if start >= self.data.len() {
            return Ok(None);
        }
        let b: u8 = self.data[start];
        if b == 91 {
            self.pos += 1;
            Ok(Some(Token::ArrayStart))
        } else if b == 93 {
            self.pos += 1;
            Ok(Some(Token::ArrayEnd))
        } else if b == 60 {
            self.pos += 1;
            if self.pos < self.data.len() && self.data[self.pos] == 60 {
                self.pos += 1;
                Ok(Some(Token::DictStart))
            } else {
                match self.read_hex_string() {
                    Ok(s) => Ok(Some(Token::HexString(s))),
                    Err(e) => Err(e),
                }
            }
        } else if b == 62 && start + 1 < self.data.len() && self.data[start + 1] == 62 {
            self.pos += 2;
            Ok(Some(Token::DictEnd))
        } else if b == 40 {
            self.pos += 1;
            match self.read_literal_string() {
                Ok(s) => Ok(Some(Token::LiteralString(s))),
                Err(e) => Err(e),
            }
        } else if b == 47 {
            self.pos += 1;
            Ok(Some(Token::Name(self.read_name())))
        } else if b == 43 || b == 45 || b == 46 || (48 <= b && b <= 57) {
            Ok(Some(self.read_number()))
        } else if is_regular(b) {
            Ok(Some(Token::Keyword(self.read_keyword())))
        } else {
            Err(PdfError::UnexpectedByte { byte: b, offset: start })
        }
    }

    fn read_keyword(&mut self) -> (r: String)
        requires
            old(self).pos <= old(self).data@.len(),
        ensures
            final(self).data == old(self).data,
            final(self).pos == regular_end(old(self).data@, old(self).pos as int),
            r@ == text_of(
                old(self).data@.subrange(
                    old(self).pos as int,
                    regular_end(old(self).data@, old(self).pos as int),
                ),
            ),
    {
        let start: usize = self.pos;
        while self.pos < self.data.len() && is_regular(self.data[self.pos])
            invariant
                self.data == old(self).data,
                start <= self.pos <= self.data@.len(),
                regular_end(self.data@, start as int) == regular_end(self.data@, self.pos as int),
            decreases self.data@.len() - self.pos,
        {
            self.pos += 1;
        }
        decode_lossy(slice_subrange(self.data, start, self.pos))
    }

    fn read_number(&mut self) -> (r: Token)
        requires
            old(self).pos < old(self).data@.len(),
        ensures
            final(self).data == old(self).data,
            number_at(old(self).data@, old(self).pos as int) == Lexed::Token(
                r@,
                final(self).pos as int,
            ),
    {
        let negative: bool = self.data[self.pos] == 45;
        if self.data[self.pos] == 45 || self.data[self.pos] == 43 {
            self.pos += 1;
        }
        let start: usize = self.pos;
        let mut pointed: bool = false;
        while self.pos < self.data.len() && (self.data[self.pos] == 46 || (48
            <= self.data[self.pos] && self.data[self.pos] <= 57))
            invariant
                self.data == old(self).data,
                start <= self.pos <= self.data@.len(),
                number_end(self.data@, start as int) == number_end(self.data@, self.pos as int),
                pointed == has_point(self.data@.subrange(start as int, self.pos as int)),
                forall|i: int|
                    start <= i < self.pos ==> is_digit(#[trigger] self.data@[i]) || self.data@[i]
                        == 46,
            decreases self.data@.len() - self.pos,
        {
            let ghost before = self.data@.subrange(start as int, self.pos as int);
            let ghost after = self.data@.subrange(start as int, self.pos + 1);
            proof {
                assert(after =~= before.push(self.data@[self.pos as int]));
                if pointed {
                    let i = choose|i: int| 0 <= i < before.len() && before[i] == 46;
                    assert(after[i] == 46);
                }
                if self.data@[self.pos as int] == 46 {
                    assert(after[before.len() as int] == 46);
                } else if has_point(after) {
                    let i = choose|i: int| 0 <= i < after.len() && after[i] == 46;
                    assert(before[i] == 46);
                }
            }
            if self.data[self.pos] == 46 {
                pointed = true;
            }
            self.pos += 1;
        }
        let body = slice_subrange(self.data, start, self.pos);
        proof {
            assert(body@ =~= self.data@.subrange(start as int, self.pos as int));
            assert(forall|i: int|
                0 <= i < body@.len() ==> is_digit(#[trigger] body@[i]) || body@[i] == 46);
            if !pointed {
                assert(all_digits(body@));
            }
        }
        if pointed {
            Token::Real(read_real(negative, body))
        } else {
            read_whole(negative, body)
        }
    }

    fn read_name(&mut self) -> (r: String)
        requires
            old(self).pos <= old(self).data@.len(),
        ensures
            final(self).data == old(self).data,
            final(self).pos == name_from(old(self).data@, old(self).pos as int, seq![]).1,
            r@ == text_of(name_from(old(self).data@, old(self).pos as int, seq![]).0),
    {
        let mut out: Vec<u8> = Vec::new();
        let ghost goal = name_from(self.data@, self.pos as int, seq![]);
        assert(out@ =~= seq![]);
        while self.pos < self.data.len() && is_regular(self.data[self.pos])
            invariant
                self.data == old(self).data,
                self.pos <= self.data@.len(),
                goal == name_from(self.data@, self.pos as int, out@),
            decreases self.data@.len() - self.pos,
        {
            let b: u8 = self.data[self.pos];
            if b == 35 && self.data.len() - self.pos > 2 {
                match (hex_val(self.data[self.pos + 1]), hex_val(self.data[self.pos + 2])) {
                    (Some(d1), Some(d2)) => {
                        out.push(d1 * 16 + d2);
                        self.pos += 3;
                    },
                    _ => {
                        out.push(b);
                        self.pos += 1;
                    },
                }
            } else {
                out.push(b);
                self.pos += 1;
            }
        }
        decode_lossy(out.as_slice())
    }

    fn read_escape(&mut self, out: &mut Vec<u8>)
        requires
            old(self).pos < old(self).data@.len(),
        ensures
            final(self).data == old(self).data,
            final(self).pos == escape(old(self).data@, old(self).pos as int).1,
            final(out)@ == old(out)@ + escape(old(self).data@, old(self).pos as int).0,
    {
        let ghost before = out@;
        let e: u8 = self.data[self.pos];
        let start: usize = self.pos;
        self.pos += 1;
        if e == 110 {
            out.push(10);
            assert(out@ =~= before + seq![10u8]);
        } else if e == 114 {
            out.push(13);
            assert(out@ =~= before + seq![13u8]);
        } else if e == 116 {
            out.push(9);
            assert(out@ =~= before + seq![9u8]);
        } else if e == 98 {
            out.push(8);
            assert(out@ =~= before + seq![8u8]);
        } else if e == 102 {
            out.push(12);
            assert(out@ =~= before + seq![12u8]);
        } else if e == 13 {
            if self.pos < self.data.len() && self.data[self.pos] == 10 {
                self.pos += 1;
            }
            assert(out@ =~= before + seq![]);
        } else if e == 10 {
            assert(out@ =~= before + seq![]);
        } else if 48 <= e && e <= 55 {
            let mut value: u32 = (e - 48) as u32;
            let ghost d = self.data@;
            let ghost n = octal_len(d, start as int, 3) as int;
            proof {
                octal_len_bounds(d, start as int, 3);
                reveal_with_fuel(octal_len, 4);
                reveal_with_fuel(octal_value, 4);
            }
            if self.pos < self.data.len() && 48 <= self.data[self.pos] && self.data[self.pos]
                <= 55 {
                value = value * 8 + (self.data[self.pos] - 48) as u32;
                self.pos += 1;
                if self.pos < self.data.len() && 48 <= self.data[self.pos] && self.data[self.pos]
                    <= 55 {
                    value = value * 8 + (self.data[self.pos] - 48) as u32;
                    self.pos += 1;
                    assert(n == 3);
                    assert(d.subrange(start as int, start + 3).drop_last() =~= d.subrange(
                        start as int,
                        start + 2,
                    ));
                } else {
                    assert(n == 2);
                }
                assert(d.subrange(start as int, start + 2).drop_last() =~= d.subrange(
                    start as int,
                    start + 1,
                ));
            } else {
                assert(n == 1);
            }
            assert(d.subrange(start as int, start + 1).drop_last() =~= seq![]);
            assert(value == octal_value(d.subrange(start as int, start + n)));
            out.push((value % 256) as u8);
            assert(out@ =~= before + escape(d, start as int).0);
        } else {
            out.push(e);
            assert(out@ =~= before + seq![e]);
        }
    }

    fn read_literal_string(&mut self) -> (r: Result<Vec<u8>, PdfError>)
        requires
            1 <= old(self).pos <= old(self).data@.len(),
        ensures
            final(self).data == old(self).data,
            final(self).pos == lexed_end(
                literal_from(old(self).data@, old(self).pos as int, 1, seq![]),
            ),
            match literal_from(old(self).data@, old(self).pos as int, 1, seq![]) {
                Lexed::Token(t, _) => r is Ok && t == TokenModel::LiteralString(r->Ok_0@),
                Lexed::End(_) => false,
                Lexed::Fault(e, _) => r is Err && r->Err_0@ == e,
            },
    {
        let mut out: Vec<u8> = Vec::new();
        let ghost goal = literal_from(self.data@, self.pos as int, 1, seq![]);
        assert(out@ =~= seq![]);
        let mut depth: usize = 1;
        loop
            invariant
                self.data == old(self).data,
                self.pos <= self.data@.len(),
                1 <= old(self).pos <= self.pos,
                1 <= depth <= self.pos - old(self).pos + 1,
                goal == literal_from(old(self).data@, old(self).pos as int, 1, seq![]),
                goal == literal_from(self.data@, self.pos as int, depth as nat, out@),
            decreases self.data@.len() - self.pos,
        {
            if self.pos >= self.data.len() {
                return Err(PdfError::UnexpectedEof(self.pos));
            }
            let b: u8 = self.data[self.pos];
            self.pos += 1;
            if b == 40 {
                depth += 1;
                out.push(b);
            } else if b == 41 {
                if depth == 1 {
                    return Ok(out);
                }
                depth -= 1;
                out.push(b);
            } else if b == 92 {
                if self.pos >= self.data.len() {
                    return Err(PdfError::UnexpectedEof(self.pos));
                }
                proof {
                    escape_bounds(self.data@, self.pos as int);
                }
                self.read_escape(&mut out);
            } else {
                out.push(b);
            }
        }
    }

    fn read_hex_string(&mut self) -> (r: Result<Vec<u8>, PdfError>)
        requires
            old(self).pos <= old(self).data@.len(),
        ensures
            final(self).data == old(self).data,
            final(self).pos == lexed_end(
                hex_from(old(self).data@, old(self).pos as int, seq![]),
            ),
            match hex_from(old(self).data@, old(self).pos as int, seq![]) {
                Lexed::Token(t, _) => r is Ok && t == TokenModel::HexString(r->Ok_0@),
                Lexed::End(_) => false,
                Lexed::Fault(e, _) => r is Err && r->Err_0@ == e,
            },
    {
        let mut digits: Vec<u8> = Vec::new();
        let ghost goal = hex_from(self.data@, self.pos as int, seq![]);
        assert(digits@ =~= seq![]);
        loop
            invariant
                self.data == old(self).data,
                self.pos <= self.data@.len(),
                goal == hex_from(old(self).data@, old(self).pos as int, seq![]),
                goal == hex_from(self.data@, self.pos as int, digits@),
                forall|i: int| 0 <= i < digits@.len() ==> #[trigger] digits@[i] < 16,
            decreases self.data@.len() - self.pos,
        {
            if self.pos >= self.data.len() {
                return Err(PdfError::UnexpectedEof(self.pos));
            }
            let b: u8 = self.data[self.pos];
            self.pos += 1;
            if b == 62 {
                return Ok(pair_digits(digits));
            }
            if !is_whitespace(b) {
                match hex_val(b) {
                    Some(v) => {
                        digits.push(v);
                    },
                    None => {
                        return Err(PdfError::UnexpectedByte { byte: b, offset: self.pos - 1 });
                    },
                }
            }
        }
    }
}

/// Digits taken two by two.
pub fn pair_digits(digits: Vec<u8>) -> (r: Vec<u8>)
    requires
        forall|i: int| 0 <= i < digits@.len() ==> #[trigger] digits@[i] < 16,
    ensures
        r@ == digit_pairs(digits@),
{
    let ghost given = digits@;
    let mut digits = digits;
    if digits.len() % 2 == 1 {
        digits.push(0);
    }
    let mut r: Vec<u8> = Vec::new();
    let mut i: usize = 0;
    while i < digits.len()
        invariant
            digits@.len() % 2 == 0,
            0 <= i <= digits@.len(),
            i == 2 * r@.len(),
            forall|j: int| 0 <= j < digits@.len() ==> #[trigger] digits@[j] < 16,
            forall|j: int|
                0 <= j < r@.len() ==> #[trigger] r@[j] == digits@[2 * j] * 16 + digits@[2 * j + 1],
        decreases digits@.len() - i,
    {
        r.push(digits[i] * 16 + digits[i + 1]);
        i += 2;
    }
    assert(r@ =~= digit_pairs(given));
    r
}

fn read_whole(negative: bool, digits: &[u8]) -> (r: Token)
    requires
        all_digits(digits@),
    ensures
        r@ == whole_token(negative, digits@),
{
    let none: [u8; 0] = [];
    assert(none@ =~= seq![]);
    if digits.len() == 0 {
        return Token::Real(Real::zero());
    }
    let limit: u64 = if negative {
        9223372036854775808
    } else {
        9223372036854775807
    };
    match parse_digits(digits, limit) {
        Some(n) => {
            if !negative {
                Token::Integer(n as i64)
            } else if n == 9223372036854775808 {
                Token::Integer(i64::MIN)
            } else {
                Token::Integer(-(n as i64))
            }
        },
        None => Token::Real(Real::from_digits(negative, digits, none.as_slice())),
    }
}

fn read_real(negative: bool, body: &[u8]) -> (r: Real)
    requires
        forall|i: int| 0 <= i < body@.len() ==> is_digit(#[trigger] body@[i]) || body@[i] == 46,
    ensures
        r@ == point_number(negative, body@),
{
    let none: [u8; 0] = [];
    assert(none@ =~= seq![]);
    let mut end: usize = body.len();
    assert(body@.take(body@.len() as int) =~= body@);
    while end > 0 && body[end - 1] == 46
        invariant
            0 <= end <= body@.len(),
            strip_points(body@) == strip_points(body@.take(end as int)),
        decreases end,
    {
        assert(body@.take(end as int).drop_last() =~= body@.take(end - 1));
        end -= 1;
    }
    let s = slice_subrange(body, 0, end);
    assert(s@ =~= body@.take(end as int));
    assert(s@ == strip_points(body@));
    let mut i: usize = 0;
    while i < s.len() && s[i] != 46
        invariant
            0 <= i <= s@.len(),
            first_point(s@, 0) == first_point(s@, i as int),
            forall|j: int| 0 <= j < i ==> #[trigger] s@[j] != 46,
        decreases s@.len() - i,
    {
        i += 1;
    }
    if i >= s.len() {
        assert(!has_point(s@));
        return Real::from_digits(negative, s, none.as_slice());
    }
    assert(s@[i as int] == 46);
    let whole = slice_subrange(s, 0, i);
    let frac = slice_subrange(s, i + 1, s.len());
    assert(whole@ =~= s@.take(i as int));
    assert(frac@ =~= s@.skip(i + 1));
    let mut j: usize = 0;
    while j < frac.len()
        invariant
            0 <= j <= frac@.len(),
            frac@ == s@.skip(i + 1),
            s@ == strip_points(body@),
            has_point(s@),
            i == first_point(s@, 0),
            forall|k: int| 0 <= k < j ==> #[trigger] frac@[k] != 46,
        decreases frac@.len() - j,
    {
        if frac[j] == 46 {
            return Real::zero();
        }
        j += 1;
    }
    assert(!has_point(frac@));
    Real::from_digits(negative, whole, frac)
}

} // verus!
