//! What tokens and instructions say, as they are written.
use vstd::prelude::*;
use crate::arith::pow10;
use crate::bytes::{find_from_is, first_at, occurs_at};
use crate::content::{ei, ei_stands_alone, find_ei, instructions_from, InstructionModel};
use crate::decimal::{all_digits, digits_value, is_digit};
use crate::error::ErrorModel;
use crate::exact::real_value;
use crate::filters_undo::writes_hex;
use crate::lexer::{digit_pairs, escape, first_point, has_point, hex_digit, hex_from, lex, lex_at, literal_from, name_from, number_at, number_end, octal_len, octal_value, point_number, regular, strip_points, Lexed, TokenModel};
use crate::object::ObjectModel;

verus! {

/// A backslash before a letter stands for a control character, before the end of a line for
/// nothing, and before anything else that is no digit for that itself.
pub proof fn escapes_stand_for_bytes(d: Seq<u8>, p: int, depth: nat, acc: Seq<u8>)
    requires
        0 <= p,
        p + 1 < d.len(),
        d[p] == 92,
    ensures
        ({
            let e = d[p + 1];
            let r = literal_from(d, p, depth, acc);
            &&& e == 110 ==> r == literal_from(d, p + 2, depth, acc.push(10))
            &&& e == 114 ==> r == literal_from(d, p + 2, depth, acc.push(13))
            &&& e == 116 ==> r == literal_from(d, p + 2, depth, acc.push(9))
            &&& e == 98 ==> r == literal_from(d, p + 2, depth, acc.push(8))
            &&& e == 102 ==> r == literal_from(d, p + 2, depth, acc.push(12))
            &&& e == 40 || e == 41 || e == 92 ==> r == literal_from(d, p + 2, depth, acc.push(e))
            &&& e == 10 ==> r == literal_from(d, p + 2, depth, acc)
            &&& e == 13 && (p + 2 >= d.len() || d[p + 2] != 10) ==> r == literal_from(d, p + 2, depth, acc)
            &&& e == 13 && p + 2 < d.len() && d[p + 2] == 10 ==> r == literal_from(
                d,
                p + 3,
                depth,
                acc,
            )
            &&& e != 110 && e != 114 && e != 116 && e != 98 && e != 102 && e != 10 && e != 13 && !(48
                <= e <= 55) ==> r == literal_from(d, p + 2, depth, acc.push(e))
        }),
{
    let (bytes, next) = escape(d, p + 1);
    assert(literal_from(d, p, depth, acc) == literal_from(d, next, depth, acc + bytes));
    assert(bytes.len() == 0 ==> acc + bytes =~= acc);
    assert(bytes.len() == 1 ==> acc + bytes =~= acc.push(bytes[0]));
}

/// A backslash before up to three octal digits stands for the byte with their number.
pub proof fn octal_digits_stand_for_a_byte(d: Seq<u8>, p: int, depth: nat, acc: Seq<u8>, a: u8, b: u8, c: u8)
    requires
        0 <= p,
        p + 4 < d.len(),
        d[p] == 92,
        a < 8 && b < 8 && c < 8,
        d[p + 1] == 48 + a,
    ensures
        d[p + 2] == 48 + b && d[p + 3] == 48 + c ==> literal_from(d, p, depth, acc) == literal_from(
            d,
            p + 4,
            depth,
            acc.push(((64 * a + 8 * b + c) % 256) as u8),
        ),
        d[p + 2] == 48 + b && !(48 <= d[p + 3] <= 55) ==> literal_from(d, p, depth, acc)
            == literal_from(d, p + 3, depth, acc.push((8 * a + b) as u8)),
        !(48 <= d[p + 2] <= 55) ==> literal_from(d, p, depth, acc) == literal_from(
            d,
            p + 2,
            depth,
            acc.push(a),
        ),
{
    let (bytes, next) = escape(d, p + 1);
    assert(literal_from(d, p, depth, acc) == literal_from(d, next, depth, acc + bytes));
    assert(acc + bytes =~= acc.push(bytes[0]));
    reveal_with_fuel(octal_len, 4);
    reveal_with_fuel(octal_value, 4);
    let one = d.subrange(p + 1, p + 2);
    let two = d.subrange(p + 1, p + 3);
    let three = d.subrange(p + 1, p + 4);
    assert(one.drop_last() =~= seq![]);
    assert(two.drop_last() =~= one);
    assert(three.drop_last() =~= two);
}

/// Brackets inside a string belong to it as long as they are paired; any other byte stands for
/// itself, and the bracket that was open first ends it.
pub proof fn brackets_are_paired(d: Seq<u8>, p: int, depth: nat, acc: Seq<u8>)
    requires
        0 <= p < d.len(),
        depth >= 1,
    ensures
        d[p] == 40 ==> literal_from(d, p, depth, acc) == literal_from(d, p + 1, depth + 1, acc.push(40)),
        d[p] == 41 && depth > 1 ==> literal_from(d, p, depth, acc) == literal_from(
            d,
            p + 1,
            (depth - 1) as nat,
            acc.push(41),
        ),
        d[p] == 41 && depth == 1 ==> literal_from(d, p, depth, acc) == Lexed::Token(
            TokenModel::LiteralString(acc),
            p + 1,
        ),
        d[p] != 40 && d[p] != 41 && d[p] != 92 ==> literal_from(d, p, depth, acc) == literal_from(
            d,
            p + 1,
            depth,
            acc.push(d[p]),
        ),
{
}

proof fn hex_string_goes_on(d: Seq<u8>, at: int, k: int, acc: Seq<u8>, text: Seq<u8>)
    requires
        0 <= at,
        0 <= k <= text.len(),
        at + text.len() < d.len(),
        forall|i: int| 0 <= i < text.len() ==> #[trigger] d[at + i] == text[i],
        d[at + text.len()] == 62,
        forall|i: int| 0 <= i < text.len() ==> hex_digit(#[trigger] text[i]) is Some,
    ensures
        hex_from(d, at + k, acc) == Lexed::Token(
            TokenModel::HexString(
                digit_pairs(acc + text.skip(k).map_values(|b: u8| hex_digit(b)->0)),
            ),
            at + text.len() + 1,
        ),
    decreases text.len() - k,
{
    let rest = text.skip(k).map_values(|b: u8| hex_digit(b)->0);
    if k < text.len() {
        let v = hex_digit(text[k])->0;
        hex_string_goes_on(d, at, k + 1, acc.push(v), text);
        assert(acc.push(v) + text.skip(k + 1).map_values(|b: u8| hex_digit(b)->0) =~= acc + rest);
        assert(d[at + k] == text[k]);
    } else {
        assert(acc + rest =~= acc);
    }
}

/// A string in angle brackets is the bytes that its digits write.
pub proof fn hex_string_is_its_bytes(d: Seq<u8>, p: int, text: Seq<u8>, bytes: Seq<u8>)
    requires
        0 <= p,
        d[p] == 60,
        p + 1 + text.len() < d.len(),
        bytes.len() > 0,
        writes_hex(text, bytes),
        forall|i: int| 0 <= i < text.len() ==> #[trigger] d[p + 1 + i] == text[i],
        d[p + 1 + text.len()] == 62,
    ensures
        lex_at(d, p) == Lexed::Token(TokenModel::HexString(bytes), p + 2 + text.len()),
{
    let values = text.map_values(|b: u8| hex_digit(b)->0);
    assert forall|i: int| 0 <= i < text.len() implies hex_digit(#[trigger] text[i]) is Some by {
        let k = i / 2;
        assert(i == 2 * k || i == 2 * k + 1);
        assert(hex_digit(text[2 * k]) is Some);
    }
    hex_string_goes_on(d, p + 1, 0, seq![], text);
    assert(text.skip(0) =~= text);
    assert(Seq::<u8>::empty() + values =~= values);
    assert(digit_pairs(values) =~= bytes) by {
        assert forall|i: int| 0 <= i < bytes.len() implies digit_pairs(values)[i] == bytes[i] by {
            assert(values[2 * i] == hex_digit(text[2 * i])->0);
            assert(values[2 * i + 1] == hex_digit(text[2 * i + 1])->0);
        }
    }
    assert(d[p + 1 + 0] == text[0]);
    assert(hex_digit(text[0]) is Some);
    assert(hex_digit(60) is None);
}

/// In a name `#` and two hexadecimal digits stand for a byte, and other bytes for themselves, up to
/// the first that cannot belong to a name.
pub proof fn names_are_read(d: Seq<u8>, p: int, acc: Seq<u8>)
    requires
        0 <= p < d.len(),
    ensures
        d[p] == 35 && p + 2 < d.len() && hex_digit(d[p + 1]) is Some && hex_digit(d[p + 2]) is Some
            ==> name_from(d, p, acc) == name_from(
            d,
            p + 3,
            acc.push((hex_digit(d[p + 1])->0 * 16 + hex_digit(d[p + 2])->0) as u8),
        ),
        d[p] != 35 && regular(d[p]) ==> name_from(d, p, acc) == name_from(d, p + 1, acc.push(d[p])),
        !regular(d[p]) ==> name_from(d, p, acc) == (acc, p),
{
}

proof fn number_runs_to(d: Seq<u8>, p: int, end: int)
    requires
        0 <= p <= end <= d.len(),
        forall|i: int| p <= i < end ==> is_digit(#[trigger] d[i]) || d[i] == 46,
        end < d.len() ==> !is_digit(d[end]) && d[end] != 46,
    ensures
        number_end(d, p) == end,
    decreases end - p,
{
    if p < end {
        number_runs_to(d, p + 1, end);
    }
}

/// Digits are a whole number, with a minus sign a negative one, as long as it can be held.
pub proof fn digits_are_a_whole_number(d: Seq<u8>, p: int, end: int)
    requires
        0 <= p < end <= d.len(),
        forall|i: int| p < i < end ==> is_digit(#[trigger] d[i]),
        is_digit(d[p]) || (p + 1 < end && (d[p] == 45 || d[p] == 43)),
        end < d.len() ==> !is_digit(d[end]) && d[end] != 46,
    ensures
        is_digit(d[p]) && digits_value(d.subrange(p, end)) <= i64::MAX ==> number_at(d, p)
            == Lexed::Token(TokenModel::Integer(digits_value(d.subrange(p, end)) as int), end),
        d[p] == 43 && digits_value(d.subrange(p + 1, end)) <= i64::MAX ==> number_at(d, p)
            == Lexed::Token(TokenModel::Integer(digits_value(d.subrange(p + 1, end)) as int), end),
        d[p] == 45 && digits_value(d.subrange(p + 1, end)) <= i64::MAX ==> number_at(d, p)
            == Lexed::Token(TokenModel::Integer(-(digits_value(d.subrange(p + 1, end)) as int)), end),
{
    let start = if is_digit(d[p]) {
        p
    } else {
        p + 1
    };
    number_runs_to(d, start, end);
    let body = d.subrange(start, end);
    assert(!has_point(body)) by {
        if has_point(body) {
            let i = choose|i: int| 0 <= i < body.len() && body[i] == 46;
            assert(body[i] == d[start + i]);
            assert(is_digit(d[start + i]));
        }
    }
}

/// Digits before and behind a point are the number with as many digits behind the point.
pub proof fn point_parts_the_digits(negative: bool, whole: Seq<u8>, frac: Seq<u8>)
    requires
        all_digits(whole),
        all_digits(frac),
    ensures
        point_number(negative, whole.push(46) + frac).places() <= frac.len(),
        point_number(negative, whole.push(46) + frac).at_places(frac.len()) == if negative {
            -(digits_value(whole + frac) as int)
        } else {
            digits_value(whole + frac) as int
        },
{
    let body = whole.push(46) + frac;
    real_value(negative, whole, frac, frac.len());
    assert(pow10(0) == 1);
    assert(digits_value(whole + frac) * 1 == digits_value(whole + frac));
    if frac.len() > 0 {
        assert(body.last() == frac.last());
        assert(is_digit(frac.last()));
        assert(strip_points(body) == body);
        assert(body[whole.len() as int] == 46);
        assert(has_point(body));
        first_point_is(body, 0, whole.len() as int);
        let i = whole.len() as int;
        assert(body.skip(i + 1) =~= frac);
        assert(body.take(i) =~= whole);
        no_point(frac);
    } else {
        assert(body =~= whole.push(46));
        assert(body.drop_last() =~= whole);
        if whole.len() > 0 {
            assert(is_digit(whole.last()));
        }
        assert(strip_points(whole) == whole);
        assert(strip_points(body) == whole);
        no_point(whole);
        assert(frac =~= seq![]);
    }
}

proof fn no_point(s: Seq<u8>)
    requires
        all_digits(s),
    ensures
        !has_point(s),
{
    if has_point(s) {
        let i = choose|i: int| 0 <= i < s.len() && s[i] == 46;
        assert(is_digit(s[i]));
    }
}

proof fn first_point_is(s: Seq<u8>, i: int, k: int)
    requires
        0 <= i <= k < s.len(),
        s[k] == 46,
        forall|j: int| i <= j < k ==> is_digit(#[trigger] s[j]),
    ensures
        first_point(s, i) == k,
    decreases k - i,
{
    if i < k {
        assert(is_digit(s[i]));
        first_point_is(s, i + 1, k);
    }
}

/// A word that is no value ends an instruction: it is the operator, and what was read before it
/// are the operands in their order. The next instruction starts without any.
pub proof fn operands_stand_before_their_operator(
    d: Seq<u8>,
    p: int,
    operands: Seq<ObjectModel>,
    acc: Seq<InstructionModel>,
    word: Seq<char>,
    next: int,
)
    requires
        lex(d, p) == Lexed::Token(TokenModel::Keyword(word), next),
        word != "true"@ && word != "false"@ && word != "null"@ && word != "BI"@,
    ensures
        instructions_from(d, p, operands, acc) == instructions_from(
            d,
            next,
            seq![],
            acc.push(InstructionModel { operator: word, operands }),
        ),
{
}

/// A value is one operand more, behind those before it.
pub proof fn values_are_operands(
    d: Seq<u8>,
    p: int,
    operands: Seq<ObjectModel>,
    acc: Seq<InstructionModel>,
    t: TokenModel,
    next: int,
    o: ObjectModel,
)
    requires
        lex(d, p) == Lexed::Token(t, next),
        p < next <= d.len(),
        match o {
            ObjectModel::Integer(n) => t == TokenModel::Integer(n),
            ObjectModel::Real(r) => t == TokenModel::Real(r),
            ObjectModel::Name(n) => t == TokenModel::Name(n),
            ObjectModel::String(s) => t == TokenModel::LiteralString(s) || t
                == TokenModel::HexString(s),
            _ => false,
        },
    ensures
        instructions_from(d, p, operands, acc) == instructions_from(d, next, operands.push(o), acc),
{
}

/// Nothing behind the data is an instruction: those before the end are all there are.
pub proof fn instructions_end_with_the_data(d: Seq<u8>, p: int, operands: Seq<ObjectModel>, acc: Seq<InstructionModel>, end: int)
    requires
        lex(d, p) == Lexed::End(end),
    ensures
        instructions_from(d, p, operands, acc) == Ok::<Seq<InstructionModel>, ErrorModel>(acc),
{
}

/// The data of an inline image end before the first `EI` that stands alone.
pub proof fn image_ends_before_ei(d: Seq<u8>, base: int, from: int, i: int)
    requires
        0 <= base <= from <= i,
        occurs_at(d, ei(), i),
        ei_stands_alone(d, base, i),
        forall|j: int| from <= j < i && #[trigger] occurs_at(d, ei(), j) ==> !ei_stands_alone(d, base, j),
    ensures
        find_ei(d, base, from) == Some(i),
    decreases i - from,
{
    if exists|j: int| from <= j < i && first_at(d, ei(), from, j) {
        let j = choose|j: int| from <= j < i && first_at(d, ei(), from, j);
        find_from_is(d, ei(), from, j);
        assert(j + 1 != i) by {
            assert(d.subrange(j, j + 2)[1] == ei()[1]);
            assert(d.subrange(i, i + 2)[0] == ei()[0]);
        }
        image_ends_before_ei(d, base, j + 2, i);
    } else {
        assert(first_at(d, ei(), from, i)) by {
            if exists|j: int| from <= j < i && #[trigger] occurs_at(d, ei(), j) {
                let j = choose|j: int| from <= j < i && #[trigger] occurs_at(d, ei(), j);
                least_occurrence(d, from, j);
            }
        }
        find_from_is(d, ei(), from, i);
    }
}

proof fn least_occurrence(d: Seq<u8>, from: int, j: int)
    requires
        from <= j,
        occurs_at(d, ei(), j),
    ensures
        exists|k: int| from <= k <= j && first_at(d, ei(), from, k),
    decreases j - from,
{
    if exists|k: int| from <= k < j && #[trigger] occurs_at(d, ei(), k) {
        let k = choose|k: int| from <= k < j && #[trigger] occurs_at(d, ei(), k);
        least_occurrence(d, from, k);
    } else {
        assert(first_at(d, ei(), from, j));
    }
}

} // verus!
