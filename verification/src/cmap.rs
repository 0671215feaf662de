//! `/ToUnicode` maps: from the codes of a font to characters.
use std::collections::BTreeMap;
use vstd::prelude::*;
use crate::encoding::scalar_char;
use crate::lexer::{lex, lex_progress, lexed_end, Lexed, Lexer, Token, TokenModel};
use crate::table::{empty_table, put};
use crate::text::{be_units, char_of, same_text, units};

verus! {

/// Codes and the characters that they stand for.
pub type CodeMap = Map<u32, char>;

/// The number that bytes write, the high one first; what does not fit in 32 bits is dropped.
pub open spec fn code_number(bytes: Seq<u8>) -> u32
    decreases bytes.len(),
{
    if bytes.len() == 0 {
        0
    } else {
        ((code_number(bytes.drop_last()) * 256 + bytes.last()) % 0x1_0000_0000) as u32
    }
}

/// The first character of a text in UTF-16; a surrogate without its other half is none.
pub open spec fn first_char(u: Seq<u16>) -> Option<char> {
    if u.len() == 0 {
        None
    } else if u[0] < 0xD800 || u[0] > 0xDFFF {
        scalar_char(u[0] as u32)
    } else if u[0] >= 0xDC00 || u.len() < 2 || u[1] < 0xDC00 || u[1] > 0xDFFF {
        None
    } else {
        scalar_char((0x10000 + (u[0] - 0xD800) * 0x400 + (u[1] - 0xDC00)) as u32)
    }
}

/// A map with a code more, where the bytes say a character. A narrow map has codes of one byte.
pub open spec fn with_char(m: CodeMap, code: u32, dst: Seq<u8>, wide: bool) -> CodeMap {
    match first_char(be_units(dst)) {
        Some(c) => if wide || code < 256 {
            m.insert(code, c)
        } else {
            m
        },
        None => m,
    }
}

/// The character that a range gives a code: where the base is one unit, as far behind the base as
/// the code is behind the start; otherwise the same for all.
pub open spec fn range_char(lo: u32, base: Seq<u16>, code: u32) -> Option<char> {
    if base.len() == 1 {
        scalar_char(((base[0] + (code - lo)) % 0x1_0000_0000) as u32)
    } else {
        first_char(base)
    }
}

/// A map with a range of codes more.
pub open spec fn with_range(m: CodeMap, lo: u32, hi: int, base: Seq<u16>) -> CodeMap {
    Map::new(
        |k: u32| m.contains_key(k) || lo <= k <= hi && range_char(lo, base, k) is Some,
        |k: u32|
            if lo <= k <= hi && range_char(lo, base, k) is Some {
                range_char(lo, base, k)->0
            } else {
                m[k]
            },
    )
}

/// The pairs of codes and characters from `p` on; ends behind the first token that is no string.
pub open spec fn chars_from(d: Seq<u8>, p: int, m: CodeMap, wide: bool) -> (CodeMap, int)
    decreases d.len() - p,
    via chars_shrink
{
    if !(0 <= p <= d.len()) {
        (m, p)
    } else {
        match lex(d, p) {
            Lexed::Token(TokenModel::HexString(src), q) => match lex(d, q) {
                Lexed::Token(TokenModel::HexString(dst), q1) => chars_from(
                    d,
                    q1,
                    with_char(m, code_number(src), dst, wide),
                    wide,
                ),
                other => (m, lexed_end(other)),
            },
            other => (m, lexed_end(other)),
        }
    }
}

proof fn tokens_progress(d: Seq<u8>, p: int)
    requires
        0 <= p <= d.len(),
    ensures
        p <= lexed_end(lex(d, p)) <= d.len(),
        lex(d, p) is Token ==> p < lexed_end(lex(d, p)),
{
    lex_progress(d, p);
}

#[via_fn]
proof fn chars_shrink(d: Seq<u8>, p: int, m: CodeMap, wide: bool) {
    if 0 <= p <= d.len() {
        tokens_progress(d, p);
        tokens_progress(d, lexed_end(lex(d, p)));
    }
}

proof fn chars_progress(d: Seq<u8>, p: int, m: CodeMap, wide: bool)
    requires
        0 <= p <= d.len(),
    ensures
        p <= chars_from(d, p, m, wide).1 <= d.len(),
    decreases d.len() - p,
{
    tokens_progress(d, p);
    if let Lexed::Token(TokenModel::HexString(src), q) = lex(d, p) {
        tokens_progress(d, q);
        if let Lexed::Token(TokenModel::HexString(dst), q1) = lex(d, q) {
            chars_progress(d, q1, with_char(m, code_number(src), dst, wide), wide);
        }
    }
}

/// The characters of an array for the codes from `code` to `hi`; ends early behind a token that
/// is no string.
pub open spec fn listed_from(d: Seq<u8>, p: int, m: CodeMap, code: int, hi: u32, wide: bool) -> (CodeMap, int)
    decreases hi - code + 1,
{
    if code > hi || code < 0 {
        (m, p)
    } else {
        match lex(d, p) {
            Lexed::Token(TokenModel::HexString(dst), q) => listed_from(
                d,
                q,
                with_char(m, code as u32, dst, wide),
                code + 1,
                hi,
                wide,
            ),
            other => (m, lexed_end(other)),
        }
    }
}

proof fn listed_progress(d: Seq<u8>, p: int, m: CodeMap, code: int, hi: u32, wide: bool)
    requires
        0 <= p <= d.len(),
    ensures
        p <= listed_from(d, p, m, code, hi, wide).1 <= d.len(),
    decreases hi - code + 1,
{
    if 0 <= code <= hi {
        tokens_progress(d, p);
        if let Lexed::Token(TokenModel::HexString(dst), q) = lex(d, p) {
            listed_progress(d, q, with_char(m, code as u32, dst, wide), code + 1, hi, wide);
        }
    }
}

/// The map and the place behind a range whose destination is the token `t`, which ends at `p`.
pub open spec fn range_step(d: Seq<u8>, p: int, m: CodeMap, lo: u32, hi: u32, t: TokenModel, wide: bool) -> (
CodeMap, int) {
    if !wide && (lo >= 256 || hi >= 256) {
        (m, p)
    } else {
        match t {
            TokenModel::HexString(base) => (with_range(m, lo, hi as int, be_units(base)), p),
            TokenModel::ArrayStart => {
                let (m1, q) = listed_from(d, p, m, lo as int, hi, wide);
                (m1, lexed_end(lex(d, q)))
            },
            _ => (m, p),
        }
    }
}

/// The ranges of codes from `p` on; ends behind the first token that starts none.
pub open spec fn ranges_from(d: Seq<u8>, p: int, m: CodeMap, wide: bool) -> (CodeMap, int)
    decreases d.len() - p,
    via ranges_shrink
{
    if !(0 <= p <= d.len()) {
        (m, p)
    } else {
        match lex(d, p) {
            Lexed::Token(TokenModel::HexString(lo), q) => match lex(d, q) {
                Lexed::Token(TokenModel::HexString(hi), q1) => match lex(d, q1) {
                    Lexed::Token(t, q2) => {
                        let (m1, q3) = range_step(d, q2, m, code_number(lo), code_number(hi), t, wide);
                        ranges_from(d, q3, m1, wide)
                    },
                    other => (m, lexed_end(other)),
                },
                other => (m, lexed_end(other)),
            },
            other => (m, lexed_end(other)),
        }
    }
}

proof fn range_step_progress(d: Seq<u8>, p: int, m: CodeMap, lo: u32, hi: u32, t: TokenModel, wide: bool)
    requires
        0 <= p <= d.len(),
    ensures
        p <= range_step(d, p, m, lo, hi, t, wide).1 <= d.len(),
{
    if t is ArrayStart {
        listed_progress(d, p, m, lo as int, hi, wide);
        tokens_progress(d, listed_from(d, p, m, lo as int, hi, wide).1);
    }
}

proof fn range_tokens_progress(d: Seq<u8>, p: int, m: CodeMap, wide: bool)
    requires
        0 <= p <= d.len(),
    ensures
        match lex(d, p) {
            Lexed::Token(TokenModel::HexString(lo), q) => match lex(d, q) {
                Lexed::Token(TokenModel::HexString(hi), q1) => match lex(d, q1) {
                    Lexed::Token(t, q2) => p < range_step(
                        d,
                        q2,
                        m,
                        code_number(lo),
                        code_number(hi),
                        t,
                        wide,
                    ).1 <= d.len(),
                    other => p <= lexed_end(other) <= d.len(),
                },
                other => p <= lexed_end(other) <= d.len(),
            },
            other => p <= lexed_end(other) <= d.len(),
        },
{
    tokens_progress(d, p);
    if let Lexed::Token(TokenModel::HexString(lo), q) = lex(d, p) {
        tokens_progress(d, q);
        if let Lexed::Token(TokenModel::HexString(hi), q1) = lex(d, q) {
            tokens_progress(d, q1);
            if let Lexed::Token(t, q2) = lex(d, q1) {
                range_step_progress(d, q2, m, code_number(lo), code_number(hi), t, wide);
            }
        }
    }
}

#[via_fn]
proof fn ranges_shrink(d: Seq<u8>, p: int, m: CodeMap, wide: bool) {
    if 0 <= p <= d.len() {
        range_tokens_progress(d, p, m, wide);
    }
}

proof fn ranges_progress(d: Seq<u8>, p: int, m: CodeMap, wide: bool)
    requires
        0 <= p <= d.len(),
    ensures
        p <= ranges_from(d, p, m, wide).1 <= d.len(),
    decreases d.len() - p,
{
    range_tokens_progress(d, p, m, wide);
    if let Lexed::Token(TokenModel::HexString(lo), q) = lex(d, p) {
        if let Lexed::Token(TokenModel::HexString(hi), q1) = lex(d, q) {
            if let Lexed::Token(t, q2) = lex(d, q1) {
                let (m1, q3) = range_step(d, q2, m, code_number(lo), code_number(hi), t, wide);
                ranges_progress(d, q3, m1, wide);
            }
        }
    }
}

/// The blocks of a map from `p` on, up to its end or to what is no token.
pub open spec fn blocks_from(d: Seq<u8>, p: int, m: CodeMap, wide: bool) -> CodeMap
    decreases d.len() - p,
    via blocks_shrink
{
    if !(0 <= p <= d.len()) {
        m
    } else {
        match lex(d, p) {
            Lexed::Token(TokenModel::Keyword(k), q) => if k == "beginbfchar"@ {
                let (m1, q1) = chars_from(d, q, m, wide);
                blocks_from(d, q1, m1, wide)
            } else if k == "beginbfrange"@ {
                let (m1, q1) = ranges_from(d, q, m, wide);
                blocks_from(d, q1, m1, wide)
            } else {
                blocks_from(d, q, m, wide)
            },
            Lexed::Token(_, q) => blocks_from(d, q, m, wide),
            _ => m,
        }
    }
}

#[via_fn]
proof fn blocks_shrink(d: Seq<u8>, p: int, m: CodeMap, wide: bool) {
    if 0 <= p <= d.len() {
        tokens_progress(d, p);
        let q = lexed_end(lex(d, p));
        chars_progress(d, q, m, wide);
        ranges_progress(d, q, m, wide);
    }
}

/// What a map says: from codes of any length where it is wide, else from codes of one byte.
pub open spec fn unicode_map(d: Seq<u8>, wide: bool) -> CodeMap {
    blocks_from(d, 0, Map::empty(), wide)
}

/// All codes have one byte.
pub open spec fn small_codes(m: CodeMap) -> bool {
    forall|k: u32| #[trigger] m.contains_key(k) ==> k < 256
}

/// All codes of the pairs from `p` on have one byte.
pub open spec fn chars_small(d: Seq<u8>, p: int, m: CodeMap) -> bool
    decreases d.len() - p,
    via chars_small_shrink
{
    if !(0 <= p <= d.len()) {
        true
    } else {
        match lex(d, p) {
            Lexed::Token(TokenModel::HexString(src), q) => match lex(d, q) {
                Lexed::Token(TokenModel::HexString(dst), q1) => code_number(src) < 256
                    && chars_small(d, q1, with_char(m, code_number(src), dst, true)),
                _ => true,
            },
            _ => true,
        }
    }
}

#[via_fn]
proof fn chars_small_shrink(d: Seq<u8>, p: int, m: CodeMap) {
    if 0 <= p <= d.len() {
        tokens_progress(d, p);
        tokens_progress(d, lexed_end(lex(d, p)));
    }
}

/// All codes of the ranges from `p` on have one byte.
pub open spec fn ranges_small(d: Seq<u8>, p: int, m: CodeMap) -> bool
    decreases d.len() - p,
    via ranges_small_shrink
{
    if !(0 <= p <= d.len()) {
        true
    } else {
        match lex(d, p) {
            Lexed::Token(TokenModel::HexString(lo), q) => match lex(d, q) {
                Lexed::Token(TokenModel::HexString(hi), q1) => match lex(d, q1) {
                    Lexed::Token(t, q2) => {
                        let (m1, q3) = range_step(d, q2, m, code_number(lo), code_number(hi), t, true);
                        code_number(lo) < 256 && code_number(hi) < 256 && ranges_small(d, q3, m1)
                    },
                    _ => true,
                },
                _ => true,
            },
            _ => true,
        }
    }
}

#[via_fn]
proof fn ranges_small_shrink(d: Seq<u8>, p: int, m: CodeMap) {
    if 0 <= p <= d.len() {
        range_tokens_progress(d, p, m, true);
    }
}

/// All codes of the blocks from `p` on have one byte.
pub open spec fn blocks_small(d: Seq<u8>, p: int, m: CodeMap) -> bool
    decreases d.len() - p,
    via blocks_small_shrink
{
    if !(0 <= p <= d.len()) {
        true
    } else {
        match lex(d, p) {
            Lexed::Token(TokenModel::Keyword(k), q) => if k == "beginbfchar"@ {
                let (m1, q1) = chars_from(d, q, m, true);
                chars_small(d, q, m) && blocks_small(d, q1, m1)
            } else if k == "beginbfrange"@ {
                let (m1, q1) = ranges_from(d, q, m, true);
                ranges_small(d, q, m) && blocks_small(d, q1, m1)
            } else {
                blocks_small(d, q, m)
            },
            Lexed::Token(_, q) => blocks_small(d, q, m),
            _ => true,
        }
    }
}

#[via_fn]
proof fn blocks_small_shrink(d: Seq<u8>, p: int, m: CodeMap) {
    if 0 <= p <= d.len() {
        tokens_progress(d, p);
        let q = lexed_end(lex(d, p));
        chars_progress(d, q, m, true);
        ranges_progress(d, q, m, true);
    }
}

proof fn chars_same(d: Seq<u8>, p: int, m: CodeMap)
    requires
        chars_small(d, p, m),
    ensures
        chars_from(d, p, m, true) == chars_from(d, p, m, false),
    decreases d.len() - p,
{
    if 0 <= p <= d.len() {
        tokens_progress(d, p);
        if let Lexed::Token(TokenModel::HexString(src), q) = lex(d, p) {
            tokens_progress(d, q);
            if let Lexed::Token(TokenModel::HexString(dst), q1) = lex(d, q) {
                chars_same(d, q1, with_char(m, code_number(src), dst, true));
            }
        }
    }
}

proof fn listed_same(d: Seq<u8>, p: int, m: CodeMap, code: int, hi: u32)
    requires
        hi < 256,
    ensures
        listed_from(d, p, m, code, hi, true) == listed_from(d, p, m, code, hi, false),
    decreases hi - code + 1,
{
    if 0 <= code <= hi {
        if let Lexed::Token(TokenModel::HexString(dst), q) = lex(d, p) {
            listed_same(d, q, with_char(m, code as u32, dst, true), code + 1, hi);
        }
    }
}

proof fn ranges_same(d: Seq<u8>, p: int, m: CodeMap)
    requires
        ranges_small(d, p, m),
    ensures
        ranges_from(d, p, m, true) == ranges_from(d, p, m, false),
    decreases d.len() - p,
{
    if 0 <= p <= d.len() {
        range_tokens_progress(d, p, m, true);
        if let Lexed::Token(TokenModel::HexString(lo), q) = lex(d, p) {
            if let Lexed::Token(TokenModel::HexString(hi), q1) = lex(d, q) {
                if let Lexed::Token(t, q2) = lex(d, q1) {
                    let low = code_number(lo);
                    let high = code_number(hi);
                    listed_same(d, q2, m, low as int, high);
                    let (m1, q3) = range_step(d, q2, m, low, high, t, true);
                    assert(range_step(d, q2, m, low, high, t, false) == (m1, q3));
                    ranges_same(d, q3, m1);
                }
            }
        }
    }
}

proof fn blocks_same(d: Seq<u8>, p: int, m: CodeMap)
    requires
        blocks_small(d, p, m),
    ensures
        blocks_from(d, p, m, true) == blocks_from(d, p, m, false),
    decreases d.len() - p,
{
    if 0 <= p <= d.len() {
        tokens_progress(d, p);
        if let Lexed::Token(t, q) = lex(d, p) {
            if t is Keyword && t->Keyword_0 == "beginbfchar"@ {
                chars_progress(d, q, m, true);
                chars_same(d, q, m);
                blocks_same(d, chars_from(d, q, m, true).1, chars_from(d, q, m, true).0);
            } else if t is Keyword && t->Keyword_0 == "beginbfrange"@ {
                ranges_progress(d, q, m, true);
                ranges_same(d, q, m);
                blocks_same(d, ranges_from(d, q, m, true).1, ranges_from(d, q, m, true).0);
            } else {
                blocks_same(d, q, m);
            }
        }
    }
}

proof fn chars_stay_small(d: Seq<u8>, p: int, m: CodeMap)
    requires
        small_codes(m),
    ensures
        small_codes(chars_from(d, p, m, false).0),
    decreases d.len() - p,
{
    if 0 <= p <= d.len() {
        tokens_progress(d, p);
        if let Lexed::Token(TokenModel::HexString(src), q) = lex(d, p) {
            tokens_progress(d, q);
            if let Lexed::Token(TokenModel::HexString(dst), q1) = lex(d, q) {
                chars_stay_small(d, q1, with_char(m, code_number(src), dst, false));
            }
        }
    }
}

proof fn listed_stay_small(d: Seq<u8>, p: int, m: CodeMap, code: int, hi: u32)
    requires
        small_codes(m),
    ensures
        small_codes(listed_from(d, p, m, code, hi, false).0),
    decreases hi - code + 1,
{
    if 0 <= code <= hi {
        if let Lexed::Token(TokenModel::HexString(dst), q) = lex(d, p) {
            listed_stay_small(d, q, with_char(m, code as u32, dst, false), code + 1, hi);
        }
    }
}

proof fn ranges_stay_small(d: Seq<u8>, p: int, m: CodeMap)
    requires
        small_codes(m),
    ensures
        small_codes(ranges_from(d, p, m, false).0),
    decreases d.len() - p,
{
    if 0 <= p <= d.len() {
        range_tokens_progress(d, p, m, false);
        if let Lexed::Token(TokenModel::HexString(lo), q) = lex(d, p) {
            if let Lexed::Token(TokenModel::HexString(hi), q1) = lex(d, q) {
                if let Lexed::Token(t, q2) = lex(d, q1) {
                    let low = code_number(lo);
                    let high = code_number(hi);
                    listed_stay_small(d, q2, m, low as int, high);
                    let (m1, q3) = range_step(d, q2, m, low, high, t, false);
                    assert(small_codes(m1));
                    ranges_stay_small(d, q3, m1);
                }
            }
        }
    }
}

proof fn blocks_stay_small(d: Seq<u8>, p: int, m: CodeMap)
    requires
        small_codes(m),
    ensures
        small_codes(blocks_from(d, p, m, false)),
    decreases d.len() - p,
{
    if 0 <= p <= d.len() {
        tokens_progress(d, p);
        if let Lexed::Token(t, q) = lex(d, p) {
            if t is Keyword && t->Keyword_0 == "beginbfchar"@ {
                chars_progress(d, q, m, false);
                chars_stay_small(d, q, m);
                blocks_stay_small(d, chars_from(d, q, m, false).1, chars_from(d, q, m, false).0);
            } else if t is Keyword && t->Keyword_0 == "beginbfrange"@ {
                ranges_progress(d, q, m, false);
                ranges_stay_small(d, q, m);
                blocks_stay_small(d, ranges_from(d, q, m, false).1, ranges_from(d, q, m, false).0);
            } else {
                blocks_stay_small(d, q, m);
            }
        }
    }
}

/// A narrow map has codes of one byte alone.
pub proof fn narrow_map_has_small_codes(d: Seq<u8>)
    ensures
        small_codes(unicode_map(d, false)),
{
    blocks_stay_small(d, 0, Map::empty());
}

/// Where all codes have one byte, the wide map is the narrow one.
pub proof fn wide_map_is_the_narrow_one(d: Seq<u8>)
    requires
        blocks_small(d, 0, Map::empty()),
    ensures
        unicode_map(d, true) == unicode_map(d, false),
        small_codes(unicode_map(d, true)),
{
    blocks_same(d, 0, Map::empty());
    narrow_map_has_small_codes(d);
}

/// The number that bytes write, the high one first.
pub fn hex_to_code_u32(bytes: &[u8]) -> (r: u32)
    ensures
        r == code_number(bytes@),
{
    let mut r: u32 = 0;
    let mut i: usize = 0;
    assert(bytes@.take(0) =~= seq![]);
    while i < bytes.len()
        invariant
            0 <= i <= bytes@.len(),
            r == code_number(bytes@.take(i as int)),
        decreases bytes@.len() - i,
    {
        proof {
            let now = bytes@.take(i + 1);
            assert(now.drop_last() =~= bytes@.take(i as int));
            assert(now.last() == bytes@[i as int]);
        }
        r = ((r as u64 * 256 + bytes[i] as u64) % 0x1_0000_0000) as u32;
        i += 1;
    }
    assert(bytes@.take(i as int) =~= bytes@);
    r
}

/// The first character of a text in UTF-16.
fn first_char_of(u: &Vec<u16>) -> (r: Option<char>)
    ensures
        r == first_char(u@),
{
    if u.len() == 0 {
        return None;
    }
    let a: u16 = u[0];
    if a < 0xD800 || a > 0xDFFF {
        return char_of(a as u32);
    }
    if a >= 0xDC00 || u.len() < 2 {
        return None;
    }
    let b: u16 = u[1];
    if b < 0xDC00 || b > 0xDFFF {
        return None;
    }
    char_of(0x10000 + (a as u32 - 0xD800) * 0x400 + (b as u32 - 0xDC00))
}

/// The first character of bytes in UTF-16.
pub fn hex_to_char(bytes: &[u8]) -> (r: Option<char>)
    ensures
        r == first_char(be_units(bytes@)),
{
    first_char_of(&units(bytes))
}

fn put_char(map: &mut BTreeMap<u32, char>, code: u32, dst: &Vec<u8>, wide: bool)
    ensures
        final(map)@ == with_char(old(map)@, code, dst@, wide),
{
    match hex_to_char(dst.as_slice()) {
        Some(c) => {
            if wide || code < 256 {
                put(map, code, c);
            }
        },
        None => {},
    }
}

fn put_range(map: &mut BTreeMap<u32, char>, lo: u32, hi: u32, base: &Vec<u16>)
    ensures
        final(map)@ == with_range(old(map)@, lo, hi as int, base@),
{
    let ghost start = map@;
    let same = if base.len() == 1 {
        None
    } else {
        first_char_of(base)
    };
    if lo > hi {
        assert(with_range(start, lo, hi as int, base@) =~= start);
        return;
    }
    let mut code: u64 = lo as u64;
    assert(with_range(start, lo, code - 1, base@) =~= start);
    while code <= hi as u64
        invariant
            lo <= code <= hi + 1,
            same == (if base@.len() == 1 {
                None
            } else {
                first_char(base@)
            }),
            map@ == with_range(start, lo, code - 1, base@),
        decreases hi + 1 - code,
    {
        let k: u32 = code as u32;
        let found: Option<char> = if base.len() == 1 {
            char_of(((base[0] as u64 + (code - lo as u64)) % 0x1_0000_0000) as u32)
        } else {
            same
        };
        assert(found == range_char(lo, base@, k));
        match found {
            Some(c) => {
                put(map, k, c);
            },
            None => {},
        }
        assert(map@ =~= with_range(start, lo, code as int, base@));
        code += 1;
    }
}

fn read_chars(lexer: &mut Lexer, map: &mut BTreeMap<u32, char>, wide: bool)
    requires
        old(lexer).at() <= old(lexer).bytes().len(),
    ensures
        final(lexer).bytes() == old(lexer).bytes(),
        final(lexer).at() <= final(lexer).bytes().len(),
        ({
            let (m, q) = chars_from(old(lexer).bytes(), old(lexer).at(), old(map)@, wide);
            final(map)@ == m && final(lexer).at() == q
        }),
{
    let ghost d = lexer.bytes();
    let ghost goal = chars_from(d, lexer.at(), map@, wide);
    loop
        invariant_except_break
            lexer.bytes() == d,
            lexer.at() <= d.len(),
            goal == chars_from(d, lexer.at(), map@, wide),
        ensures
            lexer.bytes() == d,
            lexer.at() <= d.len(),
            goal == (map@, lexer.at()),
        decreases d.len() - lexer.at(),
    {
        proof {
            lexer.at_bounds();
            tokens_progress(d, lexer.at());
        }
        let src = match lexer.next_token() {
            Ok(Some(Token::HexString(s))) => s,
            _ => {
                break;
            },
        };
        proof {
            tokens_progress(d, lexer.at());
        }
        let dst = match lexer.next_token() {
            Ok(Some(Token::HexString(s))) => s,
            _ => {
                break;
            },
        };
        put_char(map, hex_to_code_u32(src.as_slice()), &dst, wide);
    }
}

fn read_list(lexer: &mut Lexer, map: &mut BTreeMap<u32, char>, lo: u32, hi: u32, wide: bool)
    requires
        old(lexer).at() <= old(lexer).bytes().len(),
    ensures
        final(lexer).bytes() == old(lexer).bytes(),
        final(lexer).at() <= final(lexer).bytes().len(),
        ({
            let (m, q) = listed_from(
                old(lexer).bytes(),
                old(lexer).at(),
                old(map)@,
                lo as int,
                hi,
                wide,
            );
            final(map)@ == m && final(lexer).at() == q
        }),
{
    let ghost d = lexer.bytes();
    let ghost goal = listed_from(d, lexer.at(), map@, lo as int, hi, wide);
    let mut code: u64 = lo as u64;
    while code <= hi as u64
        invariant_except_break
            lexer.bytes() == d,
            lexer.at() <= d.len(),
            goal == listed_from(d, lexer.at(), map@, code as int, hi, wide),
        ensures
            lexer.bytes() == d,
            lexer.at() <= d.len(),
            goal == (map@, lexer.at()),
        decreases hi + 1 - code,
    {
        proof {
            lexer.at_bounds();
            tokens_progress(d, lexer.at());
        }
        match lexer.next_token() {
            Ok(Some(Token::HexString(s))) => {
                put_char(map, code as u32, &s, wide);
            },
            _ => {
                break;
            },
        }
        code += 1;
    }
}

fn read_ranges(lexer: &mut Lexer, map: &mut BTreeMap<u32, char>, wide: bool)
    requires
        old(lexer).at() <= old(lexer).bytes().len(),
    ensures
        final(lexer).bytes() == old(lexer).bytes(),
        final(lexer).at() <= final(lexer).bytes().len(),
        ({
            let (m, q) = ranges_from(old(lexer).bytes(), old(lexer).at(), old(map)@, wide);
            final(map)@ == m && final(lexer).at() == q
        }),
{
    let ghost d = lexer.bytes();
    let ghost goal = ranges_from(d, lexer.at(), map@, wide);
    loop
        invariant_except_break
            lexer.bytes() == d,
            lexer.at() <= d.len(),
            goal == ranges_from(d, lexer.at(), map@, wide),
        ensures
            lexer.bytes() == d,
            lexer.at() <= d.len(),
            goal == (map@, lexer.at()),
        decreases d.len() - lexer.at(),
    {
        proof {
            lexer.at_bounds();
            range_tokens_progress(d, lexer.at(), map@, wide);
            tokens_progress(d, lexer.at());
        }
        let lo = match lexer.next_token() {
            Ok(Some(Token::HexString(s))) => s,
            _ => {
                break;
            },
        };
        proof {
            tokens_progress(d, lexer.at());
        }
        let hi = match lexer.next_token() {
            Ok(Some(Token::HexString(s))) => s,
            _ => {
                break;
            },
        };
        proof {
            tokens_progress(d, lexer.at());
        }
        let t = match lexer.next_token() {
            Ok(Some(t)) => t,
            _ => {
                break;
            },
        };
        let low: u32 = hex_to_code_u32(lo.as_slice());
        let high: u32 = hex_to_code_u32(hi.as_slice());
        if wide || low < 256 && high < 256 {
            match t {
                Token::HexString(base) => {
                    put_range(map, low, high, &units(base.as_slice()));
                },
                Token::ArrayStart => {
                    read_list(lexer, map, low, high, wide);
                    proof {
                        lexer.at_bounds();
                        tokens_progress(d, lexer.at());
                    }
                    let _ = lexer.next_token();
                },
                _ => {},
            }
        }
    }
}

/// Reads a map.
fn read_map(bytes: &[u8], wide: bool) -> (map: BTreeMap<u32, char>)
    ensures
        map@ == unicode_map(bytes@, wide),
{
    let mut lexer = Lexer::new(bytes);
    let mut map: BTreeMap<u32, char> = empty_table();
    let ghost d = bytes@;
    let ghost goal = unicode_map(d, wide);
    loop
        invariant_except_break
            lexer.bytes() == d,
            lexer.at() <= d.len(),
            goal == blocks_from(d, lexer.at(), map@, wide),
        ensures
            goal == map@,
        decreases d.len() - lexer.at(),
    {
        proof {
            lexer.at_bounds();
            tokens_progress(d, lexer.at());
        }
        match lexer.next_token() {
            Ok(Some(Token::Keyword(k))) => {
                let ghost q = lexer.at();
                proof {
                    chars_progress(d, q, map@, wide);
                    ranges_progress(d, q, map@, wide);
                }
                if same_text(k.as_str(), "beginbfchar") {
                    read_chars(&mut lexer, &mut map, wide);
                } else if same_text(k.as_str(), "beginbfrange") {
                    read_ranges(&mut lexer, &mut map, wide);
                }
            },
            Ok(Some(_)) => {},
            _ => {
                break;
            },
        }
    }
    map
}

/// Reads a map from codes of one byte.
pub fn parse_to_unicode_cmap(bytes: &[u8]) -> (map: BTreeMap<u32, char>)
    ensures
        map@ == unicode_map(bytes@, false),
{
    read_map(bytes, false)
}

/// Reads a map from codes of any length.
pub fn parse_to_unicode_cmap_wide(bytes: &[u8]) -> (map: BTreeMap<u32, char>)
    ensures
        map@ == unicode_map(bytes@, true),
{
    read_map(bytes, true)
}

} // verus!
