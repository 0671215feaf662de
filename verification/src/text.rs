//! Strings as sequences of characters and of UTF-8 bytes.
use vstd::prelude::*;
use vstd::utf8::*;

verus! {

/// What `String::from_utf8_lossy` makes of bytes that are not valid UTF-8.
pub uninterp spec fn lossy_text(bytes: Seq<u8>) -> Seq<char>;

/// The text that a sequence of bytes stands for.
pub open spec fn text_of(bytes: Seq<u8>) -> Seq<char> {
    if valid_utf8(bytes) {
        decode_utf8(bytes)
    } else {
        lossy_text(bytes)
    }
}

/// Calls `String::from_utf8_lossy`. Claims that valid UTF-8 is decoded as it stands, and that
/// other bytes always give the same text, of which nothing more is said.
#[verifier::external_body]
pub(crate) fn decode_lossy(bytes: &[u8]) -> (s: String)
    ensures
        s@ == (if valid_utf8(bytes@) {
            decode_utf8(bytes@)
        } else {
            lossy_text(bytes@)
        }),
{
    String::from_utf8_lossy(bytes).into_owned()
}

/// What `String::from_utf16_lossy` makes of code units.
pub uninterp spec fn lossy_utf16(units: Seq<u16>) -> Seq<char>;

/// A code unit that stands for a character of its own.
pub open spec fn is_single_unit(u: u16) -> bool {
    u < 0xD800 || u > 0xDFFF
}

/// The text that a sequence of UTF-16 code units stands for.
pub open spec fn utf16_text(units: Seq<u16>) -> Seq<char> {
    if forall|i: int| 0 <= i < units.len() ==> is_single_unit(#[trigger] units[i]) {
        units.map_values(|u: u16| u as char)
    } else {
        lossy_utf16(units)
    }
}

/// Calls `String::from_utf16_lossy`. Claims that units outside the surrogate range are
/// characters as they stand, and that other sequences always give the same text, of which
/// nothing more is said.
#[verifier::external_body]
pub(crate) fn decode_utf16(units: &[u16]) -> (s: String)
    ensures
        s@ == (if forall|i: int| 0 <= i < units@.len() ==> is_single_unit(#[trigger] units@[i]) {
            units@.map_values(|u: u16| u as char)
        } else {
            lossy_utf16(units@)
        }),
{
    String::from_utf16_lossy(units)
}

/// `String::push` of the standard library. Claims that it puts the character behind the others.
pub assume_specification[ std::string::String::push ](s: &mut std::string::String, c: char)
    ensures
        final(s)@ == old(s)@.push(c),
;

/// Calls `char::from_u32`. Claims that it gives the character with that number where the number
/// is a Unicode scalar value, and nothing otherwise.
#[verifier::external_body]
pub(crate) fn char_of(n: u32) -> (r: Option<char>)
    ensures
        r == (if is_scalar(n) {
            Some(n as char)
        } else {
            None
        }),
{
    char::from_u32(n)
}

/// Bytes taken two by two, the high one first; a byte left over is dropped.
pub open spec fn be_units(bytes: Seq<u8>) -> Seq<u16> {
    Seq::new(bytes.len() / 2, |i: int| (bytes[2 * i] * 256 + bytes[2 * i + 1]) as u16)
}

/// Bytes taken two by two, the high one first; a byte left over is dropped.
pub fn units(bytes: &[u8]) -> (r: Vec<u16>)
    ensures
        r@ == be_units(bytes@),
{
    let mut r: Vec<u16> = Vec::new();
    let mut i: usize = 0;
    while i + 1 < bytes.len()
        invariant
            0 <= i <= bytes@.len(),
            i == 2 * r@.len(),
            r@ == be_units(bytes@).take(r@.len() as int),
            r@.len() <= be_units(bytes@).len(),
        decreases bytes@.len() - i,
    {
        r.push(bytes[i] as u16 * 256 + bytes[i + 1] as u16);
        assert(r@ =~= be_units(bytes@).take(r@.len() as int));
        i += 2;
    }
    assert(r@ =~= be_units(bytes@));
    r
}

/// A text read back from its own UTF-8 bytes is unchanged.
pub proof fn text_of_encoded(chars: Seq<char>)
    ensures
        text_of(encode_utf8(chars)) == chars,
{
    broadcast use {encode_utf8_valid_utf8, encode_utf8_decode_utf8};

}

/// Two texts with the same UTF-8 bytes are the same text.
pub proof fn encode_utf8_injective(a: Seq<char>, b: Seq<char>)
    requires
        encode_utf8(a) == encode_utf8(b),
    ensures
        a == b,
{
    broadcast use encode_utf8_decode_utf8;

    assert(decode_utf8(encode_utf8(a)) == decode_utf8(encode_utf8(b)));
}

/// Whether two byte strings are equal.
pub fn same_bytes(a: &[u8], b: &[u8]) -> (r: bool)
    ensures
        r == (a@ == b@),
{
    if a.len() != b.len() {
        return false;
    }
    let mut i: usize = 0;
    while i < a.len()
        invariant
            a@.len() == b@.len(),
            0 <= i <= a@.len(),
            forall|j: int| 0 <= j < i ==> a@[j] == b@[j],
        decreases a@.len() - i,
    {
        if a[i] != b[i] {
            return false;
        }
        i += 1;
    }
    assert(a@ =~= b@);
    true
}

/// Whether two strings are equal.
pub fn same_text(a: &str, b: &str) -> (r: bool)
    ensures
        r == (a@ == b@),
{
    let r = same_bytes(a.as_bytes(), b.as_bytes());
    proof {
        if r {
            encode_utf8_injective(a@, b@);
        }
    }
    r
}

/// `a` comes before `b` in lexicographic order.
pub open spec fn bytes_lt(a: Seq<u8>, b: Seq<u8>) -> bool
    decreases a.len(),
{
    if b.len() == 0 {
        false
    } else if a.len() == 0 {
        true
    } else if a[0] != b[0] {
        a[0] < b[0]
    } else {
        bytes_lt(a.drop_first(), b.drop_first())
    }
}

/// The order of names in a dictionary: that of their UTF-8 bytes.
pub open spec fn name_lt(a: Seq<char>, b: Seq<char>) -> bool {
    bytes_lt(encode_utf8(a), encode_utf8(b))
}

pub proof fn bytes_lt_irreflexive(a: Seq<u8>)
    ensures
        !bytes_lt(a, a),
    decreases a.len(),
{
    if a.len() > 0 {
        bytes_lt_irreflexive(a.drop_first());
    }
}

pub proof fn bytes_lt_transitive(a: Seq<u8>, b: Seq<u8>, c: Seq<u8>)
    requires
        bytes_lt(a, b),
        bytes_lt(b, c),
    ensures
        bytes_lt(a, c),
    decreases a.len(),
{
    if a.len() > 0 && a[0] == b[0] && b[0] == c[0] {
        bytes_lt_transitive(a.drop_first(), b.drop_first(), c.drop_first());
    }
}

pub proof fn bytes_lt_total(a: Seq<u8>, b: Seq<u8>)
    ensures
        bytes_lt(a, b) || bytes_lt(b, a) || a == b,
    decreases a.len(),
{
    if a.len() == 0 && b.len() == 0 {
        assert(a =~= b);
    } else if a.len() > 0 && b.len() > 0 && a[0] == b[0] {
        bytes_lt_total(a.drop_first(), b.drop_first());
        if a.drop_first() == b.drop_first() {
            assert(a =~= seq![a[0]] + a.drop_first());
            assert(b =~= seq![b[0]] + b.drop_first());
        }
    }
}

proof fn bytes_lt_skip(a: Seq<u8>, b: Seq<u8>, i: int)
    requires
        0 <= i <= a.len(),
        i <= b.len(),
        forall|j: int| 0 <= j < i ==> a[j] == b[j],
    ensures
        bytes_lt(a, b) == bytes_lt(a.skip(i), b.skip(i)),
    decreases i,
{
    if i > 0 {
        bytes_lt_skip(a.drop_first(), b.drop_first(), i - 1);
        assert(a.drop_first().skip(i - 1) =~= a.skip(i));
        assert(b.drop_first().skip(i - 1) =~= b.skip(i));
    } else {
        assert(a.skip(0) =~= a);
        assert(b.skip(0) =~= b);
    }
}

/// Whether `a` comes before `b` in the order of names.
pub fn text_before(a: &str, b: &str) -> (r: bool)
    ensures
        r == name_lt(a@, b@),
{
    let x = a.as_bytes();
    let y = b.as_bytes();
    let mut i: usize = 0;
    while i < x.len() && i < y.len()
        invariant
            0 <= i <= x@.len(),
            i <= y@.len(),
            forall|j: int| 0 <= j < i ==> x@[j] == y@[j],
            x@ == encode_utf8(a@),
            y@ == encode_utf8(b@),
        decreases x@.len() - i,
    {
        if x[i] != y[i] {
            proof {
                bytes_lt_skip(x@, y@, i as int);
            }
            return x[i] < y[i];
        }
        i += 1;
    }
    proof {
        bytes_lt_skip(x@, y@, i as int);
    }
    i < y.len()
}

pub proof fn name_lt_irreflexive(a: Seq<char>)
    ensures
        !name_lt(a, a),
{
    bytes_lt_irreflexive(encode_utf8(a));
}

pub proof fn name_lt_transitive(a: Seq<char>, b: Seq<char>, c: Seq<char>)
    requires
        name_lt(a, b),
        name_lt(b, c),
    ensures
        name_lt(a, c),
{
    bytes_lt_transitive(encode_utf8(a), encode_utf8(b), encode_utf8(c));
}

pub proof fn name_lt_total(a: Seq<char>, b: Seq<char>)
    ensures
        name_lt(a, b) || name_lt(b, a) || a == b,
{
    bytes_lt_total(encode_utf8(a), encode_utf8(b));
    if encode_utf8(a) == encode_utf8(b) {
        encode_utf8_injective(a, b);
    }
}

} // verus!
