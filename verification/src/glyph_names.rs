//! Names of glyphs that are made of their characters mean these characters.
use vstd::prelude::*;
use vstd::utf8::{encode_scalar, encode_utf8, leading_byte_width_1};
use crate::encoding::{all_hex, glyph_char, hex_number, hex_u32, listed_glyph};
use crate::lexer::hex_digit;
use crate::writer::hex_char;

verus! {

/// A number in upper-case hexadecimal digits, at least `least` of them.
pub open spec fn hex_digits(n: nat, least: nat) -> Seq<char>
    decreases n + least,
{
    if n < 16 && least <= 1 {
        seq![hex_char(n as int) as char]
    } else {
        hex_digits(n / 16, (if least > 0 {
            least - 1
        } else {
            0
        }) as nat).push(hex_char((n % 16) as int) as char)
    }
}

/// The name `uni` and the number of a character, in four digits or more.
pub open spec fn uni_name(c: char) -> Seq<char> {
    "uni"@ + hex_digits(c as nat, 4)
}

/// The name `u` and the number of a character, in four digits or more.
pub open spec fn u_name(c: char) -> Seq<char> {
    "u"@ + hex_digits(c as nat, 4)
}

/// All characters are ASCII.
spec fn all_ascii(s: Seq<char>) -> bool {
    forall|i: int| 0 <= i < s.len() ==> (#[trigger] s[i]) as u32 <= 127
}

/// ASCII characters as bytes.
spec fn bytes_of(s: Seq<char>) -> Seq<u8> {
    s.map_values(|c: char| c as u32 as u8)
}

proof fn ascii_byte(v: u32)
    requires
        v <= 127,
    ensures
        leading_byte_width_1(v) == v,
{
    assert(v <= 127 ==> (v & 0x7f) as u8 == v) by (bit_vector);
}

proof fn ascii_encodes(s: Seq<char>)
    requires
        all_ascii(s),
    ensures
        encode_utf8(s) == bytes_of(s),
    decreases s.len(),
{
    if s.len() > 0 {
        let v = s[0] as u32;
        let rest = s.drop_first();
        assert(all_ascii(rest)) by {
            assert forall|i: int| 0 <= i < rest.len() implies (#[trigger] rest[i]) as u32 <= 127 by {
                assert(rest[i] == s[i + 1]);
            }
        }
        ascii_encodes(rest);
        assert(s[0] as u32 <= 127);
        ascii_byte(v);
        assert(encode_scalar(v) =~= seq![s[0] as u32 as u8]);
        assert(bytes_of(s) =~= seq![s[0] as u32 as u8] + bytes_of(rest));
    } else {
        assert(bytes_of(s) =~= seq![]);
    }
}

proof fn one_digit_more(s: Seq<u8>, b: u8, acc: nat)
    ensures
        hex_number(s.push(b), acc) == match (hex_number(s, acc), hex_digit(b)) {
            (Some(n), Some(v)) => Some(n * 16 + v as nat),
            _ => None,
        },
    decreases s.len(),
{
    if s.len() == 0 {
        assert(s.push(b).drop_first() =~= s);
        reveal_with_fuel(hex_number, 2);
    } else {
        assert(s.push(b)[0] == s[0]);
        assert(s.push(b).drop_first() =~= s.drop_first().push(b));
        if let Some(v) = hex_digit(s[0]) {
            one_digit_more(s.drop_first(), b, acc * 16 + v as nat);
        }
    }
}

proof fn digits_say(n: nat, least: nat)
    ensures
        hex_digits(n, least).len() >= 1,
        hex_digits(n, least).len() >= least,
        all_ascii(hex_digits(n, least)),
        all_hex(bytes_of(hex_digits(n, least))),
        hex_number(bytes_of(hex_digits(n, least)), 0) == Some(n),
    decreases n + least,
{
    let s = hex_digits(n, least);
    if n < 16 && least <= 1 {
        let b = hex_char(n as int);
        assert(bytes_of(s) =~= Seq::<u8>::empty().push(b));
        one_digit_more(Seq::empty(), b, 0);
        assert(all_hex(bytes_of(s)));
    } else {
        let less = (if least > 0 {
            least - 1
        } else {
            0
        }) as nat;
        let front = hex_digits(n / 16, less);
        let b = hex_char((n % 16) as int);
        digits_say(n / 16, less);
        assert(bytes_of(s) =~= bytes_of(front).push(b));
        one_digit_more(bytes_of(front), b, 0);
        assert forall|i: int| 0 <= i < s.len() implies (#[trigger] s[i]) as u32 <= 127 by {
            if i < front.len() {
                assert(s[i] == front[i]);
            }
        }
        assert forall|i: int| 0 <= i < bytes_of(s).len() implies hex_digit(
            #[trigger] bytes_of(s)[i],
        ) is Some by {
            if i < front.len() {
                assert(bytes_of(s)[i] == bytes_of(front)[i]);
            }
        }
    }
}

/// What is read behind a first word is the number of the character.
proof fn number_behind(word: Seq<char>, c: char)
    requires
        all_ascii(word),
    ensures
        ({
            let name = word + hex_digits(c as nat, 4);
            let b = encode_utf8(name);
            &&& b.len() >= word.len() + 4
            &&& forall|i: int| 0 <= i < word.len() ==> #[trigger] b[i] == word[i] as u32 as u8
            &&& all_hex(b.skip(word.len() as int))
            &&& hex_u32(b.skip(word.len() as int)) == Some(c as u32)
        }),
{
    let digits = hex_digits(c as nat, 4);
    let name = word + digits;
    digits_say(c as nat, 4);
    assert forall|i: int| 0 <= i < name.len() implies (#[trigger] name[i]) as u32 <= 127 by {
        if i < word.len() {
            assert(name[i] == word[i]);
        } else {
            assert(name[i] == digits[i - word.len()]);
        }
    }
    ascii_encodes(name);
    let rest = encode_utf8(name).skip(word.len() as int);
    assert(rest =~= bytes_of(digits));
    assert(hex_digit(rest[0]) is Some);
}

/// The name `uni` and the number of a character means the character.
pub proof fn uni_name_means_its_character(c: char)
    ensures
        glyph_char(uni_name(c)) == Some(c),
{
    reveal_strlit("uni");
    number_behind("uni"@, c);
    let b = encode_utf8(uni_name(c));
    assert(b[0] == "uni"@[0] as u32 as u8);
    assert(b[1] == "uni"@[1] as u32 as u8);
    assert(b[2] == "uni"@[2] as u32 as u8);
    vstd::utf8::char_is_scalar(c);
}

/// The name `u` and the number of a character means the character.
pub proof fn u_name_means_its_character(c: char)
    ensures
        glyph_char(u_name(c)) == Some(c),
{
    reveal_strlit("u");
    number_behind("u"@, c);
    let b = encode_utf8(u_name(c));
    assert(b[0] == "u"@[0] as u32 as u8);
    assert(b.skip(1)[0] == b[1]);
    assert(hex_digit(b[1]) is Some);
    vstd::utf8::char_is_scalar(c);
}

/// No listed name has one character.
proof fn one_character_is_not_listed(name: Seq<char>)
    requires
        name.len() == 1,
    ensures
        listed_glyph(name) is None,
{
    reveal_strlit("space");
    reveal_strlit("exclam");
    reveal_strlit("quotedbl");
    reveal_strlit("numbersign");
    reveal_strlit("dollar");
    reveal_strlit("percent");
    reveal_strlit("ampersand");
    reveal_strlit("quotesingle");
    reveal_strlit("quoteright");
    reveal_strlit("parenleft");
    reveal_strlit("parenright");
    reveal_strlit("asterisk");
    reveal_strlit("plus");
    reveal_strlit("comma");
    reveal_strlit("hyphen");
    reveal_strlit("minus");
    reveal_strlit("period");
    reveal_strlit("slash");
    reveal_strlit("zero");
    reveal_strlit("one");
    reveal_strlit("two");
    reveal_strlit("three");
    reveal_strlit("four");
    reveal_strlit("five");
    reveal_strlit("six");
    reveal_strlit("seven");
    reveal_strlit("eight");
    reveal_strlit("nine");
    reveal_strlit("colon");
    reveal_strlit("semicolon");
    reveal_strlit("less");
    reveal_strlit("equal");
    reveal_strlit("greater");
    reveal_strlit("question");
    reveal_strlit("at");
    reveal_strlit("bracketleft");
    reveal_strlit("backslash");
    reveal_strlit("bracketright");
    reveal_strlit("asciicircum");
    reveal_strlit("underscore");
    reveal_strlit("grave");
    reveal_strlit("quoteleft");
    reveal_strlit("braceleft");
    reveal_strlit("bar");
    reveal_strlit("braceright");
    reveal_strlit("asciitilde");
    reveal_strlit("eacute");
    reveal_strlit("egrave");
    reveal_strlit("ecirc");
    reveal_strlit("edieresis");
    reveal_strlit("agrave");
    reveal_strlit("acircumflex");
    reveal_strlit("adieresis");
    reveal_strlit("ccedilla");
    reveal_strlit("ntilde");
    reveal_strlit("ograve");
    reveal_strlit("ocircumflex");
    reveal_strlit("odieresis");
    reveal_strlit("ugrave");
    reveal_strlit("ucircumflex");
    reveal_strlit("udieresis");
    reveal_strlit("Eacute");
    reveal_strlit("Egrave");
    reveal_strlit("Agrave");
    reveal_strlit("Ccedilla");
    reveal_strlit("Ntilde");
}

/// A name of one ASCII character means the character.
pub proof fn one_character_means_itself(c: char)
    requires
        c as u32 <= 127,
    ensures
        glyph_char(seq![c]) == Some(c),
{
    assert(all_ascii(seq![c]));
    ascii_encodes(seq![c]);
    one_character_is_not_listed(seq![c]);
    assert(encode_utf8(seq![c])[0] == c as u32 as u8);
}

} // verus!
