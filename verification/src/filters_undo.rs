//! What filters undo: data that were encoded come back.
use vstd::prelude::*;
use crate::error::ErrorModel;
use crate::filters::{ascii85_decoded, ascii85_from, ascii_hex_from, ascii_space, be_bytes, decoded_from, paeth_of, png_decoded, png_prefix, png_rows, row_layout, short_group85, stream_decoded, tiff_decoded, tiff_prefix, tiff_prefix_len, unfiltered, unpredicted, value85};
use crate::lexer::{digit_pairs, hex_digit};
use crate::object::{entry, DictModel, ObjectModel};

verus! {

/// Hexadecimal digits, of either case, that write the bytes.
pub open spec fn writes_hex(text: Seq<u8>, bytes: Seq<u8>) -> bool {
    &&& text.len() == 2 * bytes.len()
    &&& forall|i: int|
        #![trigger text[2 * i]]
        0 <= i < bytes.len() ==> hex_digit(text[2 * i]) is Some && hex_digit(text[2 * i + 1]) is Some
            && hex_digit(text[2 * i])->0 * 16 + hex_digit(text[2 * i + 1])->0 == bytes[i]
}

proof fn hex_goes_on(d: Seq<u8>, p: int, acc: Seq<u8>, text: Seq<u8>)
    requires
        0 <= p <= text.len() <= d.len(),
        forall|i: int| 0 <= i < text.len() ==> #[trigger] d[i] == text[i],
        text.len() < d.len() ==> d[text.len() as int] == 62,
        forall|i: int| 0 <= i < text.len() ==> hex_digit(#[trigger] text[i]) is Some,
    ensures
        ascii_hex_from(d, p, acc) == Ok::<Seq<u8>, ErrorModel>(
            digit_pairs(acc + text.skip(p).map_values(|b: u8| hex_digit(b)->0)),
        ),
    decreases text.len() - p,
{
    let rest = text.skip(p).map_values(|b: u8| hex_digit(b)->0);
    if p < text.len() {
        let v = hex_digit(text[p])->0;
        hex_goes_on(d, p + 1, acc.push(v), text);
        assert(acc.push(v) + text.skip(p + 1).map_values(|b: u8| hex_digit(b)->0) =~= acc + rest);
        assert(d[p] == text[p]);
    } else {
        assert(acc + rest =~= acc);
    }
}

/// Bytes written in hexadecimal digits come back, with or without the mark at the end; what
/// stands behind the mark counts for nothing.
pub proof fn hex_comes_back(text: Seq<u8>, bytes: Seq<u8>, rest: Seq<u8>)
    requires
        writes_hex(text, bytes),
    ensures
        unfiltered("ASCIIHexDecode"@, text) == Ok::<Seq<u8>, ErrorModel>(bytes),
        unfiltered("ASCIIHexDecode"@, text.push(62) + rest) == Ok::<Seq<u8>, ErrorModel>(bytes),
{
    filters_have_names();
    let values = text.map_values(|b: u8| hex_digit(b)->0);
    assert forall|i: int| 0 <= i < text.len() implies hex_digit(#[trigger] text[i]) is Some by {
        let k = i / 2;
        assert(i == 2 * k || i == 2 * k + 1);
        assert(hex_digit(text[2 * k]) is Some);
    }
    hex_goes_on(text, 0, seq![], text);
    hex_goes_on(text.push(62) + rest, 0, seq![], text);
    assert(text.skip(0) =~= text);
    assert(Seq::<u8>::empty() + values =~= values);
    assert(digit_pairs(values) =~= bytes) by {
        assert forall|i: int| 0 <= i < bytes.len() implies digit_pairs(values)[i] == bytes[i] by {
            assert(values[2 * i] == hex_digit(text[2 * i])->0);
            assert(values[2 * i + 1] == hex_digit(text[2 * i + 1])->0);
        }
    }
}

proof fn hex_blank_at(d: Seq<u8>, e: Seq<u8>, k: int, p: int, acc: Seq<u8>)
    requires
        0 <= p <= k < d.len(),
        ascii_space(d[k]),
        e == d.remove(k),
    ensures
        ascii_hex_from(d, p, acc) == ascii_hex_from(e, p, acc),
    decreases k - p,
{
    if p < k {
        assert(e[p] == d[p]);
        match hex_digit(d[p]) {
            Some(v) => {
                hex_blank_at(d, e, k, p + 1, acc.push(v));
            },
            None => {},
        }
        if ascii_space(d[p]) {
            hex_blank_at(d, e, k, p + 1, acc);
        }
    } else {
        hex_shifted(d, e, k, k + 1, acc);
    }
}

proof fn hex_shifted(d: Seq<u8>, e: Seq<u8>, k: int, p: int, acc: Seq<u8>)
    requires
        0 <= k < p,
        k < d.len(),
        e == d.remove(k),
    ensures
        ascii_hex_from(d, p, acc) == ascii_hex_from(e, p - 1, acc),
    decreases d.len() - p,
{
    if p < d.len() {
        assert(e[p - 1] == d[p]);
        match hex_digit(d[p]) {
            Some(v) => {
                hex_shifted(d, e, k, p + 1, acc.push(v));
            },
            None => {},
        }
        if ascii_space(d[p]) {
            hex_shifted(d, e, k, p + 1, acc);
        }
    }
}

/// A blank among hexadecimal digits counts for nothing.
pub proof fn blanks_in_hex_do_not_count(d: Seq<u8>, k: int)
    requires
        0 <= k < d.len(),
        d[k] == 9 || d[k] == 10 || d[k] == 12 || d[k] == 13 || d[k] == 32,
    ensures
        unfiltered("ASCIIHexDecode"@, d) == unfiltered("ASCIIHexDecode"@, d.remove(k)),
{
    filters_have_names();
    hex_blank_at(d, d.remove(k), k, 0, seq![]);
}

/// A digit left over counts as the high one of a byte.
pub proof fn odd_digit_is_high(a: u8)
    requires
        hex_digit(a) is Some,
    ensures
        unfiltered("ASCIIHexDecode"@, seq![a]) == Ok::<Seq<u8>, ErrorModel>(
            seq![(hex_digit(a)->0 * 16) as u8],
        ),
        48 <= a <= 57 ==> hex_digit(a)->0 == a - 48,
        97 <= a <= 102 ==> hex_digit(a)->0 == a - 97 + 10,
        65 <= a <= 70 ==> hex_digit(a)->0 == a - 65 + 10,
{
    filters_have_names();
    let d = seq![a];
    reveal_with_fuel(ascii_hex_from, 3);
    let v = Seq::<u8>::empty().push(hex_digit(a)->0);
    assert(digit_pairs(v) =~= seq![(hex_digit(a)->0 * 16) as u8]);
}

/// The filters by their names; the short one of each means the same.
pub proof fn filters_have_names()
    ensures
        forall|d: Seq<u8>|
            #![trigger unfiltered("Fl"@, d)]
            #![trigger unfiltered("FlateDecode"@, d)]
            unfiltered("Fl"@, d) == unfiltered("FlateDecode"@, d) && unfiltered("FlateDecode"@, d)
                == crate::filters::flate_decoded(d),
        forall|d: Seq<u8>|
            #![trigger unfiltered("AHx"@, d)]
            #![trigger unfiltered("ASCIIHexDecode"@, d)]
            unfiltered("AHx"@, d) == unfiltered("ASCIIHexDecode"@, d) && unfiltered(
                "ASCIIHexDecode"@,
                d,
            ) == ascii_hex_from(d, 0, seq![]),
        forall|d: Seq<u8>|
            #![trigger unfiltered("A85"@, d)]
            #![trigger unfiltered("ASCII85Decode"@, d)]
            unfiltered("A85"@, d) == unfiltered("ASCII85Decode"@, d) && unfiltered("ASCII85Decode"@, d)
                == ascii85_decoded(d),
        forall|d: Seq<u8>|
            #![trigger unfiltered("LZW"@, d)]
            #![trigger unfiltered("LZWDecode"@, d)]
            unfiltered("LZW"@, d) == unfiltered("LZWDecode"@, d) && unfiltered("LZWDecode"@, d)
                == crate::filters::lzw_decoded(d),
        forall|d: Seq<u8>|
            #![trigger unfiltered("DCT"@, d)]
            #![trigger unfiltered("DCTDecode"@, d)]
            unfiltered("DCT"@, d) == unfiltered("DCTDecode"@, d) && unfiltered("DCTDecode"@, d)
                == crate::jpeg::jpeg_decoded(d),
{
    reveal_strlit("FlateDecode");
    reveal_strlit("Fl");
    reveal_strlit("ASCIIHexDecode");
    reveal_strlit("AHx");
    reveal_strlit("ASCII85Decode");
    reveal_strlit("A85");
    reveal_strlit("LZWDecode");
    reveal_strlit("LZW");
    reveal_strlit("DCTDecode");
    reveal_strlit("DCT");
    assert("FlateDecode"@.len() == 11 && "Fl"@.len() == 2);
    assert("ASCIIHexDecode"@.len() == 14 && "AHx"@.len() == 3 && "AHx"@[1] == 'H');
    assert("ASCII85Decode"@.len() == 13 && "A85"@.len() == 3 && "A85"@[1] == '8');
    assert("LZWDecode"@.len() == 9 && "LZWDecode"@[0] == 'L' && "LZW"@.len() == 3 && "LZW"@[1] == 'Z');
    assert("DCTDecode"@.len() == 9 && "DCTDecode"@[0] == 'D' && "DCT"@.len() == 3 && "DCT"@[1] == 'C');
}

/// The digit of `n` at the place that counts by `unit`.
pub open spec fn digit85(n: int, unit: int) -> u8 {
    (n / unit % 85) as u8
}

/// Five digits to the base 85, the highest first.
pub open spec fn digits85(n: int) -> Seq<u8> {
    seq![
        digit85(n, 52200625),
        digit85(n, 614125),
        digit85(n, 7225),
        digit85(n, 85),
        digit85(n, 1),
    ]
}

/// The number of four bytes, the highest first.
pub open spec fn word(a: u8, b: u8, c: u8, d: u8) -> int {
    a * 0x100_0000 + b * 0x1_0000 + c * 256 + d
}

/// Digits as they are written: from `!` on.
pub open spec fn written85(digits: Seq<u8>) -> Seq<u8> {
    digits.map_values(|v: u8| (v + 33) as u8)
}

proof fn digits85_value(n: int)
    requires
        0 <= n <= 0xFFFF_FFFF,
    ensures
        value85(digits85(n)) == n,
        forall|i: int| 0 <= i < 5 ==> #[trigger] digits85(n)[i] < 85,
{
    let s = digits85(n);
    reveal_with_fuel(value85, 6);
    let s4 = s.drop_last();
    let s3 = s4.drop_last();
    let s2 = s3.drop_last();
    let s1 = s2.drop_last();
    let q1 = n / 85;
    let q2 = n / 7225;
    let q3 = n / 614125;
    let q4 = n / 52200625;
    assert(q2 == q1 / 85 && q3 == q2 / 85 && q4 == q3 / 85);
    assert(0 <= q4 < 85);
    assert(s1.drop_last() =~= seq![]);
    assert(value85(s1) == q4);
    assert(value85(s2) == q3);
    assert(value85(s3) == q2);
    assert(value85(s4) == q1);
}

proof fn word_bytes(a: u8, b: u8, c: u8, d: u8)
    ensures
        0 <= word(a, b, c, d) <= 0xFFFF_FFFF,
        be_bytes(word(a, b, c, d) as nat) == seq![a, b, c, d],
{
    reveal(be_bytes);
    let v = word(a, b, c, d);
    assert(v / 0x100_0000 == a);
    assert(v / 0x1_0000 == a * 256 + b);
    assert(v / 256 == a * 0x1_0000 + b * 256 + c);
    assert(be_bytes(v as nat) =~= seq![a, b, c, d]);
}

/// A digit is read.
proof fn digit_is_read(d: Seq<u8>, p: int, group: Seq<u8>, acc: Seq<u8>, v: u8)
    requires
        0 <= p < d.len(),
        v < 85,
        d[p] == v + 33,
    ensures
        group.len() != 4 ==> ascii85_from(d, p, group, acc) == ascii85_from(
            d,
            p + 1,
            group.push(v),
            acc,
        ),
        group.len() == 4 ==> ascii85_from(d, p, group, acc) == ascii85_from(
            d,
            p + 1,
            seq![],
            acc + be_bytes(value85(group.push(v))),
        ),
{
    assert(((d[p] - 33) as u8) == v);
}

/// A group of five digits is read.
#[verifier::rlimit(50)]
proof fn group_is_read(d: Seq<u8>, p: int, n: int, acc: Seq<u8>)
    requires
        0 <= p,
        p + 5 <= d.len(),
        0 <= n <= 0xFFFF_FFFF,
        forall|i: int| 0 <= i < 5 ==> #[trigger] d[p + i] == digits85(n)[i] + 33,
    ensures
        ascii85_from(d, p, seq![], acc) == ascii85_from(d, p + 5, seq![], acc + be_bytes(n as nat)),
{
    digits85_value(n);
    let s = digits85(n);
    assert(d[p + 0] == s[0] + 33);
    assert(d[p + 1] == s[1] + 33);
    assert(d[p + 2] == s[2] + 33);
    assert(d[p + 3] == s[3] + 33);
    assert(d[p + 4] == s[4] + 33);
    let g1 = Seq::<u8>::empty().push(s[0]);
    let g2 = g1.push(s[1]);
    let g3 = g2.push(s[2]);
    let g4 = g3.push(s[3]);
    digit_is_read(d, p, seq![], acc, s[0]);
    digit_is_read(d, p + 1, g1, acc, s[1]);
    digit_is_read(d, p + 2, g2, acc, s[2]);
    digit_is_read(d, p + 3, g3, acc, s[3]);
    digit_is_read(d, p + 4, g4, acc, s[4]);
    assert(g4.push(s[4]) =~= s);
}

/// Bytes, four by four, as digits to the base 85.
pub open spec fn encoded85(bytes: Seq<u8>, n: nat) -> Seq<u8>
    decreases n,
{
    if n == 0 {
        seq![]
    } else {
        encoded85(bytes, (n - 1) as nat) + written85(
            digits85(
                word(
                    bytes[4 * n - 4],
                    bytes[4 * n - 3],
                    bytes[4 * n - 2],
                    bytes[4 * n - 1],
                ),
            ),
        )
    }
}

proof fn encoded85_is(bytes: Seq<u8>, n: nat, k: int)
    ensures
        encoded85(bytes, n).len() == 5 * n,
        0 <= k < n ==> forall|i: int|
            0 <= i < 5 ==> #[trigger] encoded85(bytes, n)[5 * k + i] == digits85(
                word(bytes[4 * k], bytes[4 * k + 1], bytes[4 * k + 2], bytes[4 * k + 3]),
            )[i] + 33,
    decreases n,
{
    if n > 0 {
        encoded85_is(bytes, (n - 1) as nat, k);
        let w = word(bytes[4 * n - 4], bytes[4 * n - 3], bytes[4 * n - 2], bytes[4 * n - 1]);
        word_bytes(bytes[4 * n - 4], bytes[4 * n - 3], bytes[4 * n - 2], bytes[4 * n - 1]);
        digits85_value(w);
        if k == n - 1 {
            assert forall|i: int| 0 <= i < 5 implies #[trigger] encoded85(bytes, n)[5 * k + i] == digits85(
                w,
            )[i] + 33 by {
                assert(encoded85(bytes, n)[5 * k + i] == written85(digits85(w))[i]);
                assert(digits85(w)[i] < 85);
            }
        } else if 0 <= k < n - 1 {
            assert forall|i: int| 0 <= i < 5 implies #[trigger] encoded85(bytes, n)[5 * k + i]
                == encoded85(bytes, (n - 1) as nat)[5 * k + i] by {}
        }
    }
}

proof fn groups_are_read(bytes: Seq<u8>, n: nat, d: Seq<u8>, k: nat)
    requires
        bytes.len() >= 4 * n,
        k <= n,
        d.len() >= 5 * n,
        d.take(5 * n as int) == encoded85(bytes, n),
    ensures
        ascii85_from(d, 0, seq![], seq![]) == ascii85_from(
            d,
            5 * k as int,
            seq![],
            bytes.take(4 * k as int),
        ),
    decreases k,
{
    if k == 0 {
        assert(bytes.take(0) =~= seq![]);
    } else {
        let j = (k - 1) as nat;
        groups_are_read(bytes, n, d, j);
        encoded85_is(bytes, n, j as int);
        let a = bytes[4 * j as int];
        let b = bytes[4 * j as int + 1];
        let c = bytes[4 * j as int + 2];
        let e = bytes[4 * j as int + 3];
        word_bytes(a, b, c, e);
        assert forall|i: int| 0 <= i < 5 implies #[trigger] d[5 * j + i] == digits85(word(a, b, c, e))[i]
            + 33 by {
            assert(d[5 * j + i] == d.take(5 * n as int)[5 * j + i]);
        }
        group_is_read(d, 5 * j as int, word(a, b, c, e), bytes.take(4 * j as int));
        assert(bytes.take(4 * j as int) + seq![a, b, c, e] =~= bytes.take(4 * k as int));
    }
}

/// Bytes written four by four in digits to the base 85 come back, up to the mark `~>` at the end.
pub proof fn base85_comes_back(bytes: Seq<u8>, n: nat, rest: Seq<u8>)
    requires
        bytes.len() == 4 * n,
    ensures
        unfiltered("ASCII85Decode"@, encoded85(bytes, n) + seq![126u8, 62] + rest) == Ok::<
            Seq<u8>,
            ErrorModel,
        >(bytes),
        unfiltered("ASCII85Decode"@, encoded85(bytes, n)) == Ok::<Seq<u8>, ErrorModel>(bytes),
{
    filters_have_names();
    encoded85_is(bytes, n, 0);
    let text = encoded85(bytes, n);
    let d = text + seq![126u8, 62] + rest;
    assert(d.take(5 * n as int) =~= text);
    assert(text.take(5 * n as int) =~= text);
    groups_are_read(bytes, n, d, n);
    groups_are_read(bytes, n, text, n);
    assert(bytes.take(4 * n as int) =~= bytes);
    assert(d[5 * n as int] == 126);
    if n > 0 {
        let w = word(bytes[0], bytes[1], bytes[2], bytes[3]);
        word_bytes(bytes[0], bytes[1], bytes[2], bytes[3]);
        digits85_value(w);
        assert(text[5 * 0int + 1] == digits85(w)[1] + 33);
        assert(digits85(w)[1] < 85);
        assert(d[1] == text[1]);
    }
}

/// The mark `<~` at the front counts for nothing.
pub proof fn front_mark_does_not_count(bytes: Seq<u8>)
    ensures
        unfiltered("ASCII85Decode"@, seq![60u8, 126] + bytes) == ascii85_from(bytes, 0, seq![], seq![]),
{
    filters_have_names();
    let d = seq![60u8, 126] + bytes;
    ascii85_shifted(d, bytes, 0, seq![], seq![]);
}

proof fn ascii85_shifted(d: Seq<u8>, e: Seq<u8>, p: int, group: Seq<u8>, acc: Seq<u8>)
    requires
        0 <= p,
        d == seq![60u8, 126] + e,
    ensures
        ascii85_from(d, p + 2, group, acc) == ascii85_from(e, p, group, acc),
    decreases e.len() - p,
{
    if p < e.len() {
        assert(d[p + 2] == e[p]);
        let b = e[p];
        if b != 126 {
            if ascii_space(b) {
                ascii85_shifted(d, e, p + 1, group, acc);
            } else if b == 122 && group.len() == 0 {
                ascii85_shifted(d, e, p + 1, group, acc + seq![0u8, 0, 0, 0]);
            } else if b >= 33 {
                let next = group.push((b - 33) as u8);
                if next.len() == 5 {
                    ascii85_shifted(d, e, p + 1, seq![], acc + be_bytes(value85(next)));
                } else {
                    ascii85_shifted(d, e, p + 1, next, acc);
                }
            }
        }
    }
}

/// `z` stands for four zeros, between groups.
pub proof fn z_is_four_zeros(n: nat)
    ensures
        ascii85_from(Seq::new(n, |i: int| 122u8), 0, seq![], seq![]) == Ok::<Seq<u8>, ErrorModel>(
            Seq::new(4 * n, |i: int| 0u8),
        ),
{
    z_from(n, 0);
    assert(Seq::new(0, |i: int| 0u8) =~= seq![]);
}

proof fn z_from(n: nat, k: nat)
    requires
        k <= n,
    ensures
        ascii85_from(
            Seq::new(n, |i: int| 122u8),
            k as int,
            seq![],
            Seq::new(4 * k, |i: int| 0u8),
        ) == Ok::<Seq<u8>, ErrorModel>(Seq::new(4 * n, |i: int| 0u8)),
    decreases n - k,
{
    let d = Seq::new(n, |i: int| 122u8);
    let acc = Seq::new(4 * k, |i: int| 0u8);
    if k < n {
        z_from(n, k + 1);
        assert(d[k as int] == 122);
        assert(acc + seq![0u8, 0, 0, 0] =~= Seq::new(4 * (k + 1), |i: int| 0u8));
    }
}

/// One, two or three bytes are written in one digit more than they are, those of the number that
/// they make with zeros behind them. They come back.
pub proof fn short_group_comes_back(a: u8, b: u8, c: u8)
    ensures
        short_group85(digits85(word(a, 0, 0, 0)).take(2)) == seq![a],
        short_group85(digits85(word(a, b, 0, 0)).take(3)) == seq![a, b],
        short_group85(digits85(word(a, b, c, 0)).take(4)) == seq![a, b, c],
{
    short_of(word(a, 0, 0, 0), 2, 614125, 0x100_0000);
    short_of(word(a, b, 0, 0), 3, 7225, 0x1_0000);
    short_of(word(a, b, c, 0), 4, 85, 256);
    word_bytes(a, 0, 0, 0);
    word_bytes(a, b, 0, 0);
    word_bytes(a, b, c, 0);
    assert(seq![a, 0u8, 0u8, 0u8].take(1) =~= seq![a]);
    assert(seq![a, b, 0u8, 0u8].take(2) =~= seq![a, b]);
    assert(seq![a, b, c, 0u8].take(3) =~= seq![a, b, c]);
}

/// The number of a group that is filled up.
#[verifier::rlimit(50)]
proof fn filled_value(n: int, k: int, cut: int)
    requires
        0 <= n <= 0xFFFF_FFFF,
        (k == 2 && cut == 614125) || (k == 3 && cut == 7225) || (k == 4 && cut == 85),
    ensures
        value85(digits85(n).take(k) + Seq::new((5 - k) as nat, |i: int| 84u8)) == n / cut * cut + (cut
            - 1),
{
    let full = digits85(n).take(k) + Seq::new((5 - k) as nat, |i: int| 84u8);
    let s4 = full.drop_last();
    let s3 = s4.drop_last();
    let s2 = s3.drop_last();
    let s1 = s2.drop_last();
    let q1 = n / 85;
    let q2 = n / 7225;
    let q3 = n / 614125;
    let q4 = n / 52200625;
    assert(q2 == q1 / 85 && q3 == q2 / 85 && q4 == q3 / 85);
    assert(0 <= q4 < 85);
    assert(s1.drop_last() =~= seq![]);
    assert(value85(s1.drop_last()) == 0);
    assert(s1.last() == digit85(n, 52200625));
    assert(value85(s1) == q4);
    assert(s2.last() == digit85(n, 614125));
    assert(value85(s2) == q3);
    if k == 2 {
        assert(s3.last() == 84 && s4.last() == 84 && full.last() == 84);
        assert(value85(s3) == q3 * 85 + 84);
        assert(value85(s4) == q3 * 7225 + 84 * 85 + 84);
        assert(value85(full) == q3 * 614125 + 84 * 7225 + 84 * 85 + 84);
    } else if k == 3 {
        assert(s3.last() == digit85(n, 7225));
        assert(s4.last() == 84 && full.last() == 84);
        assert(value85(s3) == q2);
        assert(value85(s4) == q2 * 85 + 84);
        assert(value85(full) == q2 * 7225 + 84 * 85 + 84);
    } else {
        assert(s3.last() == digit85(n, 7225));
        assert(s4.last() == digit85(n, 85));
        assert(full.last() == 84);
        assert(value85(s3) == q2);
        assert(value85(s4) == q1);
        assert(value85(full) == q1 * 85 + 84);
    }
}

/// Numbers that differ in their low bytes alone have the same high ones.
proof fn high_bytes(n: int, m: int, k: int)
    requires
        0 <= n <= m <= 0xFFFF_FFFF,
        (k == 2 && m / 0x100_0000 == n / 0x100_0000) || (k == 3 && m / 0x1_0000 == n / 0x1_0000) || (k
            == 4 && m / 256 == n / 256),
    ensures
        be_bytes(m as nat).take(k - 1) == be_bytes(n as nat).take(k - 1),
{
    reveal(be_bytes);
    assert(m % 0x1_0000_0000 == m && n % 0x1_0000_0000 == n);
    if k == 3 {
        assert(m / 0x100_0000 == m / 0x1_0000 / 256 && n / 0x100_0000 == n / 0x1_0000 / 256);
    } else if k == 4 {
        assert(m / 0x1_0000 == m / 256 / 256 && n / 0x1_0000 == n / 256 / 256);
        assert(m / 0x100_0000 == m / 256 / 0x1_0000 && n / 0x100_0000 == n / 256 / 0x1_0000);
    }
    assert(be_bytes(m as nat).take(k - 1) =~= be_bytes(n as nat).take(k - 1));
}

proof fn short_of(n: int, k: int, cut: int, low: int)
    requires
        0 <= n <= 0xFFFF_FFFF,
        n % low == 0,
        (k == 2 && cut == 614125 && low == 0x100_0000) || (k == 3 && cut == 7225 && low == 0x1_0000)
            || (k == 4 && cut == 85 && low == 256),
    ensures
        short_group85(digits85(n).take(k)) == be_bytes(n as nat).take(k - 1),
{
    let m = n / cut * cut + (cut - 1);
    filled_value(n, k, cut);
    if k == 2 {
        assert(n <= m < n + 614125 && n % 0x100_0000 == 0 && m <= 0xFFFF_FFFF);
        assert(m / 0x100_0000 == n / 0x100_0000);
    } else if k == 3 {
        assert(n <= m < n + 7225 && n % 0x1_0000 == 0 && m <= 0xFFFF_FFFF);
        assert(m / 0x1_0000 == n / 0x1_0000);
    } else {
        assert(n <= m < n + 85 && n % 256 == 0 && m <= 0xFFFF_FFFF);
        assert(m / 256 == n / 256);
    }
    high_bytes(n, m, k);
    assert(digits85(n).take(k).len() == k);
}

proof fn tiff_is(d: Seq<u8>, row: int, pixel: int, n: nat, i: int)
    requires
        row > 0,
        pixel > 0,
        0 <= i < n <= d.len(),
    ensures
        ({
            let r = tiff_prefix(d, row, pixel, n);
            &&& r.len() == n
            &&& i % row < pixel ==> r[i] == d[i]
            &&& i % row >= pixel ==> r[i] == (d[i] + r[i - pixel]) % 256
        }),
    decreases n,
{
    tiff_prefix_len(d, row, pixel, n);
    tiff_prefix_len(d, row, pixel, (n - 1) as nat);
    assert(0 <= i % row <= i) by {
        vstd::arithmetic::div_mod::lemma_mod_decreases(i as nat, row as nat);
    }
    if i < n - 1 {
        tiff_is(d, row, pixel, (n - 1) as nat, i);
    }
}

/// The TIFF predictor undone: in each row a byte of the first pixel stays, and each byte behind
/// differs from the one a pixel before it by what was stored.
pub proof fn tiff_differences_are_undone(d: Seq<u8>, row: int, pixel: int, i: int)
    requires
        row > 0,
        pixel > 0,
        0 <= i < d.len(),
    ensures
        tiff_decoded(d, row, pixel).len() == d.len(),
        i % row < pixel ==> tiff_decoded(d, row, pixel)[i] == d[i],
        i % row >= pixel ==> (tiff_decoded(d, row, pixel)[i] - tiff_decoded(d, row, pixel)[i - pixel])
            % 256 == d[i],
{
    tiff_is(d, row, pixel, d.len(), i);
}

/// Of three bytes the one nearest to the first and the second less the third; among those as near
/// the first goes before the second and the second before the third.
pub proof fn paeth_is_the_nearest(a: u8, b: u8, c: u8)
    ensures
        ({
            let p = a + b - c;
            let r = paeth_of(a, b, c) as int;
            let from = |x: int|
                if x < p {
                    p - x
                } else {
                    x - p
                };
            &&& r == a || r == b || r == c
            &&& from(r) <= from(a as int) && from(r) <= from(b as int) && from(r) <= from(c as int)
            &&& from(a as int) == from(r) ==> r == a
            &&& from(b as int) == from(r) && r != a ==> r == b
        }),
{
}

/// The byte of the data that was stored where `now` is predicted from the bytes to its left, above
/// it and above to the left.
pub open spec fn stored(filter: u8, now: u8, left: u8, above: u8, corner: u8) -> int {
    let predicted = if filter == 0 {
        0
    } else if filter == 1 {
        left as int
    } else if filter == 2 {
        above as int
    } else if filter == 3 {
        (left + above) / 2
    } else {
        paeth_of(left, above, corner) as int
    };
    (now - predicted) % 256
}

proof fn png_row_is(filter: u8, raw: Seq<u8>, above: Seq<u8>, pixel: int, n: nat, i: int)
    requires
        pixel > 0,
        0 <= i < n <= raw.len(),
        above.len() == raw.len(),
    ensures
        ({
            let r = png_prefix(filter, raw, above, pixel, n);
            let a = if i >= pixel {
                r[i - pixel]
            } else {
                0
            };
            let c = if i >= pixel {
                above[i - pixel]
            } else {
                0
            };
            r.len() == n && raw[i] == stored(filter, r[i], a, above[i], c)
        }),
    decreases n,
{
    png_row_len(filter, raw, above, pixel, n);
    png_row_len(filter, raw, above, pixel, (n - 1) as nat);
    if i < n - 1 {
        png_row_is(filter, raw, above, pixel, (n - 1) as nat, i);
    }
}

proof fn png_row_len(filter: u8, raw: Seq<u8>, above: Seq<u8>, pixel: int, n: nat)
    ensures
        png_prefix(filter, raw, above, pixel, n).len() == n,
    decreases n,
{
    if n > 0 {
        png_row_len(filter, raw, above, pixel, (n - 1) as nat);
    }
}

/// The byte at a place of rows of bytes; what lies to the left or above is zero.
pub open spec fn byte_in(rows: Seq<u8>, row: int, r: int, i: int) -> u8 {
    if r < 0 || i < 0 {
        0
    } else {
        rows[r * row + i]
    }
}

/// A byte of the data is what its row says was stored.
pub open spec fn byte_is_stored(d: Seq<u8>, out: Seq<u8>, row: int, pixel: int, r: int, i: int) -> bool {
    let filter = d[r * (row + 1)];
    &&& filter <= 4
    &&& d[r * (row + 1) + 1 + i] == stored(
        filter,
        byte_in(out, row, r, i),
        byte_in(out, row, r, i - pixel),
        byte_in(out, row, r - 1, i),
        if i >= pixel {
            byte_in(out, row, r - 1, i - pixel)
        } else {
            0
        },
    )
}

#[verifier::rlimit(50)]
proof fn png_row_in(d: Seq<u8>, out: Seq<u8>, row: int, pixel: int, above: Seq<u8>, acc: Seq<u8>, k: int, i: int)
    requires
        row > 0,
        pixel > 0,
        k >= 0,
        0 <= i < row,
        k * (row + 1) + 1 + row <= d.len(),
        d[k * (row + 1)] <= 4,
        acc.len() == k * row,
        above.len() == row,
        k == 0 ==> above == Seq::new(row as nat, |j: int| 0u8),
        k > 0 ==> above == acc.skip((k - 1) * row),
        out.len() >= acc.len() + row,
        ({
            let p = k * (row + 1);
            let raw = d.subrange(p + 1, p + 1 + row);
            let line = png_prefix(d[p], raw, above, pixel, row as nat);
            forall|j: int| 0 <= j < acc.len() + row ==> #[trigger] out[j] == (acc + line)[j]
        }),
    ensures
        byte_is_stored(d, out, row, pixel, k, i),
{
    let p = k * (row + 1);
    let raw = d.subrange(p + 1, p + 1 + row);
    let line = png_prefix(d[p], raw, above, pixel, row as nat);
    png_row_len(d[p], raw, above, pixel, row as nat);
    png_row_is(d[p], raw, above, pixel, row as nat, i);
    assert(raw[i] == d[p + 1 + i]);
    assert(k * row >= 0) by (nonlinear_arith)
        requires
            k >= 0,
            row > 0,
    ;
    assert(byte_in(out, row, k, i) == line[i]) by {
        assert(out[k * row + i] == (acc + line)[k * row + i]);
    }
    if i >= pixel {
        assert(byte_in(out, row, k, i - pixel) == line[i - pixel]) by {
            assert(out[k * row + (i - pixel)] == (acc + line)[k * row + (i - pixel)]);
        }
    }
    assert((k - 1) * row == k * row - row) by (nonlinear_arith);
    if k > 0 {
        assert((k - 1) * row >= 0) by (nonlinear_arith)
            requires
                k > 0,
                row > 0,
        ;
        assert(above[i] == acc[(k - 1) * row + i]);
        assert(byte_in(out, row, k - 1, i) == above[i]) by {
            assert(out[(k - 1) * row + i] == (acc + line)[(k - 1) * row + i]);
        }
        if i >= pixel {
            assert(above[i - pixel] == acc[(k - 1) * row + (i - pixel)]);
            assert(byte_in(out, row, k - 1, i - pixel) == above[i - pixel]) by {
                assert(out[(k - 1) * row + (i - pixel)] == (acc + line)[(k - 1) * row + (i - pixel)]);
            }
        }
    }
}

/// The data from `p` on are rows whose filters are undone behind `acc`.
#[verifier::rlimit(50)]
proof fn png_rows_are(d: Seq<u8>, p: int, row: int, pixel: int, above: Seq<u8>, acc: Seq<u8>, k: int)
    requires
        row > 0,
        pixel > 0,
        k >= 0,
        p == k * (row + 1),
        acc.len() == k * row,
        above.len() == row,
        d.len() % ((row + 1) as nat) == 0,
        p <= d.len(),
        k == 0 ==> above == Seq::new(row as nat, |i: int| 0u8),
        k > 0 ==> above == acc.skip((k - 1) * row),
        png_rows(d, p, row, pixel, above, acc) is Ok,
    ensures
        ({
            let out = png_rows(d, p, row, pixel, above, acc)->Ok_0;
            let count = d.len() as int / (row + 1);
            &&& k <= count
            &&& out.len() == count * row
            &&& out.len() >= acc.len()
            &&& forall|j: int| 0 <= j < acc.len() ==> #[trigger] out[j] == acc[j]
            &&& forall|r: int, i: int|
                k <= r < count && 0 <= i < row ==> #[trigger] byte_is_stored(d, out, row, pixel, r, i)
        }),
    decreases d.len() - p,
{
    let count = d.len() as int / (row + 1);
    vstd::arithmetic::div_mod::lemma_fundamental_div_mod(d.len() as int, row + 1);
    assert(d.len() == (row + 1) * count);
    assert((row + 1) * count == count * (row + 1)) by (nonlinear_arith);
    assert(k <= count) by (nonlinear_arith)
        requires
            k * (row + 1) <= count * (row + 1),
            row > 0,
    ;
    if p + 1 + row > d.len() {
        assert(k >= count) by (nonlinear_arith)
            requires
                k * (row + 1) + (row + 1) > count * (row + 1),
                row > 0,
        ;
        assert(png_rows(d, p, row, pixel, above, acc) == Ok::<Seq<u8>, ErrorModel>(acc));
        assert(k == count);
    } else {
        let raw = d.subrange(p + 1, p + 1 + row);
        let line = png_prefix(d[p], raw, above, pixel, row as nat);
        png_row_len(d[p], raw, above, pixel, row as nat);
        let next = acc + line;
        assert((k + 1) * (row + 1) == k * (row + 1) + (row + 1)) by (nonlinear_arith);
        assert((k + 1) * row == k * row + row) by (nonlinear_arith);
        assert(next.skip(k * row) =~= line);
        assert(png_rows(d, p, row, pixel, above, acc) == png_rows(d, p + 1 + row, row, pixel, line, next));
        png_rows_are(d, p + 1 + row, row, pixel, line, next, k + 1);
        let out = png_rows(d, p, row, pixel, above, acc)->Ok_0;
        assert forall|j: int| 0 <= j < acc.len() implies #[trigger] out[j] == acc[j] by {
            assert(out[j] == next[j]);
        }
        assert forall|r: int, i: int| k <= r < count && 0 <= i < row implies #[trigger] byte_is_stored(
            d,
            out,
            row,
            pixel,
            r,
            i,
        ) by {
            if r == k {
                png_row_in(d, out, row, pixel, above, acc, k, i);
            }
        }
    }
}

/// The PNG predictors undone: each row says its filter, and each byte of it that was stored is what
/// is left of the byte without what the filter predicts from the bytes around it.
pub proof fn png_filters_are_undone(d: Seq<u8>, row: int, pixel: int)
    requires
        row > 0,
        pixel > 0,
        png_decoded(d, row, pixel) is Ok,
    ensures
        ({
            let out = png_decoded(d, row, pixel)->Ok_0;
            let count = d.len() as int / (row + 1);
            &&& d.len() == count * (row + 1)
            &&& out.len() == count * row
            &&& forall|r: int, i: int|
                0 <= r < count && 0 <= i < row ==> #[trigger] byte_is_stored(d, out, row, pixel, r, i)
        }),
{
    let zero = Seq::new(row as nat, |i: int| 0u8);
    assert(d.len() % ((row + 1) as nat) == 0);
    assert(0 * (row + 1) == 0 && 0 * row == 0);
    png_rows_are(d, 0, row, pixel, zero, seq![], 0);
    vstd::arithmetic::div_mod::lemma_fundamental_div_mod(d.len() as int, row + 1);
    let count = d.len() as int / (row + 1);
    assert((row + 1) * count == count * (row + 1)) by (nonlinear_arith);
}

/// A row has a byte for each component of each pixel where a component has eight bits, and a
/// pixel as many bytes as components.
pub proof fn rows_have_their_pixels(parms: DictModel, colors: int, columns: int)
    requires
        0 < colors <= 0xFFFF,
        0 < columns <= 0xFFFF,
        entry(parms, "Colors"@) == Some(ObjectModel::Integer(colors)),
        entry(parms, "Columns"@) == Some(ObjectModel::Integer(columns)),
        entry(parms, "BitsPerComponent"@) is None || entry(parms, "BitsPerComponent"@) == Some(
            ObjectModel::Integer(8),
        ),
        usize::MAX >= 0xFFFF_FFFF_FFFF_FFFF,
    ensures
        row_layout(parms) == Some((columns * colors, colors)),
{
    assert(0 <= columns * (colors * 8) <= 0xFFFF * (0xFFFF * 8)) by (nonlinear_arith)
        requires
            0 < colors <= 0xFFFF,
            0 < columns <= 0xFFFF,
    ;
    assert(columns * (colors * 8) == 8 * (columns * colors)) by (nonlinear_arith);
}

/// Without a predictor data stay as they are; the second is that of TIFF, and all from the tenth
/// on are those of PNG.
pub proof fn predictors_have_their_numbers(d: Seq<u8>, parms: DictModel, n: int, row: int, pixel: int)
    requires
        i64::MIN <= n <= i64::MAX,
        entry(parms, "Predictor"@) == Some(ObjectModel::Integer(n)) || (entry(parms, "Predictor"@) is None
            && n == 1),
        row_layout(parms) == Some((row, pixel)),
        row > 0,
    ensures
        n <= 1 ==> unpredicted(d, parms) == Ok::<Seq<u8>, ErrorModel>(d),
        n == 2 ==> unpredicted(d, parms) == Ok::<Seq<u8>, ErrorModel>(tiff_decoded(d, row, pixel)),
        n >= 10 ==> unpredicted(d, parms) == png_decoded(d, row, pixel),
{
}

/// Filters are undone in the order in which they are named, each on what the one before it left.
pub proof fn filters_go_in_order(dict: DictModel, a: Seq<char>, b: Seq<char>, raw: Seq<u8>)
    requires
        entry(dict, "DecodeParms"@) is None,
        entry(dict, "DP"@) is None,
        entry(dict, "Filter"@) == Some(
            ObjectModel::Array(seq![ObjectModel::Name(a), ObjectModel::Name(b)]),
        ),
    ensures
        stream_decoded(dict, raw) == match unfiltered(a, raw) {
            Ok(out) => unfiltered(b, out),
            Err(e) => Err(e),
        },
{
    let items = seq![ObjectModel::Name(a), ObjectModel::Name(b)];
    reveal_with_fuel(crate::filters::names_in, 3);
    assert(crate::filters::names_in(items, 2) =~= seq![a, b]);
    reveal_with_fuel(decoded_from, 3);
}

/// A stream without a filter holds its data as they are, and one with a filter the data with it
/// undone.
pub proof fn one_filter_is_undone(dict: DictModel, a: Seq<char>, raw: Seq<u8>)
    ensures
        entry(dict, "Filter"@) is None ==> stream_decoded(dict, raw) == Ok::<Seq<u8>, ErrorModel>(raw),
        entry(dict, "Filter"@) == Some(ObjectModel::Name(a)) && entry(dict, "DecodeParms"@) is None
            && entry(dict, "DP"@) is None ==> stream_decoded(dict, raw) == unfiltered(a, raw),
        forall|parms: DictModel|
            entry(dict, "Filter"@) == Some(ObjectModel::Name(a)) && #[trigger] entry(
                dict,
                "DecodeParms"@,
            ) == Some(ObjectModel::Dictionary(parms)) ==> stream_decoded(dict, raw) == match unfiltered(
                a,
                raw,
            ) {
                Ok(out) => unpredicted(out, parms),
                Err(e) => Err(e),
            },
{
    reveal_with_fuel(decoded_from, 3);
}

} // verus!
